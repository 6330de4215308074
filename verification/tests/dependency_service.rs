use selfpilot::dependency::{detect_cycle, group_dependency_pairs, topo_sort_by_dependency, DepList};
use selfpilot::models::{Task, TaskDependency};

fn make_task(id: &str, sort_order: i64) -> Task {
    Task {
        id: id.to_string(),
        goal_id: "g1".to_string(),
        stage_id: None,
        parent_id: None,
        path: format!("/g1/{}", id),
        name: id.to_string(),
        plan_date: None,
        overdue_date: None,
        plan_qty: 100,
        actual_qty: 0,
        unit: "".to_string(),
        status: "pending".to_string(),
        is_manual: 0,
        source: "auto".to_string(),
        sort_order,
        created_at: "2026-07-07T00:00:00".to_string(),
        estimated_hours: None,
    }
}

fn dep_list(task_id: &str, on: &[&str]) -> DepList {
    DepList { task_id: task_id.to_string(), depends_on: on.iter().map(|s| s.to_string()).collect() }
}

fn dep(task_id: &str, on: &str) -> TaskDependency {
    TaskDependency {
        id: format!("{}-{}", task_id, on),
        task_id: task_id.to_string(),
        depends_on_id: on.to_string(),
        created_at: "2026-07-07T00:00:00".to_string(),
    }
}

fn ids(tasks: &[Task]) -> Vec<&str> {
    tasks.iter().map(|t| t.id.as_str()).collect()
}

#[test]
fn test_topo_sort_basic() {
    let tasks = vec![make_task("A", 2), make_task("B", 1), make_task("C", 0)];
    let deps = vec![dep_list("C", &["A"]), dep_list("B", &["A"])];

    let sorted = topo_sort_by_dependency(&tasks, &deps);
    assert_eq!(sorted[0].id, "A");
    assert_eq!(sorted.len(), 3);
}

#[test]
fn test_topo_sort_chain() {
    let tasks = vec![make_task("C", 0), make_task("B", 1), make_task("A", 2)];
    let deps = vec![dep_list("C", &["B"]), dep_list("B", &["A"])];

    let sorted = topo_sort_by_dependency(&tasks, &deps);
    assert_eq!(ids(&sorted), vec!["A", "B", "C"]);
}

#[test]
fn test_topo_sort_no_deps() {
    let tasks = vec![make_task("A", 2), make_task("B", 0), make_task("C", 1)];
    let deps: Vec<DepList> = Vec::new();
    let sorted = topo_sort_by_dependency(&tasks, &deps);
    assert_eq!(ids(&sorted), vec!["B", "C", "A"]);
}

#[test]
fn test_topo_sort_cross_goal_dep_ignored() {
    let tasks = vec![make_task("A", 1), make_task("B", 0)];
    let deps = vec![dep_list("B", &["X"])];
    let sorted = topo_sort_by_dependency(&tasks, &deps);
    assert_eq!(ids(&sorted), vec!["B", "A"]);
}

#[test]
fn topo_sort_released_tasks_follow_their_prerequisite() {
    // A released B and C (both depend on A): they come after A in sort_order order.
    let tasks = vec![make_task("A", 2), make_task("B", 1), make_task("C", 0)];
    let deps = vec![dep_list("C", &["A"]), dep_list("B", &["A"])];
    let sorted = topo_sort_by_dependency(&tasks, &deps);
    assert_eq!(ids(&sorted), vec!["A", "C", "B"]);
}

#[test]
fn topo_sort_cycle_goes_last_in_sort_order() {
    // X and Y depend on each other; Z is free.
    let tasks = vec![make_task("X", 0), make_task("Y", 1), make_task("Z", 5)];
    let deps = vec![dep_list("X", &["Y"]), dep_list("Y", &["X"])];
    let sorted = topo_sort_by_dependency(&tasks, &deps);
    assert_eq!(ids(&sorted), vec!["Z", "X", "Y"]);
}

#[test]
fn topo_sort_empty_list() {
    let tasks: Vec<Task> = Vec::new();
    let deps: Vec<DepList> = Vec::new();
    assert!(topo_sort_by_dependency(&tasks, &deps).is_empty());
}

#[test]
fn detect_cycle_finds_a_path_back() {
    // B depends on A, C depends on B. Adding "A depends on C" would close a cycle.
    let deps = vec![dep("B", "A"), dep("C", "B")];
    assert!(detect_cycle(&deps, "A", "C"));
    // Adding "D depends on C" would not.
    assert!(!detect_cycle(&deps, "D", "C"));
    // A self-dependency is a cycle.
    assert!(detect_cycle(&deps, "A", "A"));
}

#[test]
fn detect_cycle_without_edges() {
    let deps: Vec<TaskDependency> = Vec::new();
    assert!(!detect_cycle(&deps, "A", "B"));
}

#[test]
fn grouping_pairs_gives_one_entry_per_dependent_task() {
    let pairs = vec![
        ("b".to_string(), "a".to_string()),
        ("c".to_string(), "a".to_string()),
        ("c".to_string(), "b".to_string()),
    ];
    let grouped = group_dependency_pairs(&pairs);
    assert_eq!(grouped.len(), 2);
    let b = grouped.iter().find(|d| d.task_id == "b").unwrap();
    assert_eq!(b.depends_on, vec!["a".to_string()]);
    let c = grouped.iter().find(|d| d.task_id == "c").unwrap();
    let mut on = c.depends_on.clone();
    on.sort();
    assert_eq!(on, vec!["a".to_string(), "b".to_string()]);
    let tasks = vec![make_task("c", 1), make_task("b", 2), make_task("a", 3)];
    let sorted = topo_sort_by_dependency(&tasks, &grouped);
    assert_eq!(ids(&sorted), vec!["a", "b", "c"]);
}

#[test]
fn grouping_no_pairs_gives_no_entries() {
    let grouped = group_dependency_pairs(&Vec::new());
    assert!(grouped.is_empty());
}

#[test]
fn topo_sort_earlier_release_comes_first() {
    // D is released by A, C by B; A is placed before B, so D comes before C
    // although C has the smaller sort_order.
    let tasks = vec![make_task("A", 1), make_task("B", 2), make_task("C", 0), make_task("D", 3)];
    let deps = vec![dep_list("C", &["B"]), dep_list("D", &["A"])];
    let sorted = topo_sort_by_dependency(&tasks, &deps);
    assert_eq!(ids(&sorted), vec!["A", "B", "D", "C"]);
}
