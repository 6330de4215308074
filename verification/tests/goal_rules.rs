use selfpilot::error::AppError;
use selfpilot::goals::{create_goal, goal_ids_to_delete, list_goal_tree, move_goal, update_goal};
use selfpilot::models::{CreateGoalInput, Goal, MoveGoalInput, Task, UpdateGoalInput};
use selfpilot::progress::{calc_all_goals_progress, calc_goal_ancestors_progress, calc_goal_progress, check_goal_completed};

fn goal(id: &str, parent: Option<&str>, path: &str, sort_order: i64) -> Goal {
    Goal {
        id: id.to_string(),
        name: format!("目标{}", id),
        parent_id: parent.map(|p| p.to_string()),
        path: path.to_string(),
        deadline: None,
        total_qty: 1000,
        unit: "页".to_string(),
        sort_order,
        created_at: "2026-06-24T00:00:00".to_string(),
        daily_capacity: None,
    }
}

fn task(id: &str, goal_id: &str, plan: i64, actual: i64, status: &str) -> Task {
    Task {
        id: id.to_string(),
        goal_id: goal_id.to_string(),
        stage_id: None,
        parent_id: None,
        path: format!("/{}/{}", goal_id, id),
        name: id.to_string(),
        plan_date: None,
        overdue_date: None,
        plan_qty: plan,
        actual_qty: actual,
        unit: "页".to_string(),
        status: status.to_string(),
        is_manual: 0,
        source: "auto".to_string(),
        sort_order: 0,
        created_at: "2026-06-24T00:00:00".to_string(),
        estimated_hours: None,
    }
}

/// r ─ a ─ b ; s
fn tree() -> Vec<Goal> {
    vec![
        goal("r", None, "/r", 0),
        goal("a", Some("r"), "/r/a", 0),
        goal("b", Some("a"), "/r/a/b", 0),
        goal("s", None, "/s", 1),
    ]
}

fn find<'a>(goals: &'a [Goal], id: &str) -> &'a Goal {
    goals.iter().find(|g| g.id == id).unwrap()
}

#[test]
fn move_goal_rebuilds_paths_below() {
    let input = MoveGoalInput { goal_id: "a".to_string(), new_parent_id: Some("s".to_string()), before_goal_id: None };
    let out = move_goal(&tree(), &input).unwrap();
    assert_eq!(out.len(), 4);
    let a = find(&out, "a");
    assert_eq!(a.parent_id, Some("s".to_string()));
    assert_eq!(a.path, "/s/a");
    assert_eq!(find(&out, "b").path, "/s/a/b");
    assert_eq!(find(&out, "r").path, "/r");
}

#[test]
fn move_goal_to_top_level() {
    let input = MoveGoalInput { goal_id: "b".to_string(), new_parent_id: None, before_goal_id: None };
    let out = move_goal(&tree(), &input).unwrap();
    let b = find(&out, "b");
    assert_eq!(b.parent_id, None);
    assert_eq!(b.path, "/b");
    assert_eq!(b.sort_order, 2);
}

#[test]
fn move_goal_before_a_sibling() {
    let input = MoveGoalInput {
        goal_id: "b".to_string(),
        new_parent_id: None,
        before_goal_id: Some("s".to_string()),
    };
    let out = move_goal(&tree(), &input).unwrap();
    assert_eq!(find(&out, "b").sort_order, 1);
    assert_eq!(find(&out, "s").sort_order, 2);
    assert_eq!(find(&out, "r").sort_order, 0);
}

#[test]
fn move_goal_refusals() {
    let goals = tree();
    let self_parent = MoveGoalInput { goal_id: "a".to_string(), new_parent_id: Some("a".to_string()), before_goal_id: None };
    assert!(matches!(move_goal(&goals, &self_parent).unwrap_err(), AppError::Business(_)));
    let below = MoveGoalInput { goal_id: "r".to_string(), new_parent_id: Some("b".to_string()), before_goal_id: None };
    match move_goal(&goals, &below).unwrap_err() {
        AppError::Business(m) => assert_eq!(m, "不能将目标移动到其子目标下（会形成循环）"),
        e => panic!("unexpected {:?}", e),
    }
    let missing = MoveGoalInput { goal_id: "zz".to_string(), new_parent_id: None, before_goal_id: None };
    match move_goal(&goals, &missing).unwrap_err() {
        AppError::NotFound(m) => assert_eq!(m, "目标 zz 不存在"),
        e => panic!("unexpected {:?}", e),
    }
    let missing_parent = MoveGoalInput { goal_id: "a".to_string(), new_parent_id: Some("q".to_string()), before_goal_id: None };
    assert!(matches!(move_goal(&goals, &missing_parent).unwrap_err(), AppError::NotFound(_)));
    let wrong_level = MoveGoalInput {
        goal_id: "b".to_string(),
        new_parent_id: None,
        before_goal_id: Some("a".to_string()),
    };
    assert!(matches!(move_goal(&goals, &wrong_level).unwrap_err(), AppError::Param(_)));
}

#[test]
fn create_goal_under_parent() {
    let input = CreateGoalInput {
        name: "新目标".to_string(),
        parent_id: Some("a".to_string()),
        deadline: Some("2026-07-01".to_string()),
        total_qty: Some(500),
        unit: None,
        daily_capacity: None,
    };
    let g = create_goal(&tree(), &input).unwrap();
    assert_eq!(g.path, format!("/r/a/{}", g.id));
    assert_eq!(g.sort_order, 1);
    assert_eq!(g.total_qty, 500);
    assert_eq!(g.unit, "");
    let orphan = CreateGoalInput {
        name: "x".to_string(),
        parent_id: Some("nope".to_string()),
        deadline: None,
        total_qty: None,
        unit: None,
        daily_capacity: None,
    };
    match create_goal(&tree(), &orphan).unwrap_err() {
        AppError::NotFound(m) => assert_eq!(m, "父目标 nope 不存在"),
        e => panic!("unexpected {:?}", e),
    }
}

#[test]
fn create_goal_at_top_level() {
    let input = CreateGoalInput {
        name: "顶层".to_string(),
        parent_id: None,
        deadline: None,
        total_qty: None,
        unit: Some("个".to_string()),
        daily_capacity: Some(200),
    };
    let g = create_goal(&tree(), &input).unwrap();
    assert_eq!(g.path, format!("/{}", g.id));
    assert_eq!(g.sort_order, 2);
    assert_eq!(g.total_qty, 0);
    assert_eq!(g.daily_capacity, Some(200));
}

#[test]
fn update_goal_fields() {
    let g = goal("r", None, "/r", 0);
    let input = UpdateGoalInput {
        id: "r".to_string(),
        name: Some("改名".to_string()),
        deadline: None,
        total_qty: Some(42),
        unit: None,
        daily_capacity: None,
    };
    let u = update_goal(&g, &input).unwrap();
    assert_eq!(u.name, "改名");
    assert_eq!(u.total_qty, 42);
    assert_eq!(u.unit, "页");
    let empty = UpdateGoalInput { id: "r".to_string(), name: None, deadline: None, total_qty: None, unit: None, daily_capacity: None };
    match update_goal(&g, &empty).unwrap_err() {
        AppError::Param(m) => assert_eq!(m, "未提供任何更新字段"),
        e => panic!("unexpected {:?}", e),
    }
}

#[test]
fn goal_ids_to_delete_takes_the_subtree() {
    assert_eq!(goal_ids_to_delete(&tree(), "r"), vec!["r".to_string(), "a".to_string(), "b".to_string()]);
    assert_eq!(goal_ids_to_delete(&tree(), "s"), vec!["s".to_string()]);
}

#[test]
fn progress_sums_the_subtree_without_skipped() {
    let goals = tree();
    let tasks = vec![
        task("t1", "r", 100, 100, "done"),
        task("t2", "a", 200, 50, "partial"),
        task("t3", "b", 300, 0, "pending"),
        task("t4", "b", 400, 0, "skipped"),
        task("t5", "s", 100, 100, "done"),
    ];
    let p = calc_goal_progress(&goals, &tasks, "r").unwrap();
    assert_eq!(p.total_plan, 600);
    assert_eq!(p.total_actual, 150);
    assert!(!p.is_completed);
    let pb = calc_goal_progress(&goals, &tasks, "b").unwrap();
    assert_eq!(pb.total_plan, 300);
    let all = calc_all_goals_progress(&goals, &tasks);
    assert_eq!(all.len(), 4);
    assert_eq!(all[1].total_plan, 500);
    assert!(all[3].is_completed);
    match calc_goal_progress(&goals, &tasks, "zz").unwrap_err() {
        AppError::NotFound(m) => assert_eq!(m, "目标 zz 不存在"),
        e => panic!("unexpected {:?}", e),
    }
}

#[test]
fn goal_completed_needs_every_child_completed() {
    let goals = tree();
    let mut tasks = vec![
        task("t1", "r", 100, 100, "done"),
        task("t2", "a", 200, 200, "done"),
        task("t3", "b", 300, 0, "skipped"),
        task("t4", "b", 300, 300, "done"),
    ];
    assert!(check_goal_completed(&goals, &tasks, "r"));
    tasks[3].status = "partial".to_string();
    assert!(!check_goal_completed(&goals, &tasks, "r"));
    assert!(check_goal_completed(&goals, &tasks, "a") == false);
    // A goal with neither tasks nor sub-goals is not completed.
    assert!(!check_goal_completed(&goals, &tasks, "s"));
}

#[test]
fn goal_tree_nests_sub_goals_and_tasks() {
    let goals = tree();
    let tasks = vec![task("t1", "r", 100, 0, "pending"), task("t2", "b", 200, 200, "done")];
    let roots = list_goal_tree(&goals, &tasks);
    assert_eq!(roots.len(), 2);
    assert_eq!(roots[0].goal.id, "r");
    assert_eq!(roots[0].tasks.len(), 1);
    assert_eq!(roots[0].total_plan, 300);
    assert_eq!(roots[0].sub_goals.len(), 1);
    assert_eq!(roots[0].sub_goals[0].goal.id, "a");
    assert_eq!(roots[0].sub_goals[0].sub_goals[0].goal.id, "b");
    assert!(roots[0].sub_goals[0].sub_goals[0].is_completed);
    assert_eq!(roots[1].goal.id, "s");
}

#[test]
fn ancestors_progress_walks_up_to_the_top() {
    let goals = tree();
    let tasks = vec![task("t1", "r", 100, 50, "partial"), task("t3", "b", 300, 300, "done")];
    let chain = calc_goal_ancestors_progress(&goals, &tasks, "b").unwrap();
    let ids: Vec<&str> = chain.iter().map(|p| p.id.as_str()).collect();
    assert_eq!(ids, vec!["b", "a", "r"]);
    assert_eq!(chain[0].total_plan, 300);
    assert!(chain[0].is_completed);
    assert_eq!(chain[2].total_plan, 400);
    assert_eq!(chain[2].total_actual, 350);
    let top = calc_goal_ancestors_progress(&goals, &tasks, "s").unwrap();
    assert_eq!(top.len(), 1);
    match calc_goal_ancestors_progress(&goals, &tasks, "zz").unwrap_err() {
        AppError::NotFound(m) => assert_eq!(m, "目标 zz 不存在"),
        e => panic!("unexpected {:?}", e),
    }
}

#[test]
fn moving_a_goal_keeps_every_path_consistent() {
    // r ─ a ─ b ; s   →   a (with b) moves under s
    let input = MoveGoalInput { goal_id: "a".to_string(), new_parent_id: Some("s".to_string()), before_goal_id: None };
    let out = move_goal(&tree(), &input).unwrap();
    for g in &out {
        let expected = match &g.parent_id {
            Some(p) => format!("{}/{}", find(&out, p).path, g.id),
            None => format!("/{}", g.id),
        };
        assert_eq!(g.path, expected);
    }
    assert_eq!(find(&out, "b").path, "/s/a/b");
    // and back to the top level
    let up = MoveGoalInput { goal_id: "a".to_string(), new_parent_id: None, before_goal_id: None };
    let top = move_goal(&out, &up).unwrap();
    assert_eq!(find(&top, "a").path, "/a");
    assert_eq!(find(&top, "b").path, "/a/b");
}

#[test]
fn progress_completion_flag_matches_the_completion_check() {
    let goals = tree();
    let tasks = vec![
        task("t1", "r", 100, 100, "done"),
        task("t2", "a", 200, 200, "done"),
        task("t3", "b", 300, 0, "partial"),
        task("t5", "s", 100, 100, "done"),
    ];
    let all = calc_all_goals_progress(&goals, &tasks);
    for (g, p) in goals.iter().zip(all.iter()) {
        assert_eq!(p.is_completed, check_goal_completed(&goals, &tasks, &g.id));
    }
    assert!(!all[0].is_completed);
    assert!(all[3].is_completed);
}
