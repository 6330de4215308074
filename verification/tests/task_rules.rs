use selfpilot::error::AppError;
use selfpilot::models::{
    CompleteTaskInput, CreateTaskInput, Goal, MoveTaskInput, SetTaskDependencyInput, Task, TaskDependency, TodayTask,
    UpdateTaskInput,
};
use selfpilot::tasks::{
    backfill_task, complete_task, create_task, delete_task, delete_tasks_batch, is_overdue, move_task, overdue_fix,
    set_task_dependency, skip_task, update_task, update_task_plan_qty, validate_dependency_chain,
};

fn task(id: &str, goal_id: &str, sort_order: i64, plan_qty: i64) -> Task {
    Task {
        id: id.to_string(),
        goal_id: goal_id.to_string(),
        stage_id: None,
        parent_id: None,
        path: format!("/{}/{}", goal_id, id),
        name: format!("任务{}", id),
        plan_date: Some("2026-06-25".to_string()),
        overdue_date: None,
        plan_qty,
        actual_qty: 0,
        unit: "页".to_string(),
        status: "pending".to_string(),
        is_manual: 0,
        source: "auto".to_string(),
        sort_order,
        created_at: "2026-06-24T00:00:00".to_string(),
        estimated_hours: None,
    }
}

fn goal(id: &str, path: &str) -> Goal {
    Goal {
        id: id.to_string(),
        name: id.to_string(),
        parent_id: None,
        path: path.to_string(),
        deadline: None,
        total_qty: 1000,
        unit: "页".to_string(),
        sort_order: 0,
        created_at: "2026-06-24T00:00:00".to_string(),
        daily_capacity: None,
    }
}

fn complete(id: &str, actual: i64) -> CompleteTaskInput {
    CompleteTaskInput { task_id: id.to_string(), actual_qty: actual }
}

fn is_param(e: &AppError) -> bool {
    matches!(e, AppError::Param(_))
}

fn is_business(e: &AppError) -> bool {
    matches!(e, AppError::Business(_))
}

fn is_not_found(e: &AppError) -> bool {
    matches!(e, AppError::NotFound(_))
}

#[test]
fn complete_task_sets_status_by_amount() {
    let t = Some(task("t1", "g1", 0, 500));
    let done = complete_task(&t, &complete("t1", 500), false).unwrap();
    assert_eq!(done.status, "done");
    assert_eq!(done.actual_qty, 500);
    let partial = complete_task(&t, &complete("t1", 200), false).unwrap();
    assert_eq!(partial.status, "partial");
    let pending = complete_task(&t, &complete("t1", 0), false).unwrap();
    assert_eq!(pending.status, "pending");
    assert_eq!(pending.plan_qty, 500);
    assert_eq!(pending.name, "任务t1");
}

#[test]
fn complete_task_refusals() {
    let t = Some(task("t1", "g1", 0, 500));
    assert!(is_param(&complete_task(&t, &complete("t1", -1), false).unwrap_err()));
    assert!(is_not_found(&complete_task(&None, &complete("t1", 1), false).unwrap_err()));
    let mut d = task("t1", "g1", 0, 500);
    d.status = "done".to_string();
    assert!(is_business(&complete_task(&Some(d), &complete("t1", 1), false).unwrap_err()));
    assert!(is_business(&complete_task(&t, &complete("t1", 1), true).unwrap_err()));
    assert!(is_business(&complete_task(&t, &complete("t1", 501), false).unwrap_err()));
}

#[test]
fn backfill_task_may_exceed_plan() {
    let mut t = task("t1", "g1", 0, 500);
    t.status = "skipped".to_string();
    let r = backfill_task(&Some(t), &complete("t1", 700), false).unwrap();
    assert_eq!(r.status, "done");
    assert_eq!(r.actual_qty, 700);
    let zero_plan = task("t2", "g1", 0, 0);
    let r = backfill_task(&Some(zero_plan), &complete("t2", 100), false).unwrap();
    assert_eq!(r.status, "partial");
}

#[test]
fn backfill_task_refusals() {
    let t = task("t1", "g1", 0, 500);
    assert!(is_param(&backfill_task(&Some(t.copy()), &complete("t1", -5), false).unwrap_err()));
    assert!(is_not_found(&backfill_task(&None, &complete("t1", 5), false).unwrap_err()));
    let mut d = task("t1", "g1", 0, 500);
    d.status = "done".to_string();
    d.actual_qty = 500;
    assert!(backfill_task(&Some(d.copy()), &complete("t1", 500), false).is_err());
    assert!(backfill_task(&Some(d), &complete("t1", 600), false).is_ok());
    assert!(is_business(&backfill_task(&Some(t), &complete("t1", 5), true).unwrap_err()));
}

#[test]
fn skip_task_marks_skipped() {
    let t = Some(task("t1", "g1", 0, 500));
    assert_eq!(skip_task(&t, "t1").unwrap().status, "skipped");
    assert!(is_not_found(&skip_task(&None, "t1").unwrap_err()));
}

#[test]
fn create_task_defaults() {
    let input = CreateTaskInput {
        goal_id: "g1".to_string(),
        stage_id: None,
        name: "读一章".to_string(),
        plan_date: Some("2026-06-30".to_string()),
        plan_qty: None,
        unit: None,
    };
    let t = create_task(&input);
    assert_eq!(t.goal_id, "g1");
    assert_eq!(t.status, "pending");
    assert_eq!(t.actual_qty, 0);
    assert_eq!(t.plan_qty, 100);
    assert_eq!(t.is_manual, 1);
    assert_eq!(t.plan_date, Some("2026-06-30".to_string()));
    assert_eq!(t.id.len(), 36);
}

#[test]
fn update_task_plan_qty_marks_manual() {
    let t = task("t1", "g1", 0, 500);
    let r = update_task_plan_qty(&t, 300).unwrap();
    assert_eq!(r.plan_qty, 300);
    assert_eq!(r.is_manual, 1);
    assert!(is_param(&update_task_plan_qty(&t, -1).unwrap_err()));
}

#[test]
fn update_task_changes_and_refusals() {
    let t = Some(task("t1", "g1", 0, 500));
    let input = UpdateTaskInput {
        task_id: "t1".to_string(),
        name: Some("新名字".to_string()),
        plan_date: None,
        plan_qty: Some(250),
    };
    let r = update_task(&t, &input).unwrap();
    assert_eq!(r.name, "新名字");
    assert_eq!(r.plan_qty, 250);
    assert_eq!(r.plan_date, Some("2026-06-25".to_string()));

    assert!(is_not_found(&update_task(&None, &input).unwrap_err()));
    let blank = UpdateTaskInput { task_id: "t1".to_string(), name: Some("   ".to_string()), plan_date: None, plan_qty: None };
    assert!(is_param(&update_task(&t, &blank).unwrap_err()));
    let negative = UpdateTaskInput { task_id: "t1".to_string(), name: None, plan_date: None, plan_qty: Some(-1) };
    assert!(is_param(&update_task(&t, &negative).unwrap_err()));
    let nothing = UpdateTaskInput { task_id: "t1".to_string(), name: None, plan_date: None, plan_qty: None };
    assert!(update_task(&t, &nothing).is_err());
}

#[test]
fn move_task_before_another() {
    let tasks = vec![task("a", "g1", 0, 100), task("b", "g1", 1, 100), task("c", "g2", 0, 100)];
    let goals = vec![goal("g1", "/g1"), goal("g2", "/g2")];
    let input = MoveTaskInput {
        task_id: "c".to_string(),
        goal_id: Some("g1".to_string()),
        stage_id: None,
        before_task_id: Some("b".to_string()),
    };
    let out = move_task(&tasks, &goals, &input).unwrap();
    assert_eq!(out.len(), 3);
    let c = out.iter().find(|t| t.id == "c").unwrap();
    assert_eq!(c.goal_id, "g1");
    assert_eq!(c.sort_order, 1);
    assert_eq!(c.path, "/g1/c");
    let b = out.iter().find(|t| t.id == "b").unwrap();
    assert_eq!(b.sort_order, 2);
    let a = out.iter().find(|t| t.id == "a").unwrap();
    assert_eq!(a.sort_order, 0);
}

#[test]
fn move_task_to_missing_goal_or_task() {
    let tasks = vec![task("a", "g1", 0, 100)];
    let goals = vec![goal("g1", "/g1")];
    let to_missing_goal = MoveTaskInput {
        task_id: "a".to_string(),
        goal_id: Some("zz".to_string()),
        stage_id: None,
        before_task_id: None,
    };
    assert!(is_not_found(&move_task(&tasks, &goals, &to_missing_goal).unwrap_err()));
    let missing_task = MoveTaskInput { task_id: "q".to_string(), goal_id: None, stage_id: None, before_task_id: None };
    assert!(is_not_found(&move_task(&tasks, &goals, &missing_task).unwrap_err()));
}

#[test]
fn delete_tasks_batch_counts_existing_only() {
    let tasks = vec![task("a", "g1", 0, 100), task("b", "g2", 0, 100), task("c", "g1", 1, 100)];
    let ids = vec!["a".to_string(), "c".to_string(), "zz".to_string()];
    let r = delete_tasks_batch(&tasks, &ids);
    assert_eq!(r.deleted_count, 2);
    assert_eq!(r.affected_goal_ids, vec!["g1".to_string()]);
    let none: Vec<String> = Vec::new();
    assert_eq!(delete_tasks_batch(&tasks, &none).deleted_count, 0);
}

#[test]
fn delete_task_reports_goal() {
    let r = delete_task(&Some(task("a", "g7", 0, 100)), "a").unwrap();
    assert_eq!(r.task_id, "a");
    assert_eq!(r.goal_id, "g7");
    assert!(is_not_found(&delete_task(&None, "a").unwrap_err()));
}

fn dep(task_id: &str, on: &str) -> TaskDependency {
    TaskDependency {
        id: format!("{}>{}", task_id, on),
        task_id: task_id.to_string(),
        depends_on_id: on.to_string(),
        created_at: "2026-06-24T00:00:00".to_string(),
    }
}

#[test]
fn set_task_dependency_rules() {
    let tasks = vec![task("a", "g1", 0, 100), task("b", "g1", 1, 100), task("c", "g1", 2, 100)];
    let deps = vec![dep("b", "a"), dep("c", "b")];
    let ok = set_task_dependency(
        &tasks,
        &deps,
        &SetTaskDependencyInput { task_id: "c".to_string(), depends_on_id: "a".to_string() },
    )
    .unwrap();
    assert_eq!(ok.task_id, "c");
    assert_eq!(ok.depends_on_id, "a");

    let own = SetTaskDependencyInput { task_id: "a".to_string(), depends_on_id: "a".to_string() };
    assert!(is_param(&set_task_dependency(&tasks, &deps, &own).unwrap_err()));
    let missing = SetTaskDependencyInput { task_id: "x".to_string(), depends_on_id: "a".to_string() };
    assert!(is_not_found(&set_task_dependency(&tasks, &deps, &missing).unwrap_err()));
    let missing_pre = SetTaskDependencyInput { task_id: "a".to_string(), depends_on_id: "x".to_string() };
    assert!(is_not_found(&set_task_dependency(&tasks, &deps, &missing_pre).unwrap_err()));
    let cycle = SetTaskDependencyInput { task_id: "a".to_string(), depends_on_id: "c".to_string() };
    assert!(is_business(&set_task_dependency(&tasks, &deps, &cycle).unwrap_err()));
}

#[test]
fn validate_dependency_chain_rejects_cycles() {
    let deps = vec![dep("b", "a")];
    assert!(validate_dependency_chain(&deps, "c", "b"));
    assert!(!validate_dependency_chain(&deps, "a", "b"));
}

#[test]
fn overdue_by_text_order() {
    assert!(is_overdue(&Some("2026-06-20".to_string()), "pending", "2026-06-24"));
    assert!(is_overdue(&Some("2026-06-20".to_string()), "partial", "2026-06-24"));
    assert!(!is_overdue(&Some("2026-06-20".to_string()), "done", "2026-06-24"));
    assert!(!is_overdue(&Some("2026-06-24".to_string()), "pending", "2026-06-24"));
    assert!(!is_overdue(&None, "pending", "2026-06-24"));
}

fn today_task(plan_date: Option<&str>, overdue: Option<&str>) -> TodayTask {
    TodayTask {
        id: "t".to_string(),
        goal_id: "g".to_string(),
        goal_name: "g".to_string(),
        stage_id: None,
        name: "t".to_string(),
        plan_date: plan_date.map(|s| s.to_string()),
        overdue_date: overdue.map(|s| s.to_string()),
        plan_qty: 100,
        actual_qty: 0,
        unit: "页".to_string(),
        status: "pending".to_string(),
        source: "auto".to_string(),
        is_blocked: false,
        blocked_by_names: None,
    }
}

#[test]
fn overdue_fix_records_planned_day_once() {
    assert_eq!(overdue_fix(&today_task(Some("2026-06-20"), None)), Some("2026-06-20".to_string()));
    assert_eq!(overdue_fix(&today_task(Some("2026-06-20"), Some("2026-06-19"))), Some("2026-06-20".to_string()));
    assert_eq!(overdue_fix(&today_task(Some("2026-06-20"), Some("2026-06-20"))), None);
    assert_eq!(overdue_fix(&today_task(None, None)), None);
}

#[test]
fn move_task_to_another_goal_goes_first() {
    let tasks = vec![task("a", "g1", 3, 100), task("b", "g1", 5, 100), task("c", "g2", 0, 100)];
    let goals = vec![goal("g1", "/g1"), goal("g2", "/g2")];
    let input = MoveTaskInput {
        task_id: "c".to_string(),
        goal_id: Some("g1".to_string()),
        stage_id: None,
        before_task_id: None,
    };
    let out = move_task(&tasks, &goals, &input).unwrap();
    let c = out.iter().find(|t| t.id == "c").unwrap();
    assert_eq!(c.goal_id, "g1");
    assert_eq!(c.parent_id.as_deref(), Some("g1"));
    assert_eq!(c.sort_order, 2);
    assert_eq!(out.iter().find(|t| t.id == "a").unwrap().sort_order, 3);
    assert_eq!(out.iter().find(|t| t.id == "b").unwrap().sort_order, 5);
}

#[test]
fn move_task_to_an_empty_goal_takes_position_zero() {
    let tasks = vec![task("a", "g1", 7, 100)];
    let goals = vec![goal("g1", "/g1"), goal("g2", "/g2")];
    let input = MoveTaskInput {
        task_id: "a".to_string(),
        goal_id: Some("g2".to_string()),
        stage_id: None,
        before_task_id: None,
    };
    let out = move_task(&tasks, &goals, &input).unwrap();
    assert_eq!(out[0].sort_order, 0);
    assert_eq!(out[0].path, "/g2/a");
}

#[test]
fn move_task_to_a_stage_keeps_its_position() {
    let tasks = vec![task("a", "g1", 4, 100), task("b", "g1", 9, 100)];
    let goals = vec![goal("g1", "/g1")];
    let input = MoveTaskInput {
        task_id: "a".to_string(),
        goal_id: None,
        stage_id: Some("s1".to_string()),
        before_task_id: None,
    };
    let out = move_task(&tasks, &goals, &input).unwrap();
    assert_eq!(out[0].sort_order, 4);
    assert_eq!(out[0].stage_id.as_deref(), Some("s1"));
    assert_eq!(out[0].path, "/g1/s1/a");
    assert_eq!(out[1].sort_order, 9);
}

#[test]
fn move_task_to_its_own_goal_without_position_is_refused() {
    let tasks = vec![task("a", "g1", 0, 100)];
    let goals = vec![goal("g1", "/g1")];
    let input = MoveTaskInput {
        task_id: "a".to_string(),
        goal_id: Some("g1".to_string()),
        stage_id: None,
        before_task_id: None,
    };
    assert!(is_param(&move_task(&tasks, &goals, &input).unwrap_err()));
}
