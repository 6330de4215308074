use chrono::{Datelike, NaiveDate};
use selfpilot::dependency::{detect_cycle, topo_sort_by_dependency, DepList};
use selfpilot::encourage::pick_by_weight;
use selfpilot::error::AppError;
use selfpilot::models::{Goal, SetTaskDependencyInput, Task, TaskDependency};
use selfpilot::replan::build_replan_preview;
use selfpilot::split::{ensure_not_split, split_by_daily_capacity, split_by_date_range, split_goal_into_tasks};
use selfpilot::tasks::{delete_tasks_batch, set_task_dependency};

fn day(y: i32, m: u32, d: u32) -> i32 {
    NaiveDate::from_ymd_opt(y, m, d).unwrap().num_days_from_ce()
}

fn goal(total: i64, deadline: Option<&str>) -> Goal {
    Goal {
        id: "g".to_string(),
        name: "目标".to_string(),
        parent_id: None,
        path: "/g".to_string(),
        deadline: deadline.map(|s| s.to_string()),
        total_qty: total,
        unit: "页".to_string(),
        sort_order: 0,
        created_at: "2026-06-24T00:00:00".to_string(),
        daily_capacity: None,
    }
}

fn task(id: &str, plan_date: &str, plan: i64, manual: bool) -> Task {
    Task {
        id: id.to_string(),
        goal_id: "g".to_string(),
        stage_id: None,
        parent_id: None,
        path: format!("/g/{}", id),
        name: id.to_string(),
        plan_date: Some(plan_date.to_string()),
        overdue_date: None,
        plan_qty: plan,
        actual_qty: 0,
        unit: "页".to_string(),
        status: "pending".to_string(),
        is_manual: if manual { 1 } else { 0 },
        source: "auto".to_string(),
        sort_order: 0,
        created_at: "2026-06-24T00:00:00".to_string(),
        estimated_hours: None,
    }
}

#[test]
fn replan_spreads_the_rest_over_automatic_tasks() {
    let g = goal(1000, Some("2026-06-30"));
    let unfinished = vec![
        task("a", "2026-06-27", 100, false),
        task("m", "2026-06-26", 400, true),
        task("b", "2026-06-25", 100, false),
        task("c", "2026-06-28", 100, false),
    ];
    // b depends on a: a is re-planned before b.
    let deps = vec![DepList { task_id: "b".to_string(), depends_on: vec!["a".to_string()] }];
    let p = build_replan_preview(&g, &unfinished, day(2026, 6, 24), &deps).unwrap();
    assert_eq!(p.remaining_days, 6);
    assert_eq!(p.remaining_qty, 600);
    assert_eq!(p.daily_base, 200);
    assert_eq!(p.remainder, 0);
    let dates: Vec<&str> = p.items.iter().map(|i| i.plan_date.as_str()).collect();
    assert_eq!(dates, vec!["2026-06-25", "2026-06-26", "2026-06-27", "2026-06-28"]);
    let m = p.items.iter().find(|i| i.task_id == "m").unwrap();
    assert!(m.retained);
    assert_eq!(m.new_plan_qty, 400);
    let spread: i64 = p.items.iter().filter(|i| !i.retained).map(|i| i.new_plan_qty).sum();
    assert_eq!(spread, 600);
}

#[test]
fn replan_gives_extra_units_in_dependency_order() {
    let g = goal(700, Some("2026-06-30"));
    let unfinished = vec![task("a", "2026-06-27", 100, false), task("b", "2026-06-25", 100, false)];
    let deps = vec![DepList { task_id: "a".to_string(), depends_on: vec!["b".to_string()] }];
    let p = build_replan_preview(&g, &unfinished, day(2026, 6, 24), &deps).unwrap();
    assert_eq!(p.daily_base, 300);
    assert_eq!(p.remainder, 1);
    let b = p.items.iter().find(|i| i.task_id == "b").unwrap();
    let a = p.items.iter().find(|i| i.task_id == "a").unwrap();
    assert_eq!(b.new_plan_qty, 400);
    assert_eq!(a.new_plan_qty, 300);
    assert_eq!(a.old_plan_qty, 100);
}

#[test]
fn replan_refusals() {
    let unfinished = vec![task("a", "2026-06-27", 100, false)];
    let deps: Vec<DepList> = Vec::new();
    let today = day(2026, 6, 24);
    match build_replan_preview(&goal(100, None), &unfinished, today, &deps).unwrap_err() {
        AppError::Param(m) => assert_eq!(m, "目标未设置截止日期，无法重新规划"),
        e => panic!("unexpected {:?}", e),
    }
    assert!(matches!(
        build_replan_preview(&goal(100, Some("junk")), &unfinished, today, &deps).unwrap_err(),
        AppError::Param(_)
    ));
    match build_replan_preview(&goal(100, Some("2026-06-24")), &unfinished, today, &deps).unwrap_err() {
        AppError::Business(m) => assert_eq!(m, "截止日期剩余天数不足（0天），至少需要留出1天"),
        e => panic!("unexpected {:?}", e),
    }
    let kept_too_much = vec![task("m", "2026-06-27", 500, true)];
    match build_replan_preview(&goal(100, Some("2026-06-30")), &kept_too_much, today, &deps).unwrap_err() {
        AppError::Business(m) => {
            assert_eq!(m, "剩余待分配总量为负(-4)，可能已完成量超过目标总量，无法重新规划")
        }
        e => panic!("unexpected {:?}", e),
    }
}

#[test]
fn even_split_adds_up_to_the_total() {
    let g = goal(1000, Some("2026-06-27"));
    let tasks = split_goal_into_tasks(&g, day(2026, 6, 24)).unwrap();
    let sum: i64 = tasks.iter().map(|t| t.plan_qty).sum();
    assert_eq!(sum, 1000);
    let max = tasks.iter().map(|t| t.plan_qty).max().unwrap();
    let min = tasks.iter().map(|t| t.plan_qty).min().unwrap();
    assert!(max - min <= 100);
    // fewer units than days: days without a unit get no task
    let small = goal(200, Some("2026-06-29"));
    let tasks = split_goal_into_tasks(&small, day(2026, 6, 24)).unwrap();
    assert_eq!(tasks.len(), 2);
    assert_eq!(tasks.iter().map(|t| t.plan_qty).sum::<i64>(), 200);
}

#[test]
fn capacity_split_adds_up_to_the_total() {
    let mut g = goal(1050, Some("2026-07-30"));
    g.daily_capacity = Some(300);
    let tasks = split_by_daily_capacity(&g, day(2026, 6, 24)).unwrap();
    assert_eq!(tasks.len(), 4);
    assert_eq!(tasks.iter().map(|t| t.plan_qty).sum::<i64>(), 1050);
    assert_eq!(tasks[3].plan_qty, 150);
    let ranged = split_by_date_range(&g, day(2026, 6, 25), day(2026, 6, 30), Some(300), day(2026, 6, 24)).unwrap();
    assert_eq!(ranged.iter().map(|t| t.plan_qty).sum::<i64>(), 1050);
}

fn dep(task_id: &str, on: &str) -> TaskDependency {
    TaskDependency {
        id: format!("{}>{}", task_id, on),
        task_id: task_id.to_string(),
        depends_on_id: on.to_string(),
        created_at: "2026-06-24T00:00:00".to_string(),
    }
}

#[test]
fn accepted_dependencies_never_close_a_cycle() {
    let tasks = vec![
        task("a", "2026-06-25", 100, false),
        task("b", "2026-06-25", 100, false),
        task("c", "2026-06-25", 100, false),
    ];
    let mut deps: Vec<TaskDependency> = Vec::new();
    let requests = [("b", "a"), ("c", "b"), ("a", "c"), ("c", "a")];
    for (t, on) in requests {
        let input = SetTaskDependencyInput { task_id: t.to_string(), depends_on_id: on.to_string() };
        if let Ok(d) = set_task_dependency(&tasks, &deps, &input) {
            deps.push(d);
        }
    }
    assert_eq!(deps.len(), 3);
    // no accepted record is part of a cycle
    for d in &deps {
        assert!(!detect_cycle(&deps, &d.task_id, &d.depends_on_id));
    }
    let lists = vec![
        DepList { task_id: "b".to_string(), depends_on: vec!["a".to_string()] },
        DepList { task_id: "c".to_string(), depends_on: vec!["b".to_string(), "a".to_string()] },
    ];
    let sorted = topo_sort_by_dependency(&tasks, &lists);
    let ids: Vec<&str> = sorted.iter().map(|t| t.id.as_str()).collect();
    assert_eq!(ids, vec!["a", "b", "c"]);
}

#[test]
fn every_candidate_with_weight_can_be_drawn() {
    let w = vec![1u64, 120, 5, 12];
    let mut roll: u128 = 0;
    for i in 0..w.len() {
        assert_eq!(pick_by_weight(&w, roll), i);
        roll += w[i] as u128;
    }
}

#[test]
fn batch_deletion_never_exceeds_the_ids_given() {
    let tasks = vec![task("a", "2026-06-25", 100, false), task("b", "2026-06-25", 100, false)];
    let ids = vec!["a".to_string(), "a".to_string(), "b".to_string()];
    let r = delete_tasks_batch(&tasks, &ids);
    assert!(r.deleted_count <= ids.len() as i64);
    assert_eq!(r.deleted_count, 2);
}

#[test]
fn a_split_goal_is_not_split_again() {
    assert!(ensure_not_split(0).is_ok());
    match ensure_not_split(3).unwrap_err() {
        AppError::Business(m) => assert_eq!(m, "该目标已有自动拆解任务，请先删除旧任务再重新拆解"),
        e => panic!("unexpected {:?}", e),
    }
}

#[test]
fn moving_a_goal_keeps_the_tree_free_of_cycles() {
    let mk = |id: &str, parent: Option<&str>| Goal {
        id: id.to_string(),
        name: id.to_string(),
        parent_id: parent.map(|p| p.to_string()),
        path: String::new(),
        deadline: None,
        total_qty: 0,
        unit: String::new(),
        sort_order: 0,
        created_at: String::new(),
        daily_capacity: None,
    };
    let goals = vec![mk("r", None), mk("a", Some("r")), mk("b", Some("a")), mk("s", None)];
    let ok = selfpilot::goals::move_goal(
        &goals,
        &selfpilot::models::MoveGoalInput { goal_id: "a".to_string(), new_parent_id: Some("s".to_string()), before_goal_id: None },
    )
    .unwrap();
    // walking up from every goal ends within the number of goals
    for start in 0..ok.len() {
        let mut cur = Some(start);
        let mut steps = 0;
        while let Some(i) = cur {
            cur = ok[i].parent_id.as_ref().and_then(|p| ok.iter().position(|g| &g.id == p));
            steps += 1;
            assert!(steps <= ok.len());
        }
    }
    assert!(selfpilot::goals::move_goal(
        &goals,
        &selfpilot::models::MoveGoalInput { goal_id: "r".to_string(), new_parent_id: Some("b".to_string()), before_goal_id: None },
    )
    .is_err());
}

#[test]
fn pick_by_weight_takes_any_weights() {
    let w = vec![u64::MAX, u64::MAX, 5];
    assert_eq!(pick_by_weight(&w, 0), 0);
    assert_eq!(pick_by_weight(&w, u64::MAX as u128 - 1), 0);
    assert_eq!(pick_by_weight(&w, u64::MAX as u128), 1);
    assert_eq!(pick_by_weight(&w, 2 * (u64::MAX as u128)), 2);
    assert_eq!(pick_by_weight(&w, 2 * (u64::MAX as u128) + 4), 2);
}
