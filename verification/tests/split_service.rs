use chrono::{Datelike, NaiveDate};
use selfpilot::error::AppError;
use selfpilot::models::{Goal, RepeatSplitInput, SmartSplitInput};
use selfpilot::split::{smart_split, split_by_daily_capacity, split_by_date_range, split_goal_into_tasks, split_repeat_tasks};

/// Day number of a calendar date, as the library counts days.
fn day(y: i32, m: u32, d: u32) -> i32 {
    NaiveDate::from_ymd_opt(y, m, d).unwrap().num_days_from_ce()
}

/// Amounts are kept in hundredths.
fn qty(units: i64) -> i64 {
    units * 100
}

fn make_goal(id: &str, name: &str, deadline: &str, total_qty: i64, unit: &str) -> Goal {
    Goal {
        id: id.to_string(),
        name: name.to_string(),
        parent_id: None,
        path: format!("/{}", id),
        deadline: Some(deadline.to_string()),
        total_qty,
        unit: unit.to_string(),
        sort_order: 0,
        created_at: "2026-06-24T00:00:00".to_string(),
        daily_capacity: None,
    }
}

#[test]
fn test_split_even() {
    let goal = make_goal("g1", "背单词", "2026-06-29", qty(10), "个");
    let today = day(2026, 6, 24);
    let tasks = split_goal_into_tasks(&goal, today).unwrap();
    assert_eq!(tasks.len(), 5);
    for t in &tasks {
        assert_eq!(t.plan_qty, qty(2));
    }
    assert_eq!(tasks[0].plan_date, Some("2026-06-25".to_string()));
    assert_eq!(tasks[4].plan_date, Some("2026-06-29".to_string()));
}

#[test]
fn test_split_with_remainder() {
    let goal = make_goal("g2", "看书", "2026-06-27", qty(10), "页");
    let today = day(2026, 6, 24);
    let tasks = split_goal_into_tasks(&goal, today).unwrap();
    assert_eq!(tasks.len(), 3);
    assert_eq!(tasks[0].plan_qty, qty(4));
    assert_eq!(tasks[1].plan_qty, qty(3));
    assert_eq!(tasks[2].plan_qty, qty(3));
}

#[test]
fn test_split_zero_days() {
    let goal = make_goal("g3", "过期", "2026-06-24", qty(10), "个");
    let today = day(2026, 6, 24);
    let result = split_goal_into_tasks(&goal, today);
    assert!(result.is_err());
}

#[test]
fn test_split_by_daily_capacity_acceptance() {
    let mut goal = make_goal("g4", "学Vue", "2026-07-15", qty(40), "小时");
    goal.daily_capacity = Some(qty(2));
    let today = day(2026, 6, 24);

    let tasks = split_by_daily_capacity(&goal, today).unwrap();
    assert_eq!(tasks.len(), 20, "应生成 20 个任务");
    for (i, t) in tasks.iter().enumerate() {
        if i < 19 {
            assert_eq!(t.plan_qty, qty(2), "前 19 个任务 plan_qty 应为 2");
        } else {
            assert_eq!(t.plan_qty, qty(2), "最后一个任务 plan_qty 也应为 2（40/2 整除）");
        }
        assert_eq!(t.estimated_hours, Some(qty(2)), "每个任务 estimated_hours 应为 2");
    }
    assert_eq!(tasks[0].plan_date, Some("2026-06-25".to_string()));
    assert_eq!(tasks[19].plan_date, Some("2026-07-14".to_string()));
}

#[test]
fn test_split_by_daily_capacity_with_remainder() {
    let mut goal = make_goal("g5", "读书", "2026-07-10", qty(10), "页");
    goal.daily_capacity = Some(qty(3));
    let today = day(2026, 6, 24);

    let tasks = split_by_daily_capacity(&goal, today).unwrap();
    assert_eq!(tasks.len(), 4);
    assert_eq!(tasks[0].plan_qty, qty(3));
    assert_eq!(tasks[1].plan_qty, qty(3));
    assert_eq!(tasks[2].plan_qty, qty(3));
    assert_eq!(tasks[3].plan_qty, qty(1), "最后一个任务应为余数 1");
    assert_eq!(tasks[3].estimated_hours, Some(qty(3)));
}

#[test]
fn test_split_by_daily_capacity_no_capacity() {
    let goal = make_goal("g6", "无容量", "2026-07-10", qty(10), "页");
    let today = day(2026, 6, 24);
    let result = split_by_daily_capacity(&goal, today);
    assert!(result.is_err(), "未设置 daily_capacity 应报错");
}

#[test]
fn test_split_by_daily_capacity_insufficient_days() {
    let mut goal = make_goal("g7", "不够天", "2026-06-29", qty(40), "小时");
    goal.daily_capacity = Some(qty(2));
    let today = day(2026, 6, 24);
    let result = split_by_daily_capacity(&goal, today);
    assert!(result.is_err(), "剩余天数不足应报错");
}

#[test]
fn test_split_by_date_range_with_per_day_qty() {
    let goal = make_goal("g8", "读书", "2026-07-31", qty(20), "页");
    let start = day(2026, 6, 25);
    let end = day(2026, 7, 4);
    let today = day(2026, 6, 24);

    let tasks = split_by_date_range(&goal, start, end, Some(qty(2)), today).unwrap();
    assert_eq!(tasks.len(), 10);
    for t in &tasks {
        assert_eq!(t.plan_qty, qty(2));
        assert_eq!(t.estimated_hours, Some(qty(2)));
    }
    assert_eq!(tasks[0].plan_date, Some("2026-06-25".to_string()));
    assert_eq!(tasks[9].plan_date, Some("2026-07-04".to_string()));
}

#[test]
fn test_split_by_date_range_even_split() {
    let goal = make_goal("g9", "背词", "2026-07-31", qty(10), "词");
    let start = day(2026, 6, 25);
    let end = day(2026, 6, 29);
    let today = day(2026, 6, 24);

    let tasks = split_by_date_range(&goal, start, end, None, today).unwrap();
    assert_eq!(tasks.len(), 5);
    for t in &tasks {
        assert_eq!(t.plan_qty, qty(2));
    }
}

#[test]
fn test_split_by_date_range_with_remainder() {
    let goal = make_goal("g10", "练习", "2026-07-31", qty(12), "道");
    let start = day(2026, 6, 25);
    let end = day(2026, 6, 29);
    let today = day(2026, 6, 24);

    let tasks = split_by_date_range(&goal, start, end, None, today).unwrap();
    assert_eq!(tasks.len(), 5);
    assert_eq!(tasks[0].plan_qty, qty(3));
    assert_eq!(tasks[1].plan_qty, qty(3));
    assert_eq!(tasks[2].plan_qty, qty(2));
    assert_eq!(tasks[3].plan_qty, qty(2));
    assert_eq!(tasks[4].plan_qty, qty(2));
}

#[test]
fn test_split_by_date_range_per_day_exceeds_span() {
    let goal = make_goal("g11", "超范围", "2026-07-31", qty(20), "页");
    let start = day(2026, 6, 25);
    let end = day(2026, 6, 27);
    let today = day(2026, 6, 24);
    let result = split_by_date_range(&goal, start, end, Some(qty(2)), today);
    assert!(result.is_err(), "任务数超出日期范围应报错");
}

#[test]
fn test_split_by_date_range_end_before_start() {
    let goal = make_goal("g12", "倒序", "2026-07-31", qty(10), "页");
    let start = day(2026, 6, 29);
    let end = day(2026, 6, 25);
    let today = day(2026, 6, 24);
    let result = split_by_date_range(&goal, start, end, None, today);
    assert!(result.is_err(), "结束日期早于起始日期应报错");
}

fn strategy_input(goal_id: &str, strategy: &str) -> SmartSplitInput {
    SmartSplitInput {
        goal_id: goal_id.to_string(),
        strategy: strategy.to_string(),
        total_qty: None,
        deadline: None,
        daily_capacity: None,
        start_date: None,
        end_date: None,
        per_day_qty: None,
    }
}

#[test]
fn test_smart_split_by_deadline() {
    let goal = make_goal("g13", "均分", "2026-06-29", qty(10), "个");
    let today = day(2026, 6, 24);
    let input = strategy_input("g13", "by_deadline");
    let tasks = smart_split(&input, &goal, today).unwrap();
    assert_eq!(tasks.len(), 5);
    assert_eq!(tasks[0].plan_qty, qty(2));
}

#[test]
fn test_smart_split_by_capacity_with_override() {
    let goal = make_goal("g14", "预算", "2026-07-15", qty(40), "小时");
    let today = day(2026, 6, 24);
    let mut input = strategy_input("g14", "by_capacity");
    input.daily_capacity = Some(qty(2));
    let tasks = smart_split(&input, &goal, today).unwrap();
    assert_eq!(tasks.len(), 20);
    assert_eq!(tasks[0].plan_qty, qty(2));
    assert_eq!(tasks[0].estimated_hours, Some(qty(2)));
}

#[test]
fn test_smart_split_by_date_range() {
    let goal = make_goal("g15", "范围", "2026-07-31", qty(20), "页");
    let today = day(2026, 6, 24);
    let mut input = strategy_input("g15", "by_date_range");
    input.start_date = Some("2026-06-25".to_string());
    input.end_date = Some("2026-07-04".to_string());
    input.per_day_qty = Some(qty(2));
    let tasks = smart_split(&input, &goal, today).unwrap();
    assert_eq!(tasks.len(), 10);
    assert_eq!(tasks[0].plan_date, Some("2026-06-25".to_string()));
    assert_eq!(tasks[9].plan_date, Some("2026-07-04".to_string()));
}

#[test]
fn test_smart_split_unknown_strategy() {
    let goal = make_goal("g16", "未知", "2026-07-31", qty(10), "个");
    let today = day(2026, 6, 24);
    let input = strategy_input("g16", "unknown");
    let result = smart_split(&input, &goal, today);
    assert!(result.is_err(), "未知策略应报错");
}

fn repeat_input(end: Option<&str>, frequency: Option<&str>, weekdays: Option<Vec<u8>>, month_days: Option<Vec<u8>>) -> RepeatSplitInput {
    RepeatSplitInput {
        goal_id: "g".to_string(),
        name: "跑步".to_string(),
        start_date: "2026-06-01".to_string(),
        end_date: end.map(|s| s.to_string()),
        plan_qty: Some(qty(3)),
        unit: Some("公里".to_string()),
        frequency: frequency.map(|s| s.to_string()),
        weekdays,
        month_days,
    }
}

fn dates(tasks: &[selfpilot::models::Task]) -> Vec<String> {
    tasks.iter().map(|t| t.plan_date.clone().unwrap()).collect()
}

#[test]
fn repeat_split_single_and_daily() {
    let goal = make_goal("g", "运动", "2026-12-31", qty(100), "公里");
    let single = split_repeat_tasks(&goal, &repeat_input(None, None, None, None), day(2026, 5, 1)).unwrap();
    assert_eq!(single.len(), 1);
    assert_eq!(single[0].name, "跑步");
    assert_eq!(single[0].plan_qty, qty(3));
    assert_eq!(single[0].unit, "公里");
    let daily = split_repeat_tasks(&goal, &repeat_input(Some("2026-06-03"), None, None, None), day(2026, 5, 1)).unwrap();
    assert_eq!(dates(&daily), vec!["2026-06-01", "2026-06-02", "2026-06-03"]);
    assert_eq!(daily[2].name, "跑步 - 第3次");
}

#[test]
fn repeat_split_weekly_picks_weekdays() {
    let goal = make_goal("g", "运动", "2026-12-31", qty(100), "公里");
    // Monday (1) and Wednesday (3), numbered from Sunday; the frequency is read in any case
    let input = repeat_input(Some("2026-06-14"), Some("Weekly"), Some(vec![1, 3]), None);
    let tasks = split_repeat_tasks(&goal, &input, day(2026, 5, 1)).unwrap();
    assert_eq!(dates(&tasks), vec!["2026-06-01", "2026-06-03", "2026-06-08", "2026-06-10"]);
    let missing = repeat_input(Some("2026-06-14"), Some("weekly"), Some(vec![]), None);
    match split_repeat_tasks(&goal, &missing, day(2026, 5, 1)).unwrap_err() {
        AppError::Param(m) => assert_eq!(m, "weekly 频率必须指定至少一个周几"),
        e => panic!("unexpected {:?}", e),
    }
}

#[test]
fn repeat_split_monthly_picks_days_of_month() {
    let goal = make_goal("g", "运动", "2026-12-31", qty(100), "公里");
    let input = repeat_input(Some("2026-07-20"), Some("monthly"), None, Some(vec![1, 15]));
    let tasks = split_repeat_tasks(&goal, &input, day(2026, 5, 1)).unwrap();
    assert_eq!(dates(&tasks), vec!["2026-06-01", "2026-06-15", "2026-07-01", "2026-07-15"]);
    let missing = repeat_input(Some("2026-07-20"), Some("monthly"), None, None);
    assert!(matches!(split_repeat_tasks(&goal, &missing, day(2026, 5, 1)).unwrap_err(), AppError::Param(_)));
}

#[test]
fn repeat_split_refusals() {
    let goal = make_goal("g", "运动", "2026-12-31", qty(100), "公里");
    let mut blank = repeat_input(None, None, None, None);
    blank.name = "  ".to_string();
    assert!(matches!(split_repeat_tasks(&goal, &blank, 0).unwrap_err(), AppError::Param(m) if m == "任务名称不能为空"));
    let backwards = repeat_input(Some("2026-05-01"), None, None, None);
    assert!(matches!(split_repeat_tasks(&goal, &backwards, 0).unwrap_err(), AppError::Param(m) if m == "结束日期不能早于起始日期"));
    let mut bad_start = repeat_input(None, None, None, None);
    bad_start.start_date = "2026/06/01".to_string();
    assert!(matches!(split_repeat_tasks(&goal, &bad_start, 0).unwrap_err(), AppError::Param(m) if m.starts_with("起始日期格式错误: ")));
}

#[test]
fn split_refusals_name_their_cause() {
    let mut goal = make_goal("g", "目标", "2026-06-30", qty(10), "个");
    goal.deadline = None;
    assert!(matches!(split_goal_into_tasks(&goal, day(2026, 6, 24)).unwrap_err(), AppError::Param(_)));
    let zero = make_goal("g", "目标", "2026-06-30", 0, "个");
    match split_goal_into_tasks(&zero, day(2026, 6, 24)).unwrap_err() {
        AppError::Business(m) => assert_eq!(m, "目标总量必须大于0才能自动拆解"),
        e => panic!("unexpected {:?}", e),
    }
    let late = make_goal("g", "目标", "2026-06-20", qty(10), "个");
    match split_goal_into_tasks(&late, day(2026, 6, 24)).unwrap_err() {
        AppError::Business(m) => assert_eq!(m, "截止日期剩余天数不足（-4天），至少需要留出1天"),
        e => panic!("unexpected {:?}", e),
    }
    let mut short = make_goal("g", "目标", "2026-06-29", qty(40), "小时");
    short.daily_capacity = Some(qty(2));
    match split_by_daily_capacity(&short, day(2026, 6, 24)).unwrap_err() {
        AppError::Business(m) => assert_eq!(m, "按每日2小时拆解需要20天，但截止日期前仅剩5天，请调整每日可用时长或截止日期"),
        e => panic!("unexpected {:?}", e),
    }
    let tasks = split_goal_into_tasks(&make_goal("g", "背单词", "2026-06-26", qty(4), "个"), day(2026, 6, 24)).unwrap();
    assert_eq!(tasks[0].name, "背单词 - 第1天");
    assert_eq!(tasks[0].sort_order, 0);
    assert_eq!(tasks[1].sort_order, 1);
    assert_eq!(tasks[0].source, "auto");
    assert_eq!(tasks[0].path, format!("/g/{}", tasks[0].id));
}
