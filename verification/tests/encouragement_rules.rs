use chrono::{Datelike, NaiveDate};
use selfpilot::encourage::{
    add_encouragement, batch_delete_encouragements, batch_update_encouragement_level, candidate_weight,
    celebration_levels, check_longest_streak_milestone, delete_encouragement, encouragement_key, filter_combos,
    get_current_time_period, hide_preset_encouragement, lagging_goals, pick_by_weight, streak_break_check,
    streak_levels, time_period_of, update_encouragement, validate_level, weighted_random_pick, CandidateWithStats,
    candidate_weights, draw_step, pick_candidate, DrawStep,
};
use selfpilot::error::AppError;
use selfpilot::models::{CompletionPrediction, Encouragement, StreakInfo, UpdateEncouragementInput};
use selfpilot::progress::calc_all_goals_progress;

fn enc(id: &str, category: &str, level: &str) -> Encouragement {
    Encouragement {
        id: id.to_string(),
        text: format!("加油{}", id),
        category: category.to_string(),
        level: level.to_string(),
        created_at: "2026-06-24T00:00:00".to_string(),
        context_tags: None,
        hidden: None,
        sort_order: Some(1),
        style: "warm".to_string(),
    }
}

fn candidate(id: &str) -> CandidateWithStats {
    CandidateWithStats {
        id: id.to_string(),
        text: format!("文案{}", id),
        category: "custom".to_string(),
        level: "normal".to_string(),
        created_at: "2020-01-01T00:00:00".to_string(),
        context_tags: None,
        hidden: None,
        sort_order: None,
        style: "warm".to_string(),
        show_count: 5,
        is_favorite: 0,
    }
}

fn streak(current: i64, longest: i64, completed_today: bool) -> StreakInfo {
    StreakInfo { current_streak: current, longest_streak: longest, completed_today, milestone: "none".to_string() }
}

#[test]
fn validate_level_defaults_and_refuses() {
    assert_eq!(validate_level(&None).unwrap(), "normal");
    assert_eq!(validate_level(&Some("setback".to_string())).unwrap(), "setback");
    match validate_level(&Some("epic".to_string())).unwrap_err() {
        AppError::Param(m) => assert_eq!(m, "等级无效，应为 normal/advanced/highlight/celebration/setback"),
        e => panic!("unexpected {:?}", e),
    }
}

#[test]
fn time_periods_by_hour() {
    assert_eq!(time_period_of(5), "night");
    assert_eq!(time_period_of(6), "morning");
    assert_eq!(time_period_of(11), "morning");
    assert_eq!(time_period_of(12), "afternoon");
    assert_eq!(time_period_of(17), "afternoon");
    assert_eq!(time_period_of(18), "evening");
    assert_eq!(time_period_of(23), "evening");
    assert_eq!(time_period_of(0), "night");
    let now = get_current_time_period();
    assert!(["morning", "afternoon", "evening", "night"].contains(&now));
}

#[test]
fn levels_for_streaks() {
    assert_eq!(streak_levels(0), vec!["normal".to_string()]);
    assert_eq!(streak_levels(3), vec!["advanced".to_string(), "normal".to_string()]);
    assert_eq!(streak_levels(7), vec!["highlight".to_string(), "normal".to_string()]);
    assert_eq!(celebration_levels(), vec!["celebration", "highlight", "advanced", "normal"]);
}

#[test]
fn filter_combos_in_order() {
    let with_style = filter_combos(&Some("warm".to_string()), "morning");
    assert_eq!(
        with_style,
        vec![
            (Some("warm".to_string()), Some("morning".to_string())),
            (Some("warm".to_string()), None),
            (None, None)
        ]
    );
    let without = filter_combos(&None, "night");
    assert_eq!(without, vec![(None, Some("night".to_string())), (None, None)]);
}

#[test]
fn candidate_weights_in_tenths() {
    assert_eq!(candidate_weight(false, 5, 0, false), 10);
    assert_eq!(candidate_weight(true, 0, 1, false), 120);
    assert_eq!(candidate_weight(true, 0, 1, true), 12);
    assert_eq!(candidate_weight(false, 5, 0, true), 1);
    assert_eq!(candidate_weight(false, 2, 0, false), 20);
}

#[test]
fn pick_by_weight_follows_running_totals() {
    let w = vec![10u64, 1, 30];
    assert_eq!(pick_by_weight(&w, 0), 0);
    assert_eq!(pick_by_weight(&w, 9), 0);
    assert_eq!(pick_by_weight(&w, 10), 1);
    assert_eq!(pick_by_weight(&w, 11), 2);
    assert_eq!(pick_by_weight(&w, 40), 2);
}

#[test]
fn weighted_pick_draws_a_candidate() {
    let empty: Vec<CandidateWithStats> = Vec::new();
    match weighted_random_pick(&empty, &Vec::new()).unwrap_err() {
        AppError::Business(m) => assert_eq!(m, "候选鼓励语列表为空"),
        e => panic!("unexpected {:?}", e),
    }
    let cands = vec![candidate("a"), candidate("b")];
    for _ in 0..20 {
        let e = weighted_random_pick(&cands, &vec!["a".to_string()]).unwrap();
        assert!(e.id == "a" || e.id == "b");
        assert_eq!(e.text, format!("文案{}", e.id));
    }
}

#[test]
fn key_trims_and_lowers() {
    assert_eq!(encouragement_key("  Keep Going  "), "keep going");
}

#[test]
fn add_encouragement_rules() {
    let ok = add_encouragement(&"坚持就是胜利".to_string(), &None, false, Some(7)).unwrap();
    assert_eq!(ok.level, "normal");
    assert_eq!(ok.sort_order, 8);
    assert_eq!(ok.id.len(), 36);
    let first = add_encouragement(&"第一条".to_string(), &Some("advanced".to_string()), false, None).unwrap();
    assert_eq!(first.sort_order, 1);
    assert_eq!(first.level, "advanced");
    assert!(matches!(add_encouragement(&"   ".to_string(), &None, false, None).unwrap_err(), AppError::Param(_)));
    assert!(matches!(
        add_encouragement(&"好".to_string(), &Some("x".to_string()), false, None).unwrap_err(),
        AppError::Param(_)
    ));
    match add_encouragement(&"重复".to_string(), &None, true, None).unwrap_err() {
        AppError::Business(m) => assert_eq!(m, "该鼓励语已存在"),
        e => panic!("unexpected {:?}", e),
    }
}

#[test]
fn update_encouragement_rules() {
    let custom = Some(enc("c1", "custom", "normal"));
    let input = UpdateEncouragementInput { id: "c1".to_string(), text: Some("新的话".to_string()), level: None };
    let r = update_encouragement(&custom, &input).unwrap();
    assert_eq!(r.text, "新的话");
    assert_eq!(r.level, "normal");
    assert_eq!(r.id, "c1");
    match update_encouragement(&None, &input).unwrap_err() {
        AppError::NotFound(m) => assert_eq!(m, "鼓励语 c1 不存在"),
        e => panic!("unexpected {:?}", e),
    }
    assert!(matches!(
        update_encouragement(&Some(enc("p", "preset", "normal")), &input).unwrap_err(),
        AppError::Business(_)
    ));
    let short = UpdateEncouragementInput { id: "c1".to_string(), text: Some(" 好 ".to_string()), level: None };
    match update_encouragement(&custom, &short).unwrap_err() {
        AppError::Param(m) => assert_eq!(m, "鼓励语至少 2 个字"),
        e => panic!("unexpected {:?}", e),
    }
    let long = UpdateEncouragementInput { id: "c1".to_string(), text: Some("字".repeat(101)), level: None };
    assert!(matches!(update_encouragement(&custom, &long).unwrap_err(), AppError::Param(_)));
    let bad = UpdateEncouragementInput { id: "c1".to_string(), text: None, level: Some("x".to_string()) };
    assert!(matches!(update_encouragement(&custom, &bad).unwrap_err(), AppError::Param(_)));
}

#[test]
fn delete_and_hide_rules() {
    assert!(delete_encouragement(&Some(enc("c", "custom", "normal")), "c").is_ok());
    assert!(matches!(delete_encouragement(&Some(enc("p", "preset", "normal")), "p").unwrap_err(), AppError::Business(_)));
    assert!(matches!(delete_encouragement(&None, "x").unwrap_err(), AppError::NotFound(_)));
    assert!(hide_preset_encouragement(&Some("preset".to_string())).is_ok());
    assert!(matches!(hide_preset_encouragement(&Some("custom".to_string())).unwrap_err(), AppError::Business(_)));
    assert!(matches!(hide_preset_encouragement(&None).unwrap_err(), AppError::NotFound(_)));
}

#[test]
fn batch_operations_skip_presets_and_missing() {
    let encs = vec![enc("a", "custom", "normal"), enc("b", "preset", "normal"), enc("c", "custom", "normal")];
    let ids = vec!["a".to_string(), "b".to_string(), "zz".to_string(), "c".to_string()];
    assert_eq!(batch_delete_encouragements(&encs, &ids).unwrap(), vec!["a".to_string(), "c".to_string()]);
    assert_eq!(
        batch_update_encouragement_level(&encs, &ids, &"advanced".to_string()).unwrap(),
        vec!["a".to_string(), "c".to_string()]
    );
    assert!(matches!(
        batch_update_encouragement_level(&encs, &ids, &"nope".to_string()).unwrap_err(),
        AppError::Param(_)
    ));
    let too_many: Vec<String> = (0..501).map(|i| format!("id{}", i)).collect();
    match batch_delete_encouragements(&encs, &too_many).unwrap_err() {
        AppError::Param(m) => assert_eq!(m, "批量操作一次最多 500 条"),
        e => panic!("unexpected {:?}", e),
    }
}

#[test]
fn longest_streak_milestones() {
    assert_eq!(check_longest_streak_milestone(&streak(12, 10, true)).unwrap().milestone_type, "超越历史");
    assert_eq!(check_longest_streak_milestone(&streak(10, 10, true)).unwrap().milestone_type, "追平历史");
    let near = check_longest_streak_milestone(&streak(8, 10, true)).unwrap();
    assert_eq!(near.milestone_type, "接近历史");
    assert_eq!(near.current_streak, 8);
    assert_eq!(near.longest_streak, 10);
    assert!(check_longest_streak_milestone(&streak(7, 10, true)).is_none());
    assert!(check_longest_streak_milestone(&streak(0, 0, false)).is_none());
}

#[test]
fn streak_break_once_a_day() {
    let broken = streak(0, 9, false);
    let r = streak_break_check(&Some("2026-06-23".to_string()), &Some("5".to_string()), "2026-06-24", &broken, true);
    assert!(r.has_streak_break);
    assert_eq!(r.streak_break_prev, 5);
    assert!(r.record);
    let same_day = streak_break_check(&Some("2026-06-24".to_string()), &Some("5".to_string()), "2026-06-24", &broken, true);
    assert!(!same_day.has_streak_break);
    assert!(!same_day.record);
    let short = streak_break_check(&None, &Some("2".to_string()), "2026-06-24", &broken, true);
    assert!(!short.has_streak_break);
    assert!(short.record);
    let garbage = streak_break_check(&None, &Some("x5".to_string()), "2026-06-24", &broken, true);
    assert!(!garbage.has_streak_break);
    let no_tasks = streak_break_check(&None, &Some("5".to_string()), "2026-06-24", &broken, false);
    assert!(!no_tasks.has_streak_break);
    assert_eq!(no_tasks.streak_break_prev, 0);
}

fn day(y: i32, m: u32, d: u32) -> i32 {
    NaiveDate::from_ymd_opt(y, m, d).unwrap().num_days_from_ce()
}

fn prediction(id: &str, deadline: Option<&str>, predicted: Option<&str>, days: Option<i64>) -> CompletionPrediction {
    CompletionPrediction {
        goal_id: id.to_string(),
        goal_name: format!("目标{}", id),
        deadline: deadline.map(|s| s.to_string()),
        predicted_date: predicted.map(|s| s.to_string()),
        days_to_deadline: days,
    }
}

#[test]
fn lagging_goals_are_late_or_predicted_late() {
    let preds = vec![
        prediction("late", Some("2026-06-20"), None, Some(-4)),
        prediction("slow", Some("2026-07-01"), Some("2026-07-10"), Some(7)),
        prediction("fine", Some("2026-07-01"), Some("2026-06-28"), Some(7)),
        prediction("done", Some("2026-06-20"), None, Some(-4)),
        prediction("child", Some("2026-06-20"), None, Some(-4)),
        prediction("nodl", None, Some("2026-07-10"), None),
    ];
    let roots: Vec<String> = ["late", "slow", "fine", "done", "nodl"].iter().map(|s| s.to_string()).collect();
    let done = vec!["done".to_string()];
    let out = lagging_goals(&preds, &roots, &done, day(2026, 6, 24));
    assert_eq!(out.len(), 2);
    assert_eq!(out[0].id, "late");
    assert_eq!(out[0].predicted_end_date, "2026-06-20");
    assert_eq!(out[0].days_remaining, -4);
    assert_eq!(out[1].id, "slow");
    assert_eq!(out[1].predicted_end_date, "2026-07-10");
    assert_eq!(out[1].deadline, "2026-07-01");
}

fn scenario_goal(id: &str, name: &str, deadline: &str) -> selfpilot::models::Goal {
    selfpilot::models::Goal {
        id: id.to_string(),
        name: name.to_string(),
        parent_id: None,
        path: format!("/{}", id),
        deadline: Some(deadline.to_string()),
        total_qty: 1000,
        unit: "".to_string(),
        sort_order: 0,
        created_at: "2026-01-01T00:00:00".to_string(),
        daily_capacity: None,
    }
}

fn scenario_task(id: &str, goal_id: &str, status: &str, plan: i64, actual: i64) -> selfpilot::models::Task {
    selfpilot::models::Task {
        id: id.to_string(),
        goal_id: goal_id.to_string(),
        stage_id: None,
        parent_id: None,
        path: format!("/{}/{}", goal_id, id),
        name: id.to_string(),
        plan_date: None,
        overdue_date: None,
        plan_qty: plan,
        actual_qty: actual,
        unit: "".to_string(),
        status: status.to_string(),
        is_manual: 0,
        source: "manual".to_string(),
        sort_order: 0,
        created_at: "2026-01-01T00:00:00".to_string(),
        estimated_hours: None,
    }
}

#[test]
fn completed_goals_are_not_lagging() {
    let goals = vec![
        scenario_goal("g-a", "按时完成", "2999-01-01"),
        scenario_goal("g-b", "超期后完成", "2020-01-01"),
        scenario_goal("g-c", "逾期未完成", "2020-01-01"),
        scenario_goal("g-d", "完成后编辑", "2020-01-01"),
    ];
    let tasks = vec![
        scenario_task("t-a1", "g-a", "done", 500, 500),
        scenario_task("t-a2", "g-a", "done", 500, 500),
        scenario_task("t-b1", "g-b", "done", 1000, 1000),
        scenario_task("t-c1", "g-c", "pending", 1000, 0),
        scenario_task("t-d1", "g-d", "done", 1000, 1000),
    ];
    let progress = calc_all_goals_progress(&goals, &tasks);
    let done: Vec<String> = progress.iter().filter(|p| p.is_completed).map(|p| p.id.clone()).collect();
    assert!(done.contains(&"g-a".to_string()), "A 按时完成应判为已完成");
    assert!(done.contains(&"g-b".to_string()), "B 超期后完成应判为已完成");
    assert!(!done.contains(&"g-c".to_string()), "C 逾期未完成不应判为已完成");
    assert!(done.contains(&"g-d".to_string()), "D 完成后再次编辑仍应为已完成");

    let roots: Vec<String> = goals.iter().map(|g| g.id.clone()).collect();
    let preds: Vec<CompletionPrediction> =
        goals.iter().map(|g| prediction(&g.id, g.deadline.as_deref(), None, None)).collect();
    let lagging: Vec<String> =
        lagging_goals(&preds, &roots, &done, day(2026, 6, 24)).into_iter().map(|g| g.id).collect();
    assert!(!lagging.contains(&"g-a".to_string()), "A 按时完成不应进入逾期/滞后提示");
    assert!(!lagging.contains(&"g-b".to_string()), "B 超期后完成不应进入逾期/滞后提示（核心修复）");
    assert!(lagging.contains(&"g-c".to_string()), "C 逾期未完成仍应进入逾期/滞后提示（回归）");
    assert!(!lagging.contains(&"g-d".to_string()), "D 完成后再次编辑不应进入逾期/滞后提示");
}

#[test]
fn streak_break_reads_the_stored_streak_like_an_integer_parse() {
    let broken = streak(0, 9, false);
    let check = |v: &str| streak_break_check(&None, &Some(v.to_string()), "2026-06-24", &broken, true);
    assert_eq!(check("+7").streak_break_prev, 7);
    assert_eq!(check("0012").streak_break_prev, 12);
    assert_eq!(check("2147483647").streak_break_prev, 2147483647);
    assert!(!check("2147483648").has_streak_break);
    assert!(!check("99999999999999999999").has_streak_break);
    assert!(!check(" 5").has_streak_break);
    assert!(!check("5 ").has_streak_break);
    assert!(!check("-").has_streak_break);
    assert!(!check("").has_streak_break);
    assert!(!check("-5").has_streak_break);
}

#[test]
fn weights_from_ages_count_a_text_new_for_seven_days() {
    let cands = vec![candidate("a"), candidate("b"), candidate("c"), candidate("d")];
    let recent = vec!["b".to_string()];
    let ages = vec![Some(3), Some(8), None, Some(7)];
    assert_eq!(candidate_weights(&cands, &recent, &ages), vec![30, 1, 10, 30]);
}

#[test]
fn the_roll_picks_by_running_weight() {
    let cands = vec![candidate("a"), candidate("b"), candidate("c")];
    let recent = vec!["b".to_string()];
    let ages = vec![Some(0), Some(30), None];
    // weights 30, 1, 10
    assert_eq!(pick_candidate(&cands, &recent, &ages, 0).id, "a");
    assert_eq!(pick_candidate(&cands, &recent, &ages, 29).id, "a");
    assert_eq!(pick_candidate(&cands, &recent, &ages, 30).id, "b");
    assert_eq!(pick_candidate(&cands, &recent, &ages, 31).id, "c");
    assert_eq!(pick_candidate(&cands, &recent, &ages, 40).id, "c");
}

#[test]
fn draw_steps_go_through_filters_then_levels() {
    let style = Some("warm".to_string());
    // first fetch: level 0, style and part of day
    match draw_step(2, &style, "morning", 0, 0) {
        DrawStep::Fetch { level, style, period } => {
            assert_eq!(level, 0);
            assert_eq!(style.as_deref(), Some("warm"));
            assert_eq!(period.as_deref(), Some("morning"));
        }
        s => panic!("unexpected {:?}", s),
    }
    // nothing found: style alone, then no filter, then the next level
    match draw_step(2, &style, "morning", 1, 0) {
        DrawStep::Fetch { level, style, period } => {
            assert_eq!((level, style.as_deref(), period.as_deref()), (0, Some("warm"), None));
        }
        s => panic!("unexpected {:?}", s),
    }
    match draw_step(2, &style, "morning", 2, 0) {
        DrawStep::Fetch { level, style, period } => assert_eq!((level, style, period), (0, None, None)),
        s => panic!("unexpected {:?}", s),
    }
    match draw_step(2, &style, "morning", 3, 0) {
        DrawStep::Fetch { level, period, .. } => assert_eq!((level, period.as_deref()), (1, Some("morning"))),
        s => panic!("unexpected {:?}", s),
    }
    // candidates found: draw
    assert!(matches!(draw_step(2, &style, "morning", 4, 3), DrawStep::Draw));
    // all tried
    assert!(matches!(draw_step(2, &style, "morning", 6, 0), DrawStep::Nothing));
    // without a style: two combinations per level
    match draw_step(1, &None, "evening", 1, 0) {
        DrawStep::Fetch { level, style, period } => assert_eq!((level, style, period), (0, None, None)),
        s => panic!("unexpected {:?}", s),
    }
    assert!(matches!(draw_step(1, &None, "evening", 2, 0), DrawStep::Nothing));
}
