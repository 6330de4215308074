use chrono::{Datelike, NaiveDate};
use selfpilot::streak::{
    calc_current_streak, calc_longest_streak, calc_milestone, calc_streak, load_day_map, DayRow, DayStatus,
};

fn day(y: i32, m: u32, d: u32) -> i32 {
    NaiveDate::from_ymd_opt(y, m, d).unwrap().num_days_from_ce()
}

fn st(d: i32, has_task: bool, completed: bool) -> DayStatus {
    DayStatus { day: d, has_task, completed }
}

#[test]
fn current_streak_counts_back_over_empty_days() {
    let today = day(2026, 6, 24);
    // 6/24 done, 6/23 done, 6/22 no entry, 6/21 done, 6/20 unfinished
    let map = vec![
        st(today, true, true),
        st(today - 1, true, true),
        st(today - 3, true, true),
        st(today - 4, true, false),
    ];
    assert_eq!(calc_current_streak(today, &map), (3, true));
}

#[test]
fn current_streak_without_tasks_today_starts_yesterday() {
    let today = day(2026, 6, 24);
    let map = vec![st(today - 1, true, true), st(today - 2, true, true)];
    assert_eq!(calc_current_streak(today, &map), (2, false));
}

#[test]
fn current_streak_broken_today() {
    let today = day(2026, 6, 24);
    let map = vec![st(today, true, false), st(today - 1, true, true)];
    assert_eq!(calc_current_streak(today, &map), (0, false));
}

#[test]
fn current_streak_empty_map() {
    let today = day(2026, 6, 24);
    assert_eq!(calc_current_streak(today, &Vec::new()), (0, false));
}

#[test]
fn longest_streak_over_history() {
    let base = day(2026, 1, 1);
    let map = vec![
        st(base, true, true),
        st(base + 1, true, true),
        st(base + 3, true, true),
        st(base + 4, true, false),
        st(base + 5, true, true),
    ];
    assert_eq!(calc_longest_streak(&map), 3);
    assert_eq!(calc_longest_streak(&Vec::new()), 0);
}

#[test]
fn milestones() {
    assert_eq!(calc_milestone(30), "master");
    assert_eq!(calc_milestone(29), "expert");
    assert_eq!(calc_milestone(14), "expert");
    assert_eq!(calc_milestone(13), "none");
}

#[test]
fn streak_info_longest_is_at_least_current() {
    let today = day(2026, 6, 24);
    let map: Vec<DayStatus> = (0..15).map(|k| st(today - k, true, true)).collect();
    let info = calc_streak(today, &map);
    assert_eq!(info.current_streak, 15);
    assert_eq!(info.longest_streak, 15);
    assert!(info.completed_today);
    assert_eq!(info.milestone, "expert");
}

#[test]
fn day_map_from_rows() {
    let rows = vec![
        DayRow { plan_date: "2026-06-23".to_string(), task_count: 2, done_count: 1 },
        DayRow { plan_date: "not a date".to_string(), task_count: 1, done_count: 1 },
        DayRow { plan_date: "2026-06-24".to_string(), task_count: 1, done_count: 0 },
    ];
    let map = load_day_map(&rows);
    assert_eq!(map.len(), 2);
    let d23 = map.iter().find(|s| s.day == day(2026, 6, 23)).unwrap();
    assert!(d23.has_task && d23.completed);
    let d24 = map.iter().find(|s| s.day == day(2026, 6, 24)).unwrap();
    assert!(d24.has_task && !d24.completed);
    assert_eq!(calc_current_streak(day(2026, 6, 24), &map), (0, false));
    assert_eq!(calc_current_streak(day(2026, 6, 25), &map), (0, false));
}
