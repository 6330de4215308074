use chrono::{Datelike, NaiveDate};
use selfpilot::error::{not_found, AppError};
use selfpilot::models::{
    validate_conflict_mode, validate_date_format, validate_date_optional_clear, validate_encouragement_text,
    validate_frequency, validate_import_size, validate_month_days, validate_name, validate_qty, validate_split_strategy,
    validate_user_level, validate_weekdays, EncouragementTriggerSource, TaskStatus,
};
use selfpilot::textorder::{sort_positions_by_text, text_less};
use selfpilot::util::{int_to_text, new_uuid, parse_date_or_param, qty_to_text, str_eq, to_decimal};

#[test]
fn task_status_round_trip() {
    for s in [TaskStatus::Pending, TaskStatus::Partial, TaskStatus::Done, TaskStatus::Skipped] {
        assert_eq!(TaskStatus::from_str(s.as_str()), Some(s));
    }
    assert_eq!(TaskStatus::Pending.as_str(), "pending");
    assert_eq!(TaskStatus::Skipped.as_str(), "skipped");
    assert_eq!(TaskStatus::from_str("finished"), None);
}

#[test]
fn trigger_source_texts() {
    assert_eq!(EncouragementTriggerSource::StreakBreak.as_ref(), "streak_break");
    assert_eq!(EncouragementTriggerSource::CompleteFirst.as_ref(), "complete_first");
}

#[test]
fn validators() {
    assert_eq!(validate_name("  "), Err("名称不能为空白"));
    assert!(validate_name("读书").is_ok());
    assert_eq!(validate_name(&"字".repeat(201)), Err("名称长度不能超过 200 字"));
    assert!(validate_name(&"字".repeat(200)).is_ok());
    assert!(validate_date_format("2026-06-24").is_ok());
    assert_eq!(validate_date_format("2026/06/24"), Err("日期格式必须为 yyyy-MM-dd"));
    assert!(validate_date_format("2026-02-30").is_err());
    assert!(validate_date_optional_clear("").is_ok());
    assert!(validate_date_optional_clear("x").is_err());
    assert!(validate_qty(0).is_ok());
    assert_eq!(validate_qty(-1), Err("数量必须为非负有限数"));
    assert!(validate_encouragement_text("加油").is_ok());
    assert!(validate_encouragement_text(" ").is_err());
    assert!(validate_encouragement_text(&"a".repeat(101)).is_err());
    assert!(validate_user_level("celebration").is_ok());
    assert!(validate_user_level("longest_streak").is_err());
    assert!(validate_frequency("weekly").is_ok());
    assert_eq!(validate_frequency("hourly"), Err("频率必须为 daily/weekly/monthly"));
    assert!(validate_split_strategy("by_deadline").is_ok());
    assert!(validate_split_strategy("by_magic").is_err());
    assert!(validate_weekdays(&vec![0, 6]).is_ok());
    assert!(validate_weekdays(&vec![7]).is_err());
    assert!(validate_month_days(&vec![1, 31]).is_ok());
    assert!(validate_month_days(&vec![0]).is_err());
    assert!(validate_conflict_mode("rename").is_ok());
    assert!(validate_conflict_mode("merge").is_err());
    assert!(validate_import_size("{}").is_ok());
}

#[test]
fn error_texts() {
    let e = not_found("目标", "g1");
    assert!(matches!(&e, AppError::NotFound(m) if m == "目标 g1 不存在"));
    assert_eq!(e.text(), "未找到: 目标 g1 不存在");
    assert_eq!(e.user_text(), "未找到: 目标 g1 不存在");
    assert!(!e.is_internal());
    let db = AppError::Db("no such table: goals".to_string());
    assert!(db.is_internal());
    assert_eq!(db.user_text(), "内部错误，请稍后重试");
    assert_eq!(AppError::Business("x".to_string()).text(), "业务逻辑错误: x");
    assert_eq!(AppError::Param("x".to_string()).text(), "参数错误: x");
}

#[test]
fn number_texts() {
    assert_eq!(to_decimal(0), "0");
    assert_eq!(to_decimal(1234), "1234");
    assert_eq!(int_to_text(-5), "-5");
    assert_eq!(int_to_text(i64::MIN), "-9223372036854775808");
    assert_eq!(qty_to_text(200), "2");
    assert_eq!(qty_to_text(250), "2.5");
    assert_eq!(qty_to_text(205), "2.05");
    assert_eq!(qty_to_text(-150), "-1.5");
}

#[test]
fn dates_and_ids() {
    let d = parse_date_or_param("2026-06-24", "截止").unwrap();
    assert_eq!(d, NaiveDate::from_ymd_opt(2026, 6, 24).unwrap().num_days_from_ce());
    match parse_date_or_param("24/06/2026", "截止").unwrap_err() {
        AppError::Param(m) => assert_eq!(m, "截止日期格式必须为 yyyy-MM-dd"),
        e => panic!("unexpected {:?}", e),
    }
    let a = new_uuid();
    let b = new_uuid();
    assert_eq!(a.len(), 36);
    assert_ne!(a, b);
    assert!(str_eq("abc", "abc"));
    assert!(!str_eq("abc", "abd"));
}

#[test]
fn text_order() {
    assert!(text_less("2026-06-09", "2026-06-10"));
    assert!(!text_less("b", "a"));
    assert!(text_less("a", "ab"));
    assert!(!text_less("a", "a"));
    let keys: Vec<String> = ["b", "a", "c", "a"].iter().map(|s| s.to_string()).collect();
    assert_eq!(sort_positions_by_text(&keys), vec![1, 3, 0, 2]);
}

#[test]
fn names_of_unicode_white_space_only_are_blank() {
    assert_eq!(validate_name("\u{3000}\t\u{a0}\u{2009}"), Err("名称不能为空白"));
    assert!(validate_name("\u{3000}读书\u{3000}").is_ok());
}

#[test]
fn trimming_matches_the_standard_trim() {
    for s in ["", "   ", " a ", "\u{3000}读书\u{2009}", "a b", "\t\n x\r\n", "\u{200b}x\u{200b}"] {
        assert_eq!(selfpilot::util::trim_str(s), s.trim());
    }
}
