use selfpilot::backup::{
    check_backup_path, check_export_path, check_sqlite_header, export_data, import_data, missing_file_error,
    plan_import, setting_key_allowed, text_ends_with, vacuum_into_sql, validate_import_payload, validate_path_text,
    ImportOp, StoredIds,
};
use selfpilot::error::AppError;
use selfpilot::models::{Encouragement, ExportData, Goal, ImportResult, Setting, Task, TaskDependency};

fn goal(id: &str) -> Goal {
    Goal {
        id: id.to_string(),
        name: id.to_string(),
        parent_id: None,
        path: format!("/{}", id),
        deadline: None,
        total_qty: 100,
        unit: "页".to_string(),
        sort_order: 0,
        created_at: "2026-06-24T00:00:00".to_string(),
        daily_capacity: None,
    }
}

fn task(id: &str, goal_id: &str) -> Task {
    Task {
        id: id.to_string(),
        goal_id: goal_id.to_string(),
        stage_id: None,
        parent_id: None,
        path: format!("/{}/{}", goal_id, id),
        name: id.to_string(),
        plan_date: None,
        overdue_date: None,
        plan_qty: 100,
        actual_qty: 0,
        unit: "页".to_string(),
        status: "pending".to_string(),
        is_manual: 0,
        source: "auto".to_string(),
        sort_order: 0,
        created_at: "2026-06-24T00:00:00".to_string(),
        estimated_hours: None,
    }
}

fn dep(id: &str, task_id: &str, on: &str) -> TaskDependency {
    TaskDependency {
        id: id.to_string(),
        task_id: task_id.to_string(),
        depends_on_id: on.to_string(),
        created_at: "2026-06-24T00:00:00".to_string(),
    }
}

fn enc(id: &str, category: &str, level: &str) -> Encouragement {
    Encouragement {
        id: id.to_string(),
        text: id.to_string(),
        category: category.to_string(),
        level: level.to_string(),
        created_at: "2026-06-24T00:00:00".to_string(),
        context_tags: None,
        hidden: None,
        sort_order: None,
        style: "warm".to_string(),
    }
}

fn setting(key: &str) -> Setting {
    Setting { key: key.to_string(), value: "1".to_string() }
}

fn data() -> ExportData {
    export_data(
        vec![goal("g1"), goal("g2")],
        vec![task("t1", "g1"), task("t2", "g2")],
        vec![dep("d1", "t2", "t1"), dep("d2", "t2", "missing")],
        vec![enc("e1", "custom", "normal"), enc("p1", "preset", "normal")],
        vec![setting("theme"), setting("db_path")],
    )
}

fn stored() -> StoredIds {
    StoredIds {
        goal_ids: vec!["g1".to_string()],
        task_ids: vec!["t1".to_string()],
        dependency_pairs: vec![("t2".to_string(), "t1".to_string())],
        encouragement_ids: vec!["e1".to_string()],
    }
}

fn fresh() -> Vec<String> {
    (0..10).map(|i| format!("new{}", i)).collect()
}

#[test]
fn export_is_version_two_one_without_stages() {
    let d = data();
    assert_eq!(d.version, "2.1");
    assert!(d.stages.is_empty());
    assert_eq!(d.goals.len(), 2);
    assert_eq!(d.settings.len(), 2);
}

#[test]
fn import_skip_mode() {
    let plan = plan_import(&stored(), &data(), "skip", &fresh()).unwrap();
    let expected = ImportResult {
        goals_imported: 1,
        goals_skipped: 1,
        stages_imported: 0,
        stages_skipped: 0,
        tasks_imported: 1,
        tasks_skipped: 1,
        dependencies_imported: 0,
        dependencies_skipped: 2,
        encouragements_imported: 0,
        settings_imported: 1,
    };
    assert_eq!(plan.result, expected);
    assert_eq!(plan.ops.len(), 3);
    assert!(matches!(&plan.ops[0], ImportOp::WriteGoal { id, index: 1, upsert: false } if id == "g2"));
    assert!(matches!(&plan.ops[1], ImportOp::WriteTask { id, goal_id, index: 1, upsert: false } if id == "t2" && goal_id == "g2"));
    assert!(matches!(&plan.ops[2], ImportOp::WriteSetting { index: 0 }));
}

#[test]
fn import_overwrite_mode() {
    let plan = plan_import(&stored(), &data(), "overwrite", &fresh()).unwrap();
    assert_eq!(plan.result.goals_imported, 2);
    assert_eq!(plan.result.goals_skipped, 0);
    assert_eq!(plan.result.tasks_imported, 2);
    assert_eq!(plan.result.dependencies_imported, 1);
    assert_eq!(plan.result.dependencies_skipped, 1);
    assert_eq!(plan.result.encouragements_imported, 1);
    assert!(matches!(&plan.ops[0], ImportOp::WriteGoal { id, index: 0, upsert: true } if id == "g1"));
}

#[test]
fn import_rename_mode_uses_fresh_ids() {
    let plan = plan_import(&stored(), &data(), "rename", &fresh()).unwrap();
    assert_eq!(plan.result.goals_imported, 2);
    assert_eq!(plan.result.tasks_imported, 2);
    assert_eq!(plan.result.encouragements_imported, 1);
    assert!(matches!(&plan.ops[0], ImportOp::WriteGoal { id, index: 0, upsert: false } if id == "new0"));
    // task t1 of the renamed goal g1 is renamed too and moves to new0
    assert!(matches!(&plan.ops[2], ImportOp::WriteTask { id, goal_id, index: 0, upsert: false } if id == "new1" && goal_id == "new0"));
}

#[test]
fn import_data_counts_like_plan() {
    let plan = import_data(&stored(), &data(), "skip").unwrap();
    assert_eq!(plan.result.goals_imported, 1);
    assert_eq!(plan.result.settings_imported, 1);
}

#[test]
fn import_refusals() {
    match plan_import(&stored(), &data(), "merge", &fresh()).unwrap_err() {
        AppError::Param(m) => assert_eq!(m, "未知冲突模式: merge，应为 skip/overwrite/rename"),
        e => panic!("unexpected {:?}", e),
    }
    let mut bad = data();
    bad.tasks[1].status = "weird".to_string();
    match validate_import_payload(&bad).unwrap_err() {
        AppError::Param(m) => assert_eq!(m, "任务 t2 的 status 非法: weird"),
        e => panic!("unexpected {:?}", e),
    }
    assert!(import_data(&stored(), &bad, "skip").is_err());
    let mut bad_enc = data();
    bad_enc.encouragements[0].level = "epic".to_string();
    match validate_import_payload(&bad_enc).unwrap_err() {
        AppError::Param(m) => assert_eq!(m, "鼓励语 e1 的 level 非法: epic"),
        e => panic!("unexpected {:?}", e),
    }
    assert!(validate_import_payload(&data()).is_ok());
}

#[test]
fn settings_keys_allowed_in_imports() {
    assert!(setting_key_allowed("theme"));
    assert!(setting_key_allowed("last_streak_value"));
    assert!(!setting_key_allowed("db_path"));
}

#[test]
fn path_checks() {
    assert!(matches!(validate_path_text("   ", false).unwrap_err(), AppError::Param(m) if m == "路径不能为空"));
    assert!(matches!(validate_path_text("a\0b.db", false).unwrap_err(), AppError::Param(_)));
    assert!(matches!(validate_path_text("../x.db", true).unwrap_err(), AppError::Param(m) if m == "路径不能包含父目录引用 (..)"));
    assert!(validate_path_text("/tmp/x.db", true).is_ok());
    assert!(validate_path_text("/tmp/x.sqlite", true).is_ok());
    assert!(matches!(validate_path_text("/tmp/x.txt", true).unwrap_err(), AppError::Param(m) if m == "文件必须以 .db 或 .sqlite 结尾"));
    assert!(validate_path_text("/tmp/x.txt", false).is_ok());
    // ".." inside a file name is no parent reference
    assert!(validate_path_text("/tmp/a..b.db", true).is_ok());
}

#[test]
fn export_and_backup_targets() {
    assert!(check_export_path("/tmp/out.json").is_ok());
    assert!(matches!(check_export_path("/tmp/out.txt").unwrap_err(), AppError::Param(m) if m == "导出文件必须以 .json 结尾"));
    assert!(check_backup_path("/tmp/copy.db", false).is_ok());
    assert!(matches!(check_backup_path("/tmp/copy.db", true).unwrap_err(), AppError::Param(m) if m == "目标文件已存在，请更换路径或删除后重试: /tmp/copy.db"));
    assert!(matches!(check_backup_path("/tmp/copy.json", false).unwrap_err(), AppError::Param(_)));
    assert!(check_backup_path("../copy.db", false).is_err());
}

#[test]
fn sqlite_header_check() {
    let good = b"SQLite format 3\0".to_vec();
    assert!(check_sqlite_header(&good).is_ok());
    let bad = b"SQLite format 2\0".to_vec();
    assert!(matches!(check_sqlite_header(&bad).unwrap_err(), AppError::Param(m) if m == "文件不是有效的 SQLite 数据库"));
    assert!(check_sqlite_header(&Vec::new()).is_err());
    assert!(matches!(missing_file_error("/x.db"), AppError::Param(m) if m == "文件不存在: /x.db"));
}

#[test]
fn vacuum_statement_escapes_quotes() {
    assert_eq!(vacuum_into_sql("/tmp/it's.db"), "VACUUM INTO '/tmp/it''s.db'");
    assert!(text_ends_with("abc.json", ".json"));
    assert!(!text_ends_with("json", ".json"));
}

#[test]
fn parent_reference_in_the_middle_of_a_path() {
    assert!(matches!(validate_path_text("/tmp/../x.db", true).unwrap_err(), AppError::Param(m) if m == "路径不能包含父目录引用 (..)"));
    assert!(matches!(validate_path_text("data/..", false).unwrap_err(), AppError::Param(_)));
    assert!(validate_path_text("./x.db", true).is_ok());
}
