use selfpilot::error::AppError;
use selfpilot::models::{Setting, UpdateEncouragementSettingsInput};
use selfpilot::portable::{is_portable, portable_data_dir, portable_flag_path, portable_webview_dir, resolve_app_dir};
use selfpilot::settings::{current_style, get_encouragement_settings, update_encouragement_settings};
use std::path::Path;

fn row(k: &str, v: &str) -> Setting {
    Setting { key: k.to_string(), value: v.to_string() }
}

#[test]
fn settings_defaults() {
    let s = get_encouragement_settings(&Vec::new());
    assert!(s.enabled);
    assert_eq!(s.frequency, "normal");
    assert_eq!(s.style, "warm");
    assert!(s.celebration_animation);
    assert!(s.emoji_enabled);
}

#[test]
fn settings_from_rows() {
    let rows = vec![
        row("encouragement_enabled", "false"),
        row("encouragement_frequency", "sparse"),
        row("encouragement_style", "minimal"),
        row("encouragement_celebration_animation", "maybe"),
        row("encouragement_emoji_enabled", "false"),
        row("encouragement_enabled", "true"),
    ];
    let s = get_encouragement_settings(&rows);
    assert!(!s.enabled);
    assert_eq!(s.frequency, "sparse");
    assert_eq!(s.style, "minimal");
    assert!(s.celebration_animation);
    assert!(!s.emoji_enabled);
    assert_eq!(current_style(&None), "warm");
    assert_eq!(current_style(&Some("professional".to_string())), "professional");
}

#[test]
fn settings_update_rows() {
    let input = UpdateEncouragementSettingsInput {
        enabled: Some(false),
        frequency: None,
        style: Some("professional".to_string()),
        celebration_animation: None,
        emoji_enabled: Some(true),
    };
    let rows = update_encouragement_settings(&input).unwrap();
    let pairs: Vec<(String, String)> = rows.into_iter().map(|s| (s.key, s.value)).collect();
    assert_eq!(
        pairs,
        vec![
            ("encouragement_enabled".to_string(), "false".to_string()),
            ("encouragement_style".to_string(), "professional".to_string()),
            ("encouragement_emoji_enabled".to_string(), "true".to_string()),
        ]
    );
}

#[test]
fn settings_update_refusals() {
    let bad_freq = UpdateEncouragementSettingsInput {
        enabled: None,
        frequency: Some("often".to_string()),
        style: Some("loud".to_string()),
        celebration_animation: None,
        emoji_enabled: None,
    };
    match update_encouragement_settings(&bad_freq).unwrap_err() {
        AppError::Param(m) => assert_eq!(m, "frequency 必须为 aggressive/normal/sparse"),
        e => panic!("unexpected {:?}", e),
    }
    let bad_style = UpdateEncouragementSettingsInput {
        enabled: None,
        frequency: Some("aggressive".to_string()),
        style: Some("loud".to_string()),
        celebration_animation: None,
        emoji_enabled: None,
    };
    match update_encouragement_settings(&bad_style).unwrap_err() {
        AppError::Param(m) => assert_eq!(m, "style 必须为 warm/professional/minimal"),
        e => panic!("unexpected {:?}", e),
    }
}

#[test]
fn portable_mode_paths() {
    let exe = Some("/opt/app".to_string());
    assert!(is_portable(&exe, true));
    assert!(!is_portable(&exe, false));
    assert!(!is_portable(&None, true));
    let expected_flag = Path::new("/opt/app").join("portable.flag").to_string_lossy().into_owned();
    assert_eq!(portable_flag_path("/opt/app"), expected_flag);
    let data = Path::new("/opt/app").join("data").to_string_lossy().into_owned();
    assert_eq!(portable_data_dir(&exe, true), Some(data.clone()));
    assert_eq!(portable_data_dir(&exe, false), None);
    let webview = Path::new(&data).join("webview").to_string_lossy().into_owned();
    assert_eq!(portable_webview_dir(&exe, true), Some(webview));
    assert_eq!(portable_webview_dir(&None, true), None);
    assert_ne!(portable_flag_path("/opt/app"), "/opt/app");
}

#[test]
fn app_dir_resolution() {
    let exe = Some("/opt/app".to_string());
    let installed: Result<String, String> = Ok("/home/u/.local/share/selfpilot".to_string());
    assert_eq!(resolve_app_dir(&exe, true, &installed).unwrap(), "/opt/app/data");
    assert_eq!(resolve_app_dir(&exe, false, &installed).unwrap(), "/home/u/.local/share/selfpilot");
    let failed: Result<String, String> = Err("no home".to_string());
    match resolve_app_dir(&None, false, &failed).unwrap_err() {
        AppError::Internal(m) => assert_eq!(m, "获取应用数据目录失败: no home"),
        e => panic!("unexpected {:?}", e),
    }
}

#[test]
fn settings_read_back_what_an_update_wrote() {
    let stored = vec![row("encouragement_frequency", "sparse"), row("encouragement_style", "warm"), row("theme", "dark")];
    let input = UpdateEncouragementSettingsInput {
        enabled: Some(false),
        frequency: None,
        style: Some("minimal".to_string()),
        celebration_animation: Some(true),
        emoji_enabled: None,
    };
    let mut after = update_encouragement_settings(&input).unwrap();
    after.extend(stored);
    let s = get_encouragement_settings(&after);
    assert!(!s.enabled);
    assert_eq!(s.frequency, "sparse");
    assert_eq!(s.style, "minimal");
    assert!(s.celebration_animation);
    assert!(s.emoji_enabled);
}
