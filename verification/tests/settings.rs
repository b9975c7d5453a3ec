use vc::settings::{DEFAULT_OUTPUT, DEFAULT_TIMEOUT_SECS, DEFAULT_URLS};
use vc::splitter::DEFAULT_MAX_PER_FILE;
use vc::Settings;

#[test]
fn cli_args_override_positionally() {
    let s = Settings::default().with_cli_args(&[
        "u.json".to_string(),
        "out".to_string(),
        "300".to_string(),
    ]);
    assert_eq!(s.urls_path, "u.json");
    assert_eq!(s.output_dir, "out");
    assert_eq!(s.max_per_file, 300);
}

#[test]
fn cli_args_ignore_empty_and_garbage() {
    let s = Settings::default().with_cli_args(&[
        "  ".to_string(),
        String::new(),
        "many".to_string(),
    ]);
    assert_eq!(s, Settings::default());

    let s = Settings::default().with_cli_args(&["0".to_string()]);
    assert_eq!(s.urls_path, "0");
    assert_eq!(s.max_per_file, DEFAULT_MAX_PER_FILE);
}

#[test]
fn cli_limit_is_trimmed() {
    let s = Settings::default().with_cli_args(&["a".to_string(), "b".to_string(), " 42 ".to_string()]);
    assert_eq!(s.max_per_file, 42);
    assert_eq!(s.timeout_secs, DEFAULT_TIMEOUT_SECS);
}

#[test]
fn env_values_override_defaults() {
    let d = Settings::from_env(None, None, None, None);
    assert_eq!(d, Settings::default());
    assert_eq!(d.urls_path, DEFAULT_URLS);
    assert_eq!(d.output_dir, DEFAULT_OUTPUT);
    assert_eq!(d.timeout_secs, 120);
    assert_eq!(d.max_per_file, 500);

    let c = Settings::from_env(
        Some("custom/urls.json".to_string()),
        Some(" custom/out ".to_string()),
        Some("45".to_string()),
        Some("250".to_string()),
    );
    assert_eq!(c.urls_path, "custom/urls.json");
    assert_eq!(c.output_dir, "custom/out");
    assert_eq!(c.timeout_secs, 45);
    assert_eq!(c.max_per_file, 250);
}

#[test]
fn env_garbage_and_zero_are_ignored() {
    let f = Settings::from_env(
        Some("   ".to_string()),
        Some(String::new()),
        Some("zero".to_string()),
        Some("0".to_string()),
    );
    assert_eq!(f, Settings::default());
    let g = Settings::from_env(None, None, Some("+7".to_string()), Some("-3".to_string()));
    assert_eq!(g.timeout_secs, 7);
    assert_eq!(g.max_per_file, DEFAULT_MAX_PER_FILE);
}
