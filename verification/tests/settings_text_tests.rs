use ast_outline::installers::{Change, FileAction, InstallOpts};
use ast_outline::settings::{
    json_install_plan, json_uninstall_plan, load_json_for_removal, load_json_settings, load_toml_document,
    load_toml_for_removal, settings_for_status, status_with, toml_install_plan, toml_uninstall_plan,
};
use ast_outline::text::{
    contains_str, decimal_string, first_line_of, from_chars, starts_with, to_chars, trim, trim_end_newlines,
};

fn opts() -> InstallOpts {
    InstallOpts::default()
}

#[test]
fn missing_json_settings_read_as_empty_object() {
    let (text, value) = load_json_settings("/p/settings.json", None).unwrap();
    assert_eq!(text, "{}");
    assert!(value.as_object().map(|m| m.is_empty()).unwrap_or(false));
}

#[test]
fn bad_json_settings_report_path() {
    let err = load_json_settings("/p/settings.json", Some("{\"hooks\": ".to_string())).unwrap_err();
    assert!(err.starts_with("parse /p/settings.json: "), "got {}", err);
    assert!(err.len() > "parse /p/settings.json: ".len());
}

#[test]
fn json_install_writes_pretty_text_with_newline() {
    let (text, value) =
        load_json_settings("/p/settings.json", Some("{\"hooks\":{\"PreToolUse\":[]}}".to_string())).unwrap();
    let plan = json_install_plan("/p/settings.json", &text, true, &value, &opts());
    assert_eq!(plan.change, Change::Updated("/p/settings.json".to_string()));
    assert_eq!(plan.action, FileAction::Write("{\n  \"hooks\": {\n    \"PreToolUse\": []\n  }\n}\n".to_string()));
}

#[test]
fn json_install_on_blank_file_is_a_creation() {
    let (text, value) = load_json_settings("/p/settings.json", Some("  {}\n".to_string())).unwrap();
    let plan = json_install_plan("/p/settings.json", &text, true, &value, &opts());
    assert_eq!(plan.change, Change::Created("/p/settings.json".to_string()));
    let unchanged = json_install_plan("/p/settings.json", &text, false, &value, &opts());
    assert_eq!(
        unchanged.change,
        Change::Skipped { path: "/p/settings.json".to_string(), reason: "already up to date".to_string() }
    );
    assert_eq!(unchanged.action, FileAction::Leave);
    let dry = json_install_plan("/p/settings.json", &text, true, &value, &InstallOpts { dry_run: true, ..Default::default() });
    assert_eq!(dry.action, FileAction::Leave);
}

#[test]
fn json_uninstall_writes_rest() {
    let (_, value) = load_json_settings("/p/settings.json", Some("{\"a\": 1}".to_string())).unwrap();
    let plan = json_uninstall_plan("/p/settings.json", true, &value, &opts()).unwrap();
    assert_eq!(plan.change, Change::Removed("/p/settings.json".to_string()));
    assert_eq!(plan.action, FileAction::Write("{\n  \"a\": 1\n}\n".to_string()));
    assert!(json_uninstall_plan("/p/settings.json", false, &value, &opts()).is_none());
}

#[test]
fn toml_round_trip_and_plans() {
    let src = "[mcp_servers.x]\ncommand = \"run\"\n";
    let (text, doc) = load_toml_document("/p/config.toml", Some(src.to_string())).unwrap();
    assert_eq!(text, src);
    let plan = toml_install_plan("/p/config.toml", &text, true, &doc, &opts());
    assert_eq!(plan.change, Change::Updated("/p/config.toml".to_string()));
    assert_eq!(plan.action, FileAction::Write(src.to_string()));
    let created = toml_install_plan("/p/config.toml", "", true, &doc, &opts());
    assert_eq!(created.change, Change::Created("/p/config.toml".to_string()));
    let removed = toml_uninstall_plan("/p/config.toml", true, &doc, &opts()).unwrap();
    assert_eq!(removed.change, Change::Removed("/p/config.toml".to_string()));
    assert!(toml_uninstall_plan("/p/config.toml", false, &doc, &opts()).is_none());
}

#[test]
fn missing_toml_reads_as_empty_and_bad_toml_reports_path() {
    let (text, doc) = load_toml_document("/p/config.toml", None).unwrap();
    assert_eq!(text, "");
    assert_eq!(doc.to_string(), "");
    let err = load_toml_document("/p/config.toml", Some("x = ".to_string())).unwrap_err();
    assert!(err.starts_with("parse /p/config.toml: "), "got {}", err);
}

#[test]
fn decimal_string_matches_to_string() {
    assert_eq!(decimal_string(0), "0");
    assert_eq!(decimal_string(7), "7");
    assert_eq!(decimal_string(10), "10");
    assert_eq!(decimal_string(1234), "1234");
    assert_eq!(decimal_string(usize::MAX), usize::MAX.to_string());
}

#[test]
fn trim_matches_str_trim() {
    assert_eq!(trim("  {} \n"), "{}");
    assert_eq!(trim("\t\n "), "");
    assert_eq!(trim("a b"), "a b");
    assert_eq!(trim("\u{a0}x\u{3000}"), "x");
}

#[test]
fn first_line_matches_lines_next() {
    assert_eq!(first_line_of("a\r\nb"), "a");
    assert_eq!(first_line_of("one\ntwo"), "one");
    assert_eq!(first_line_of("single"), "single");
    assert_eq!(first_line_of(""), "");
    assert_eq!(first_line_of("\nrest"), "");
}

#[test]
fn substring_and_prefix() {
    assert!(contains_str("abcdef", "cde"));
    assert!(contains_str("abc", ""));
    assert!(!contains_str("abc", "abcd"));
    assert!(!contains_str("abc", "x"));
    assert!(starts_with("ast-outline hook --x", "ast-outline hook"));
    assert!(!starts_with("ast", "ast-outline"));
}

#[test]
fn chars_and_concat() {
    let v = to_chars("héllo");
    assert_eq!(v.len(), 5);
    assert_eq!(from_chars(&v, 1, 4), "éll");
    assert_eq!(ast_outline::text::concat("ab", "cd"), "abcd");
    assert_eq!(trim_end_newlines("x\n\n"), "x");
    assert_eq!(trim_end_newlines("x\r\n"), "x\r");
}

#[test]
fn settings_for_status_parses_only_readable_json() {
    assert!(settings_for_status(None).is_none());
    assert!(settings_for_status(Some("{not json".to_string())).is_none());
    let v = settings_for_status(Some("{\"hooks\": {}}".to_string())).unwrap();
    assert!(v.get("hooks").is_some());
}

#[test]
fn loaded_json_is_the_file_value() {
    let (_, v) = load_json_settings("/p/s.json", Some("{\"k\": [1, 2]}".to_string())).unwrap();
    assert_eq!(v["k"][1], 2);
}

#[test]
fn removal_loads_nothing_without_a_file() {
    assert!(load_json_for_removal("/p/s.json", None).unwrap().is_none());
    let (t, v) = load_json_for_removal("/p/s.json", Some("{\"a\": true}".to_string())).unwrap().unwrap();
    assert_eq!(t, "{\"a\": true}");
    assert_eq!(v["a"], true);
    assert!(load_json_for_removal("/p/s.json", Some("[".to_string())).unwrap_err().starts_with("parse /p/s.json: "));
    assert!(load_toml_for_removal("/p/c.toml", None).unwrap().is_none());
    let (t, _) = load_toml_for_removal("/p/c.toml", Some("a = 1\n".to_string())).unwrap().unwrap();
    assert_eq!(t, "a = 1\n");
    assert!(load_toml_for_removal("/p/c.toml", Some("a = ".to_string())).is_err());
}

#[test]
fn status_with_checks_only_parsed_settings() {
    let has_hooks = |v: &serde_json::Value| v.get("hooks").is_some();
    let s = status_with(Some("1.2.0".to_string()), Some("{\"hooks\": {}}".to_string()), has_hooks);
    assert!(s.prompt_installed && s.hook_installed);
    assert_eq!(s.prompt_version, Some("1.2.0".to_string()));
    let s = status_with(None, Some("{\"other\": 1}".to_string()), has_hooks);
    assert!(!s.prompt_installed && !s.hook_installed);
    assert!(!status_with(None, Some("{bad".to_string()), |_: &serde_json::Value| true).hook_installed);
    assert!(!status_with(None, None, |_: &serde_json::Value| true).hook_installed);
}
