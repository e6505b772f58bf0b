use serde_json::Value;

use zed_workspace_dock::error::AppError;
use zed_workspace_dock::install::{
    ensure_install_command, is_target_binary, merge_managed_tasks, merge_tasks,
    prepare_templates, task_templates, tasks_from_text, zed_tasks_path, COMMAND_PLACEHOLDER,
};

const ZWD: &str = "/usr/local/bin/zwd";

fn task(label: &str, command: &str) -> Value {
    let mut object = serde_json::Map::new();
    object.insert("label".to_string(), Value::String(label.to_string()));
    object.insert("command".to_string(), Value::String(command.to_string()));
    Value::Object(object)
}

fn template(label: &str) -> Value {
    task(label, COMMAND_PLACEHOLDER)
}

fn labels(tasks: &[Value]) -> Vec<Option<&str>> {
    tasks.iter().map(|t| t["label"].as_str()).collect()
}

#[test]
fn is_target_binary_detects_debug_binary_paths() {
    assert!(is_target_binary("/tmp/project/target/debug/zwd"));
}

#[test]
fn is_target_binary_needs_target_before_profile() {
    assert!(is_target_binary("/repo/target/x86_64/release/zwd"));
    assert!(!is_target_binary("/repo/debug/target/zwd"));
    assert!(!is_target_binary("/usr/local/bin/zwd"));
    assert!(!is_target_binary("/repo/target/debugging/zwd"));
}

#[test]
fn zed_tasks_path_uses_zed_global_tasks_file_under_home() {
    assert_eq!(zed_tasks_path("/Users/alice"), "/Users/alice/.config/zed/tasks.json");
}

#[test]
fn installs_tasks_without_duplicate_labels() {
    let existing = tasks_from_text(
        r#"[
          {"label":"Existing","command":"echo","args":["ok"]},
          {"label":"Zed Workspace Dock: Open","command":"old","args":[]}
        ]"#,
    )
    .unwrap();

    let once = merge_tasks(existing, ZWD).unwrap();
    let twice = merge_tasks(once.clone(), ZWD).unwrap();

    let dock_task_count = twice
        .iter()
        .filter(|t| t["label"].as_str().map(|l| l.starts_with("Zed Workspace Dock:")).unwrap_or(false))
        .count();
    assert_eq!(dock_task_count, 3);
    assert!(twice.iter().any(|t| t["label"] == "Existing"));
    assert!(twice.iter().all(|t| t["command"] != "old"));
    assert_eq!(twice, once);
}

#[test]
fn task_templates_use_absolute_command_path() {
    let tasks = task_templates(ZWD).unwrap();

    assert_eq!(tasks.len(), 3);
    assert!(tasks.iter().all(|task| task["command"].as_str() == Some(ZWD)));
}

#[test]
fn task_templates_use_zed_file_argument() {
    let tasks = task_templates(ZWD).unwrap();

    assert!(tasks.iter().all(|task| task["args"][1] == "$ZED_FILE"));
}

#[test]
fn task_templates_replace_command_placeholder() {
    let tasks = task_templates(ZWD).unwrap();
    let content = serde_json::to_string(&tasks).unwrap();

    assert!(!content.contains(COMMAND_PLACEHOLDER));
}

#[test]
fn install_tasks_at_creates_root_array_when_missing() {
    let merged = merge_tasks(Vec::new(), ZWD).unwrap();

    assert_eq!(
        labels(&merged),
        vec![
            Some("Zed Workspace Dock: Open"),
            Some("Zed Workspace Dock: Open Folders"),
            Some("Zed Workspace Dock: Open Symlink Dock"),
        ]
    );
    assert!(Value::Array(merged).is_array());
}

#[test]
fn install_tasks_at_rejects_non_array_tasks_json() {
    assert!(matches!(tasks_from_text(r#"{"tasks":[]}"#), Err(AppError::InvalidTasksJsonRoot)));
    assert!(matches!(tasks_from_text("[1,"), Err(AppError::Json(_))));
    assert_eq!(tasks_from_text(r#"[{"label":"A"}]"#).unwrap().len(), 1);
}

#[test]
fn merge_keeps_unlabeled_tasks_in_order_then_templates() {
    let existing = vec![
        Value::Null,
        task("A", "a"),
        task("Zed Workspace Dock: Open Folders", "stale"),
        task("B", "b"),
    ];
    let merged = merge_tasks(existing, ZWD).unwrap();
    assert_eq!(
        labels(&merged),
        vec![
            None,
            Some("A"),
            Some("B"),
            Some("Zed Workspace Dock: Open"),
            Some("Zed Workspace Dock: Open Folders"),
            Some("Zed Workspace Dock: Open Symlink Dock"),
        ]
    );
}

#[test]
fn prepare_rejects_malformed_templates() {
    let bad = vec![template("a"), Value::Array(vec![])];
    assert!(matches!(prepare_templates(bad, ZWD), Err(AppError::InvalidTaskTemplateRoot)));

    let bad = vec![task("a", "zwd"), Value::Null];
    match prepare_templates(bad, ZWD) {
        Err(AppError::InvalidTaskTemplateCommand { placeholder }) => {
            assert_eq!(placeholder, COMMAND_PLACEHOLDER)
        }
        other => panic!("unexpected result: {other:?}"),
    }

    let mut unlabeled = serde_json::Map::new();
    unlabeled.insert("command".to_string(), Value::String(COMMAND_PLACEHOLDER.to_string()));
    let prepared = prepare_templates(vec![template("a"), Value::Object(unlabeled)], ZWD).unwrap();
    assert_eq!(prepared[1]["command"], ZWD);
    assert_eq!(prepared[0]["label"], "a");
    assert!(matches!(
        merge_managed_tasks(vec![], prepared),
        Err(AppError::InvalidTaskTemplateLabel)
    ));
}

#[test]
fn managed_merge_drops_tasks_with_template_labels() {
    let merged =
        merge_managed_tasks(vec![task("A", "a"), task("B", "b")], vec![task("A", "new")]).unwrap();
    assert_eq!(labels(&merged), vec![Some("B"), Some("A")]);
    assert_eq!(merged[1]["command"], "new");
}

#[test]
fn install_command_must_exist() {
    assert!(ensure_install_command("/usr/local/bin/zwd", true).is_ok());
    assert!(matches!(
        ensure_install_command("/missing/zwd", false),
        Err(AppError::InstallCommandNotFound { path }) if path == "/missing/zwd"
    ));
}
