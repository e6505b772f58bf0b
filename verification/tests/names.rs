use zed_workspace_dock::error::{AppError, NameIssue};
use zed_workspace_dock::workspace::{
    ensure_code_workspace_path, registered_workspaces_dir_in, validate_link_name,
    validate_workspace_name, workspace_path_in, LinkName,
};

fn link_issue(name: &str) -> Option<NameIssue> {
    match LinkName::new(name.to_string()) {
        Ok(_) => None,
        Err(AppError::InvalidLinkName { name: n, reason }) => {
            assert_eq!(n, name);
            Some(reason)
        }
        Err(other) => panic!("unexpected error: {other:?}"),
    }
}

#[test]
fn rejects_reserved_link_name() {
    let reason = link_issue("..").unwrap();
    assert!(reason.reason().contains("reserved relative path segment"));
}

#[test]
fn rejects_backslash_link_name() {
    let reason = link_issue("api\\web").unwrap();
    assert!(reason.reason().contains("path separator"));
}

#[test]
fn rejects_marker_link_name() {
    let reason = link_issue(".zed-dock.json").unwrap();
    assert!(reason.reason().contains("reserved dock metadata name"));
}

#[test]
fn rejects_marker_link_name_case_insensitively() {
    let reason = link_issue(".ZED-DOCK.JSON").unwrap();
    assert!(reason.reason().contains("reserved dock metadata name"));
    assert!(matches!(
        validate_link_name(".ZED-DOCK.JSON"),
        Err(AppError::InvalidLinkName { name, reason: NameIssue::ReservedMetadataName })
            if name == ".ZED-DOCK.JSON"
    ));
}

#[test]
fn rejects_dock_lock_file_as_link_name() {
    for name in [".zwd-lock.json", ".ZWD-LOCK.JSON", ".Zwd-Lock.Json"] {
        assert!(matches!(
            validate_link_name(name),
            Err(AppError::InvalidLinkName { name: n, reason: NameIssue::ReservedMetadataName })
                if n == name
        ));
        assert_eq!(link_issue(name), Some(NameIssue::ReservedMetadataName));
    }
    assert!(validate_link_name("zwd-lock.json").is_ok());
}

#[test]
fn link_name_rules_cover_each_issue() {
    assert_eq!(link_issue(""), Some(NameIssue::Empty));
    assert_eq!(link_issue("."), Some(NameIssue::ReservedSegment));
    assert_eq!(link_issue("a\0b"), Some(NameIssue::NulByte));
    assert_eq!(link_issue("/tmp/x"), Some(NameIssue::PathSeparator));
    assert_eq!(link_issue("../x"), Some(NameIssue::PathSeparator));
    assert_eq!(link_issue("api"), None);
    assert_eq!(link_issue(".zwd-lock"), None);
    assert_eq!(link_issue("..."), None);
    assert_eq!(link_issue("zed-dock.json"), None);
}

#[test]
fn link_name_keeps_its_text() {
    let name = LinkName::new("Api Server".to_string()).unwrap();
    assert_eq!(name.as_str(), "Api Server");
}

#[test]
fn rejects_workspace_name_with_extension() {
    match workspace_path_in("/tmp/workspaces", "demo.code-workspace") {
        Err(AppError::InvalidWorkspaceName { name, reason }) => {
            assert_eq!(name, "demo.code-workspace");
            assert!(reason.reason().contains("must not include an extension"));
        }
        other => panic!("unexpected result: {other:?}"),
    }
}

#[test]
fn workspace_name_rules_cover_each_issue() {
    let issue = |name: &str| match validate_workspace_name(name) {
        Ok(()) => None,
        Err(AppError::InvalidWorkspaceName { reason, .. }) => Some(reason),
        Err(other) => panic!("unexpected error: {other:?}"),
    };
    assert_eq!(issue(""), Some(NameIssue::Empty));
    assert_eq!(issue(".."), Some(NameIssue::ReservedSegment));
    assert_eq!(issue("a\0"), Some(NameIssue::NulByte));
    assert_eq!(issue("a/b"), Some(NameIssue::PathSeparator));
    assert_eq!(issue("a\\b"), Some(NameIssue::PathSeparator));
    assert_eq!(issue("a.b"), Some(NameIssue::HasExtension));
    assert_eq!(issue("work"), None);
}

#[test]
fn workspace_path_in_appends_extension() {
    assert_eq!(
        workspace_path_in("/tmp/workspaces", "demo").unwrap(),
        "/tmp/workspaces/demo.code-workspace"
    );
    assert_eq!(
        workspace_path_in("/tmp/workspaces/", "demo").unwrap(),
        "/tmp/workspaces/demo.code-workspace"
    );
}

#[test]
fn registered_workspaces_dir_uses_app_config_subdirectory() {
    assert_eq!(
        registered_workspaces_dir_in("/tmp/config"),
        "/tmp/config/zed-workspace-dock/workspaces"
    );
}

#[test]
fn rejects_non_code_workspace_paths() {
    match ensure_code_workspace_path("/tmp/demo.zed-workspace") {
        Err(AppError::UnsupportedWorkspaceExtension { path }) => {
            assert_eq!(path, "/tmp/demo.zed-workspace")
        }
        other => panic!("unexpected result: {other:?}"),
    }
    assert!(ensure_code_workspace_path("/tmp/demo.code-workspace").is_ok());
    assert!(ensure_code_workspace_path("/tmp/.code-workspace").is_err());
}
