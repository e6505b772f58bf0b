use std::io;

use zed_workspace_dock::error::{AppError, NameIssue};
use zed_workspace_dock::workspace::{
    create_folders, DockConfig, Mode, TargetProbe, WorkspaceFile, WorkspaceFolder,
};

fn folder(name: Option<&str>, path: &str) -> WorkspaceFolder {
    WorkspaceFolder { name: name.map(str::to_string), path: path.to_string() }
}

fn dir(target: &str) -> TargetProbe {
    TargetProbe::Resolved { target: target.to_string(), is_dir: true }
}

fn file(target: &str) -> TargetProbe {
    TargetProbe::Resolved { target: target.to_string(), is_dir: false }
}

fn missing() -> TargetProbe {
    TargetProbe::Failed { source: io::Error::new(io::ErrorKind::NotFound, "missing") }
}

fn workspace(folders: Vec<WorkspaceFolder>) -> WorkspaceFile {
    WorkspaceFile { folders, zed_dock: None }
}

#[test]
fn parses_workspace_with_dock_mode() {
    let workspace = WorkspaceFile {
        folders: vec![folder(Some("api"), "../api")],
        zed_dock: Some(DockConfig { mode: Some(Mode::Symlink) }),
    };

    assert_eq!(workspace.open_mode(None).unwrap(), Mode::Symlink);
}

#[test]
fn rejects_missing_mode_when_dock_config_exists() {
    let workspace = WorkspaceFile { folders: vec![], zed_dock: Some(DockConfig { mode: None }) };

    assert!(matches!(workspace.open_mode(None), Err(AppError::MissingDockMode)));
}

#[test]
fn open_mode_prefers_cli_then_file_then_folders() {
    let plain = workspace(vec![]);
    assert_eq!(plain.open_mode(None).unwrap(), Mode::Folders);
    assert_eq!(plain.open_mode(Some(Mode::Symlink)).unwrap(), Mode::Symlink);
    let missing = WorkspaceFile { folders: vec![], zed_dock: Some(DockConfig { mode: None }) };
    assert_eq!(missing.open_mode(Some(Mode::Folders)).unwrap(), Mode::Folders);
}

#[test]
fn folder_paths_join_relative_paths_to_workspace_dir() {
    let ws = workspace(vec![folder(Some("api"), "../api"), folder(None, "/srv/web")]);
    let paths = ws.folder_paths("/home/me/workspace/demo.code-workspace").unwrap();
    assert_eq!(paths, vec!["/home/me/workspace/../api", "/srv/web"]);
    let paths = ws.folder_paths("demo.code-workspace").unwrap();
    assert_eq!(paths, vec!["../api", "/srv/web"]);
    assert!(matches!(ws.folder_paths("/"), Err(AppError::MissingWorkspaceParent)));
}

#[test]
fn resolves_relative_folder_paths_from_workspace_location() {
    let ws = workspace(vec![folder(Some("api"), "../api")]);

    let folders = ws
        .resolved_dock_folders("/tmp/t/workspace/demo.code-workspace", vec![dir("/tmp/t/api")])
        .unwrap();

    assert_eq!(folders[0].name.as_str(), "api");
    assert_eq!(folders[0].target, "/tmp/t/api");
}

#[test]
fn resolved_dock_folders_name_unnamed_folders_after_targets() {
    let ws = workspace(vec![folder(None, "api"), folder(None, "web")]);
    let folders = ws
        .resolved_dock_folders("/t/demo.code-workspace", vec![dir("/t/api"), dir("/t/web")])
        .unwrap();
    assert_eq!(folders.len(), 2);
    assert_eq!(folders[1].name.as_str(), "web");
    assert_eq!(folders[1].target, "/t/web");
}

#[test]
fn folder_targets_ignore_invalid_link_names() {
    let ws = workspace(vec![folder(Some("../x"), "api")]);

    let folders = ws.folder_targets("/tmp/t/demo.code-workspace", vec![dir("/tmp/t/api")]).unwrap();

    assert_eq!(folders, vec!["/tmp/t/api".to_string()]);
}

#[test]
fn folder_targets_report_unresolved_and_non_directory_targets() {
    let ws = workspace(vec![folder(None, "api"), folder(None, "notes")]);
    match ws.folder_targets("/t/demo.code-workspace", vec![dir("/t/api"), file("/t/notes")]) {
        Err(AppError::FolderTargetNotDirectory { path }) => assert_eq!(path, "/t/notes"),
        other => panic!("unexpected result: {other:?}"),
    }
    match ws.folder_targets("/t/demo.code-workspace", vec![missing(), file("/t/notes")]) {
        Err(AppError::FolderResolve { path, .. }) => assert_eq!(path, "/t/api"),
        other => panic!("unexpected result: {other:?}"),
    }
}

#[test]
fn rejects_duplicate_link_names() {
    let ws = workspace(vec![folder(Some("api"), "first"), folder(Some("api"), "second")]);

    let error = ws
        .resolved_dock_folders("/t/demo.code-workspace", vec![dir("/t/first"), dir("/t/second")])
        .unwrap_err();

    assert!(matches!(error, AppError::DuplicateFolderName { name } if name == "api"));
}

#[test]
fn rejects_case_insensitive_duplicate_link_names() {
    let ws = workspace(vec![folder(Some("api"), "first"), folder(Some("API"), "second")]);

    let error = ws
        .resolved_dock_folders("/t/demo.code-workspace", vec![dir("/t/first"), dir("/t/second")])
        .unwrap_err();

    assert!(matches!(error, AppError::DuplicateFolderName { name } if name == "API"));
}

#[test]
fn rejects_parent_dir_link_name() {
    let ws = workspace(vec![folder(Some("../x"), "api")]);

    let error = ws.resolved_dock_folders("/t/demo.code-workspace", vec![dir("/t/api")]).unwrap_err();

    assert!(matches!(error, AppError::InvalidLinkName { name, .. } if name == "../x"));
}

#[test]
fn rejects_absolute_link_name() {
    let ws = workspace(vec![folder(Some("/tmp/x"), "api")]);

    let error = ws.resolved_dock_folders("/t/demo.code-workspace", vec![dir("/t/api")]).unwrap_err();

    assert!(matches!(
        error,
        AppError::InvalidLinkName { name, reason: NameIssue::PathSeparator } if name == "/tmp/x"
    ));
}

#[test]
fn resolve_errors_come_before_name_errors() {
    let ws = workspace(vec![folder(Some("../x"), "api")]);
    let error = ws.resolved_dock_folders("/t/demo.code-workspace", vec![missing()]).unwrap_err();
    assert!(matches!(error, AppError::FolderResolve { path, .. } if path == "/t/api"));
}

#[test]
fn create_folders_record_canonical_paths_without_names() {
    let paths = vec!["api".to_string(), "/srv/web".to_string()];
    let folders =
        create_folders(&paths, "/work", Mode::Symlink, vec![dir("/work/api"), dir("/srv/web")])
            .unwrap();
    assert_eq!(folders.len(), 2);
    assert!(folders[0].name.is_none());
    assert_eq!(folders[0].path, "/work/api");
    assert_eq!(folders[1].path, "/srv/web");
}

#[test]
fn create_symlink_mode_rejects_duplicate_basenames() {
    let paths = vec!["left/api".to_string(), "right/api".to_string()];
    let probes = || vec![dir("/w/left/api"), dir("/w/right/api")];
    let error = create_folders(&paths, "/w", Mode::Symlink, probes()).unwrap_err();
    assert!(matches!(error, AppError::DuplicateFolderName { name } if name == "api"));
    let folders = create_folders(&paths, "/w", Mode::Folders, probes()).unwrap();
    assert_eq!(folders.len(), 2);
}

#[test]
fn create_rejects_empty_and_unusable_paths() {
    let paths = vec!["".to_string()];
    let error = create_folders(&paths, "/w", Mode::Folders, vec![dir("/w")]).unwrap_err();
    assert!(matches!(error, AppError::EmptyFolderPath));
    let paths = vec!["notes.txt".to_string()];
    let error = create_folders(&paths, "/w", Mode::Folders, vec![file("/w/notes.txt")]).unwrap_err();
    assert!(matches!(error, AppError::FolderTargetNotDirectory { path } if path == "/w/notes.txt"));
    let error = create_folders(&paths, "/w", Mode::Folders, vec![missing()]).unwrap_err();
    assert!(matches!(error, AppError::FolderResolve { path, .. } if path == "/w/notes.txt"));
}
