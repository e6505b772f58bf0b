use std::io;

use zed_workspace_dock::error::{AppError, NameIssue};
use zed_workspace_dock::workspace::{
    create_folders, ensure_code_workspace_path, ensure_output_directory_arg,
    resolve_create_folder, validate_dock_link_names, workspace_output_path, Mode, TargetProbe,
    WorkspaceFile, WorkspaceFolder,
};

fn named(name: &str, path: &str) -> WorkspaceFolder {
    WorkspaceFolder { name: Some(name.to_string()), path: path.to_string() }
}

fn dir(target: &str) -> TargetProbe {
    TargetProbe::Resolved { target: target.to_string(), is_dir: true }
}

#[test]
fn create_requires_force_to_overwrite_output_workspace() {
    let existing = "/tmp/ws/demo.code-workspace";
    let occupied = |p: String| p == existing;
    let error = workspace_output_path("/tmp/ws", Some("demo"), false, occupied).unwrap_err();
    assert!(matches!(error, AppError::WorkspaceAlreadyExists { path } if path == existing));
    let forced = workspace_output_path("/tmp/ws", Some("demo"), true, occupied).unwrap();
    assert_eq!(forced, existing);
}

#[test]
fn open_rejects_non_code_workspace_input() {
    let error = ensure_code_workspace_path("/tmp/t/demo.zed-workspace").unwrap_err();
    assert!(matches!(
        error,
        AppError::UnsupportedWorkspaceExtension { path } if path == "/tmp/t/demo.zed-workspace"
    ));
}

#[test]
fn create_rejects_output_file_path() {
    let error = ensure_output_directory_arg("/tmp/t/demo.code-workspace", false, false).unwrap_err();
    assert!(matches!(
        error,
        AppError::OutputPathLooksLikeWorkspaceFile { path } if path == "/tmp/t/demo.code-workspace"
    ));
}

#[test]
fn create_rejects_missing_folder_path() {
    let probe = TargetProbe::Failed { source: io::Error::new(io::ErrorKind::NotFound, "missing") };
    let error = resolve_create_folder("/tmp/t", "/tmp/t/missing", probe).unwrap_err();
    assert!(matches!(error, AppError::FolderResolve { path, .. } if path == "/tmp/t/missing"));
}

#[test]
fn create_rejects_non_directory_path() {
    let probe = TargetProbe::Resolved { target: "/tmp/t/file.txt".to_string(), is_dir: false };
    let error = resolve_create_folder("/tmp/t", "/tmp/t/file.txt", probe).unwrap_err();
    assert!(matches!(
        error,
        AppError::FolderTargetNotDirectory { path } if path == "/tmp/t/file.txt"
    ));
}

#[test]
fn create_folders_mode_allows_duplicate_basenames() {
    let paths = vec!["/tmp/t/left/api".to_string(), "/tmp/t/right/api".to_string()];
    let probes = vec![dir("/tmp/t/left/api"), dir("/tmp/t/right/api")];
    let folders = create_folders(&paths, "/tmp/p", Mode::Folders, probes).unwrap();
    let targets: Vec<&str> = folders.iter().map(|f| f.path.as_str()).collect();
    assert_eq!(targets, vec!["/tmp/t/left/api", "/tmp/t/right/api"]);
}

#[test]
fn open_rejects_parent_dir_link_name_before_launching_zed() {
    let error = validate_dock_link_names(&vec![named("../x", "api")]).unwrap_err();
    assert!(matches!(
        error,
        AppError::InvalidLinkName { name, reason: NameIssue::PathSeparator } if name == "../x"
    ));
}

#[test]
fn open_folders_mode_allows_invalid_link_name() {
    let workspace = WorkspaceFile { folders: vec![named("../x", "api")], zed_dock: None };
    assert_eq!(workspace.open_mode(None).unwrap(), Mode::Folders);
    let targets = workspace.folder_targets("/tmp/t/demo.code-workspace", vec![dir("/tmp/t/api")]).unwrap();
    assert_eq!(targets, vec!["/tmp/t/api"]);
}

#[test]
fn open_symlink_mode_rejects_marker_link_name_before_launching_zed() {
    let error = validate_dock_link_names(&vec![named(".zed-dock.json", "api")]).unwrap_err();
    assert!(matches!(
        error,
        AppError::InvalidLinkName { reason: NameIssue::ReservedMetadataName, .. }
    ));
    assert_eq!(NameIssue::ReservedMetadataName.reason(), "reserved dock metadata name");
}

#[test]
fn open_symlink_rejects_case_insensitive_duplicate_links_before_zed() {
    let error = validate_dock_link_names(&vec![named("api", "api"), named("API", "web")]).unwrap_err();
    assert!(matches!(error, AppError::DuplicateFolderName { name } if name == "API"));
}
