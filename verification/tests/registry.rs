use std::cell::RefCell;

use zed_workspace_dock::error::AppError;
use zed_workspace_dock::lifecycle::{
    delete_next, sync_next, DeleteAction, DockStatus, SyncAction, SyncEvent, SyncState,
};
use zed_workspace_dock::workspace::{
    generated_workspace_name, generated_workspace_name_from_bytes, generated_workspace_path_in,
    registered_workspace_path, registered_workspaces_from_entries, resolve_workspace_reference,
    strip_workspace_suffix_of, workspace_document, workspace_output_path, Mode, WorkspaceFolder,
};

#[test]
fn generated_workspace_name_uses_short_hex_hash() {
    let name = generated_workspace_name_from_bytes([0xab, 0xcd, 0, 1, 2, 3, 4, 0xff]);

    assert_eq!(name, "ws-abcd0001020304ff");
}

#[test]
fn generated_names_have_the_expected_shape() {
    let name = generated_workspace_name().unwrap();
    assert!(name.starts_with("ws-"));
    assert_eq!(name.len(), 19);
    assert!(name[3..].chars().all(|c| c.is_ascii_digit() || ('a'..='f').contains(&c)));
}

#[test]
fn generated_path_skips_taken_names_and_gives_up_after_sixteen() {
    let asked = RefCell::new(0);
    let path = generated_workspace_path_in("/reg", |p: String| {
        *asked.borrow_mut() += 1;
        assert!(p.starts_with("/reg/ws-") && p.ends_with(".code-workspace"));
        *asked.borrow() < 3
    })
    .unwrap();
    assert_eq!(*asked.borrow(), 3);
    assert!(path.starts_with("/reg/ws-"));

    let asked = RefCell::new(0);
    let error = generated_workspace_path_in("/reg", |_p: String| {
        *asked.borrow_mut() += 1;
        true
    })
    .unwrap_err();
    assert!(matches!(error, AppError::WorkspaceNameGenerationExhausted));
    assert_eq!(*asked.borrow(), 16);
}

#[test]
fn create_registered_workspace_requires_force_to_overwrite() {
    let error = workspace_output_path("/reg", Some("demo"), false, |_p: String| true).unwrap_err();
    assert!(matches!(
        error,
        AppError::WorkspaceAlreadyExists { path } if path == "/reg/demo.code-workspace"
    ));
}

#[test]
fn create_registered_workspace_overwrites_with_force() {
    let path = workspace_output_path("/reg", Some("demo"), true, |_p: String| true).unwrap();
    assert_eq!(path, "/reg/demo.code-workspace");
    let document = workspace_document(
        Mode::Folders,
        vec![WorkspaceFolder { name: None, path: "/t/api".to_string() }],
    );
    assert_eq!(document.open_mode(None).unwrap(), Mode::Folders);
    assert_eq!(document.folders[0].path, "/t/api");
}

#[test]
fn create_registered_workspace_canonicalizes_folder_paths() {
    let path = workspace_output_path("/reg", Some("demo"), false, |_p: String| false).unwrap();
    assert_eq!(path, "/reg/demo.code-workspace");
    let unnamed = workspace_output_path("/reg", None, false, |_p: String| false).unwrap();
    assert!(unnamed.starts_with("/reg/ws-"));
}

#[test]
fn list_registered_workspaces_returns_sorted_code_workspace_files() {
    let entries = vec![
        "/reg/b.code-workspace".to_string(),
        "/reg/ignored.txt".to_string(),
        "/reg/a.code-workspace".to_string(),
        "/reg/.code-workspace".to_string(),
    ];

    let workspaces = registered_workspaces_from_entries(&entries);

    let listed: Vec<(String, String)> =
        workspaces.into_iter().map(|w| (w.name, w.path)).collect();
    assert_eq!(
        listed,
        vec![
            ("a".to_string(), "/reg/a.code-workspace".to_string()),
            ("b".to_string(), "/reg/b.code-workspace".to_string()),
        ]
    );
}

#[test]
fn listing_orders_by_bytes() {
    let entries = vec![
        "/r/b.code-workspace".to_string(),
        "/r/B.code-workspace".to_string(),
        "/r/ä.code-workspace".to_string(),
        "/r/a.code-workspace".to_string(),
    ];
    let names: Vec<String> =
        registered_workspaces_from_entries(&entries).into_iter().map(|w| w.name).collect();
    assert_eq!(names, vec!["B", "a", "b", "ä"]);
}

#[test]
fn open_accepts_registered_name_with_or_without_extension() {
    let registered = "/cfg/zed-workspace-dock/workspaces/work.code-workspace";
    let seen = |p: String| p == registered;
    assert_eq!(resolve_workspace_reference("work", "/cfg", seen).unwrap(), registered);
    assert_eq!(
        resolve_workspace_reference("work.code-workspace", "/cfg", seen).unwrap(),
        registered
    );
    assert_eq!(strip_workspace_suffix_of("work.code-workspace"), "work");
    assert_eq!(
        registered_workspace_path("/cfg", "work").unwrap(),
        registered
    );
}

#[test]
fn open_falls_back_to_local_file_then_reports_missing() {
    let local = |p: String| p == "work.code-workspace";
    assert_eq!(
        resolve_workspace_reference("work.code-workspace", "/cfg", local).unwrap(),
        "work.code-workspace"
    );
    let nothing = |_p: String| false;
    assert!(matches!(
        resolve_workspace_reference("work", "/cfg", nothing),
        Err(AppError::RegisteredWorkspaceNotFound { name }) if name == "work"
    ));
    assert_eq!(
        resolve_workspace_reference("./work.code-workspace", "/cfg", nothing).unwrap(),
        "./work.code-workspace"
    );
    assert!(matches!(
        resolve_workspace_reference("my.work", "/cfg", nothing),
        Err(AppError::InvalidWorkspaceName { .. })
    ));
}

#[test]
fn delete_previews_unless_forced_and_refuses_inside_the_dock() {
    let owned = Some(DockStatus::Owned);
    assert_eq!(delete_next("/w", true, None, None).unwrap(), DeleteAction::CheckDock);
    assert_eq!(delete_next("/w", false, owned, None).unwrap(), DeleteAction::ReportDryRun);
    assert_eq!(delete_next("/w", true, owned, None).unwrap(), DeleteAction::CheckCurrentDirectory);
    assert!(matches!(
        delete_next("/w", true, owned, Some(true)),
        Err(AppError::CurrentDirectoryIsDock { path }) if path == "/w"
    ));
    assert_eq!(delete_next("/w", true, owned, Some(false)).unwrap(), DeleteAction::RemoveDockThenFile);
    assert_eq!(
        delete_next("/w", true, Some(DockStatus::Absent), Some(false)).unwrap(),
        DeleteAction::RemoveFile
    );
}

#[test]
fn delete_stops_on_a_dock_that_fails_the_ownership_check() {
    for force in [false, true] {
        for cwd in [None, Some(false), Some(true)] {
            assert_eq!(
                delete_next("/w", force, Some(DockStatus::NotOwned), cwd).unwrap(),
                DeleteAction::FailWithDockError
            );
        }
    }
}

#[test]
fn dock_sync_rolls_back_after_a_failed_reconcile() {
    let steps = [
        (SyncEvent::DockChecked { exists: true }, SyncAction::ReadLockFolders),
        (SyncEvent::LockFoldersRead, SyncAction::Reconcile),
        (SyncEvent::ReconcileFailed, SyncAction::RollBackToLockedFolders),
        (SyncEvent::RolledBack, SyncAction::FailWithReconcileError),
    ];
    let mut state = SyncState::Start;
    for (event, expected) in steps {
        let (next, action) = sync_next(state, event).unwrap();
        assert_eq!(action, expected);
        state = next;
    }
    assert_eq!(state, SyncState::Done);
    assert_eq!(
        sync_next(SyncState::Start, SyncEvent::DockChecked { exists: false }),
        Some((SyncState::Done, SyncAction::Report { synchronized: false }))
    );
    assert_eq!(
        sync_next(SyncState::Reconciling, SyncEvent::Reconciled),
        Some((SyncState::Done, SyncAction::Report { synchronized: true }))
    );
    assert_eq!(sync_next(SyncState::Start, SyncEvent::Reconciled), None);
}
