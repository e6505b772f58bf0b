use zed_workspace_dock::edit::{
    edit_next, plan_workspace_edit, EditAction, EditEvent, EditOperation, EditState,
};
use zed_workspace_dock::workspace::WorkspaceFolder;

fn folder(name: Option<&str>, path: &str) -> WorkspaceFolder {
    WorkspaceFolder { name: name.map(str::to_string), path: path.to_string() }
}

fn strings(v: &[&str]) -> Vec<String> {
    v.iter().map(|s| s.to_string()).collect()
}

fn paths(folders: &[WorkspaceFolder]) -> Vec<&str> {
    folders.iter().map(|f| f.path.as_str()).collect()
}

#[test]
fn add_appends_only_new_targets() {
    let folders = vec![folder(Some("api"), "../api")];
    let current = strings(&["/p/api"]);
    let targets = strings(&["/p/web", "/p/api/", "/p/web"]);
    let plan = plan_workspace_edit(folders, current, &targets, EditOperation::Add);
    assert_eq!(paths(&plan.folders), vec!["../api", "/p/web"]);
    assert_eq!(plan.folders[0].name.as_deref(), Some("api"));
    assert_eq!(plan.folders[1].name, None);
    assert_eq!(plan.targets, strings(&["/p/api", "/p/web"]));
    assert_eq!(plan.changed, strings(&["/p/web"]));
    assert_eq!(plan.unchanged, strings(&["/p/api/", "/p/web"]));
}

#[test]
fn remove_drops_every_folder_for_a_target() {
    let folders = vec![folder(None, "/p/api"), folder(Some("web"), "../web"), folder(None, "/p/api")];
    let current = strings(&["/p/api", "/p/web", "/p/api"]);
    let targets = strings(&["/p/api", "/p/docs"]);
    let plan = plan_workspace_edit(folders, current, &targets, EditOperation::Remove);
    assert_eq!(paths(&plan.folders), vec!["../web"]);
    assert_eq!(plan.changed, strings(&["/p/api"]));
    assert_eq!(plan.unchanged, strings(&["/p/docs"]));
}

#[test]
fn editing_twice_changes_nothing_the_second_time() {
    for operation in [EditOperation::Add, EditOperation::Remove] {
        let folders = vec![folder(None, "/p/api"), folder(None, "/p/web")];
        let current = strings(&["/p/api", "/p/web"]);
        let targets = strings(&["/p/web", "/p/docs"]);
        let once = plan_workspace_edit(folders, current, &targets, operation);
        let first = paths(&once.folders).iter().map(|s| s.to_string()).collect::<Vec<_>>();
        let twice = plan_workspace_edit(once.folders, once.targets, &targets, operation);
        assert_eq!(paths(&twice.folders), first.iter().map(String::as_str).collect::<Vec<_>>());
        assert!(twice.changed.is_empty());
        assert_eq!(twice.unchanged, targets);
    }
}

#[test]
fn failed_dock_sync_restores_the_previous_file() {
    let steps = [
        (EditEvent::Planned { changed: true }, EditAction::CheckDock),
        (EditEvent::DockChecked { dock_exists: true, symlink_mode: false }, EditAction::ResolveDockFolders),
        (EditEvent::DockFoldersResolved, EditAction::WriteFile),
        (EditEvent::Written, EditAction::SyncDock),
        (EditEvent::DockSyncFailed, EditAction::RestorePreviousFile),
        (EditEvent::Restored, EditAction::FailWithSyncError),
    ];
    let mut state = EditState::Start;
    for (event, expected) in steps {
        let (next, action) = edit_next(state, event).unwrap();
        assert_eq!(action, expected);
        state = next;
    }
    assert_eq!(state, EditState::Done);
}

#[test]
fn edit_without_dock_writes_without_sync_and_unchanged_edit_only_reports() {
    let (state, action) = edit_next(EditState::Start, EditEvent::Planned { changed: false }).unwrap();
    assert_eq!((state, action), (EditState::Done, EditAction::Report { dock_synchronized: false }));
    let (state, action) = edit_next(
        EditState::CheckingDock,
        EditEvent::DockChecked { dock_exists: false, symlink_mode: false },
    )
    .unwrap();
    assert_eq!(action, EditAction::WriteFile);
    let (state, action) = edit_next(state, EditEvent::Written).unwrap();
    assert_eq!((state, action), (EditState::Done, EditAction::Report { dock_synchronized: false }));
    assert_eq!(edit_next(EditState::Done, EditEvent::Written), None);
    assert_eq!(
        edit_next(EditState::SyncingDock, EditEvent::DockSynced { synchronized: true }),
        Some((EditState::Done, EditAction::Report { dock_synchronized: true }))
    );
}
