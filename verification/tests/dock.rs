use std::io;

use zed_workspace_dock::dock::{
    absolute_workspace_path, dock_name_of, dock_root_in, ensure_current_dock,
    ensure_dock_directory, ensure_link_path_free, lock_for, lock_from_document,
    locked_links_to_remove, reconcile_plan, resolved_folders_from_lock, slugify,
    validate_owned_dock, DockEntry, DockLink, DockLock, LinkEntry, LinkTarget, LOCK_FILE,
    LOCK_VERSION,
};
use zed_workspace_dock::error::AppError;
use zed_workspace_dock::workspace::{LinkName, ResolvedFolder};

fn resolved(name: &str, target: &str) -> ResolvedFolder {
    ResolvedFolder { name: LinkName::new(name.to_string()).unwrap(), target: target.to_string() }
}

fn lock(workspace: &str, links: &[(&str, &str)]) -> DockLock {
    DockLock {
        version: LOCK_VERSION,
        workspace_path: workspace.to_string(),
        links: links
            .iter()
            .map(|(n, t)| DockLink { name: n.to_string(), target: t.to_string() })
            .collect(),
    }
}

fn entry(name: &str, is_symlink: bool) -> DockEntry {
    DockEntry { name: name.to_string(), is_symlink }
}

fn link(name: &str, target: &str) -> LinkEntry {
    LinkEntry { name: name.to_string(), target: LinkTarget::Points(target.to_string()) }
}

#[test]
fn slugify_keeps_lowercase_alphanumerics_and_single_dashes() {
    assert_eq!(slugify("demo"), "demo");
    assert_eq!(slugify("My Project!"), "my-project");
    assert_eq!(slugify("--a__b--"), "a-b");
    assert_eq!(slugify("Été 2024"), "t-2024");
    assert_eq!(slugify("!!!"), "workspace");
    assert_eq!(slugify(""), "workspace");
}

#[test]
fn slugify_is_idempotent() {
    for value in ["My Project!", "--a__b--", "Été 2024", "", "a-b-c", "X"] {
        let once = slugify(value);
        assert_eq!(slugify(&once), once);
    }
}

#[test]
fn dock_name_is_slug_and_short_hash() {
    let name = dock_name_of("/tmp/demo.code-workspace", "/tmp/demo.code-workspace");
    let (slug, hash) = name.split_at(5);
    assert_eq!(slug, "demo-");
    assert_eq!(hash.len(), 12);
    assert!(hash.chars().all(|c| c.is_ascii_hexdigit() && !c.is_ascii_uppercase()));
    let other = dock_name_of("/tmp/demo.code-workspace", "/elsewhere/demo.code-workspace");
    assert_ne!(name, other);
}

#[test]
fn dock_name_uses_sha256_of_absolute_path() {
    // sha256("abc") = ba7816bf8f01cfea414140de5dae2223...
    assert_eq!(dock_name_of("abc", "abc"), "abc-ba7816bf8f01");
}

#[test]
fn rebuilds_dock_idempotently() {
    let first = dock_root_in("/cache", "/w/demo.code-workspace", "/w/demo.code-workspace");
    let second = dock_root_in("/cache", "/w/demo.code-workspace", "/w/demo.code-workspace");
    assert_eq!(first, second);
    assert!(first.starts_with("/cache/zwd/docks/demo-"));

    let lock = lock_for("/w/demo.code-workspace", &vec![resolved("api", "/w/api")]);
    let entries = vec![LOCK_FILE.to_string(), "api".to_string()];
    assert_eq!(locked_links_to_remove(&lock, &entries), vec!["api".to_string()]);
}

#[test]
fn absolute_workspace_path_prefers_canonical() {
    assert_eq!(absolute_workspace_path("x.code-workspace", None, "/home/me"), "/home/me/x.code-workspace");
    assert_eq!(absolute_workspace_path("/abs/x", None, "/home/me"), "/abs/x");
    assert_eq!(absolute_workspace_path("x", Some("/real/x".to_string()), "/home/me"), "/real/x");
}

#[test]
fn aborts_when_lock_belongs_to_another_workspace() {
    let lock = lock("/t/other.code-workspace", &[("api", "/t/api")]);
    let error = validate_owned_dock("/dock", "/t/demo.code-workspace", lock, &vec![]).unwrap_err();
    assert!(matches!(
        error,
        AppError::DockWorkspacePathMismatch { lock_workspace_path, workspace_path }
            if lock_workspace_path == "/t/other.code-workspace"
                && workspace_path == "/t/demo.code-workspace"
    ));
}

#[test]
fn aborts_when_dock_exists_without_lock() {
    let error = lock_from_document("/cache/zwd/docks/demo-0123", None).unwrap_err();
    assert!(matches!(error, AppError::DockMissingLock { path } if path == "/cache/zwd/docks/demo-0123"));
}

#[test]
fn rejects_unsupported_lock_versions() {
    let mut stale = lock("/t/demo.code-workspace", &[]);
    stale.version = 2;
    assert!(matches!(
        lock_from_document("/dock", Some(stale)),
        Err(AppError::UnsupportedDockLockVersion { version: 2 })
    ));
    assert!(lock_from_document("/dock", Some(lock("/t/d", &[]))).is_ok());
}

#[test]
fn aborts_when_lock_owned_dock_has_unmanaged_content() {
    let lock = lock("/t/demo.code-workspace", &[("api", "/t/api")]);
    let entries = vec![entry(LOCK_FILE, false), entry("api", true), entry("notes.txt", false)];
    let error = validate_owned_dock("/dock", "/t/demo.code-workspace", lock, &entries).unwrap_err();
    assert!(matches!(error, AppError::UnmanagedDockContent { path } if path == "/dock/notes.txt"));
}

#[test]
fn validates_owned_dock_and_managed_symlinks() {
    let owned = lock("/t/demo.code-workspace", &[("api", "/t/api")]);
    let entries = vec![entry(LOCK_FILE, false), entry("api", true)];
    let lock_back = validate_owned_dock("/dock", "/t//demo.code-workspace", owned, &entries).unwrap();
    assert_eq!(lock_back.links.len(), 1);

    let owned = lock("/t/demo.code-workspace", &[("api", "/t/api")]);
    let entries = vec![entry("api", false)];
    let error = validate_owned_dock("/dock", "/t/demo.code-workspace", owned, &entries).unwrap_err();
    assert!(matches!(error, AppError::ManagedDockEntryNotSymlink { path } if path == "/dock/api"));
}

#[test]
fn lock_round_trips_folders() {
    let folders = vec![resolved("api", "/t/api"), resolved("web", "/t/web")];
    let lock = lock_for("/t/demo.code-workspace", &folders);
    assert_eq!(lock.version, LOCK_VERSION);
    assert_eq!(lock.workspace_path, "/t/demo.code-workspace");
    let back = resolved_folders_from_lock(&lock).unwrap();
    assert_eq!(back.len(), 2);
    assert_eq!(back[1].name.as_str(), "web");
    assert_eq!(back[1].target, "/t/web");

    let tampered = self::lock("/t/d", &[("ok", "/t/ok"), ("../x", "/t/x")]);
    assert!(matches!(
        resolved_folders_from_lock(&tampered),
        Err(AppError::InvalidLinkName { name, .. }) if name == "../x"
    ));
}

#[test]
fn locked_removals_skip_lock_file_and_unlisted_entries() {
    let owned = lock("/t/d", &[("api", "/t/api"), (LOCK_FILE, "/x")]);
    let entries = vec![LOCK_FILE.to_string(), "notes".to_string(), "api".to_string()];
    assert_eq!(locked_links_to_remove(&owned, &entries), vec!["api".to_string()]);
}

#[test]
fn reconcile_keeps_matching_links_and_replaces_stale_ones() {
    let folders = vec![resolved("api", "/t/api"), resolved("web", "/t/web"), resolved("docs", "/t/docs")];
    let entries = vec![
        link(LOCK_FILE, "/ignored"),
        link("api", "/t/api/"),
        link("web", "/old/web"),
        link("gone", "/t/gone"),
    ];
    let plan = reconcile_plan(&folders, entries);
    assert!(plan.fault.is_none());
    assert_eq!(plan.remove, vec!["web".to_string(), "gone".to_string()]);
    assert_eq!(plan.create, vec![1, 2]);
}

#[test]
fn reconcile_stops_on_unreadable_needed_link() {
    let folders = vec![resolved("api", "/t/api")];
    let entries = vec![
        LinkEntry {
            name: "other".to_string(),
            target: LinkTarget::Unreadable(io::Error::new(io::ErrorKind::Other, "a")),
        },
        LinkEntry {
            name: "api".to_string(),
            target: LinkTarget::Unreadable(io::Error::new(io::ErrorKind::Other, "b")),
        },
    ];
    let plan = reconcile_plan(&folders, entries);
    assert_eq!(plan.remove, vec!["other".to_string()]);
    assert!(plan.create.is_empty());
    match plan.fault {
        Some(AppError::Io(e)) => assert_eq!(e.to_string(), "b"),
        other => panic!("unexpected result: {other:?}"),
    }
}

#[test]
fn directory_and_link_checks() {
    assert!(ensure_dock_directory("/dock", true).is_ok());
    assert!(matches!(
        ensure_dock_directory("/dock", false),
        Err(AppError::DockPathNotDirectory { path }) if path == "/dock"
    ));
    assert!(ensure_link_path_free("/dock/api", false).is_ok());
    assert!(matches!(
        ensure_link_path_free("/dock/api", true),
        Err(AppError::DockLinkPathExists { path }) if path == "/dock/api"
    ));
}

#[test]
fn current_dock_must_hold_a_lock_and_match() {
    assert!(ensure_current_dock("/c/zwd/docks/d", Some("/c/zwd/docks/d/")).is_ok());
    assert!(matches!(
        ensure_current_dock("/c/zwd/docks/d", None),
        Err(AppError::WorkspaceReferenceRequired)
    ));
    assert!(matches!(
        ensure_current_dock("/elsewhere", Some("/c/zwd/docks/d")),
        Err(AppError::WorkspaceReferenceRequired)
    ));
}
