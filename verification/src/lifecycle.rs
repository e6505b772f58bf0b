//! Deciding the steps of deleting a workspace and of synchronizing an
//! existing dock with new folders.

use vstd::prelude::*;
use crate::error::AppError;

verus! {

/// What checking a workspace's dock found.
#[derive(Clone, Copy, Debug, PartialEq, Eq, Structural)]
pub enum DockStatus {
    /// The workspace has no dock.
    Absent,
    /// The workspace has a dock and owns it.
    Owned,
    /// The dock failed the ownership check.
    NotOwned,
}

/// The next step of deleting a workspace.
#[derive(Clone, Copy, Debug, PartialEq, Eq, Structural)]
pub enum DeleteAction {
    /// Check the workspace's dock and its ownership.
    CheckDock,
    /// Stop with the error of the dock check; nothing is removed.
    FailWithDockError,
    /// Report what would be deleted and stop: deletion was not forced.
    ReportDryRun,
    /// Find out whether the current directory is the workspace's dock.
    CheckCurrentDirectory,
    /// Remove the owned dock, then the workspace file.
    RemoveDockThenFile,
    /// Remove the workspace file; there is no dock.
    RemoveFile,
}

/// The next step of deleting the workspace at `workspace_path`, given
/// whether deletion is forced, what the dock check found once it ran, and,
/// once known, whether the current directory is that dock. A dock that
/// fails the ownership check stops the deletion before anything else;
/// nothing is removed unless forced, and never while the current directory
/// is the dock.
pub fn delete_next(
    workspace_path: &str,
    force: bool,
    dock: Option<DockStatus>,
    current_dir_is_dock: Option<bool>,
) -> (r: Result<DeleteAction, AppError>)
    ensures
        dock is None ==> r == Ok::<DeleteAction, AppError>(DeleteAction::CheckDock),
        dock == Some(DockStatus::NotOwned) ==> r == Ok::<DeleteAction, AppError>(
            DeleteAction::FailWithDockError,
        ),
        (dock == Some(DockStatus::Absent) || dock == Some(DockStatus::Owned)) ==> ({
            &&& !force ==> r == Ok::<DeleteAction, AppError>(DeleteAction::ReportDryRun)
            &&& force && current_dir_is_dock is None ==> r == Ok::<DeleteAction, AppError>(
                DeleteAction::CheckCurrentDirectory,
            )
            &&& force && current_dir_is_dock == Some(true) ==> (r matches Err(
                AppError::CurrentDirectoryIsDock { path },
            ) && path@ == workspace_path@)
            &&& force && current_dir_is_dock == Some(false) && dock == Some(DockStatus::Owned)
                ==> r == Ok::<DeleteAction, AppError>(DeleteAction::RemoveDockThenFile)
            &&& force && current_dir_is_dock == Some(false) && dock == Some(DockStatus::Absent)
                ==> r == Ok::<DeleteAction, AppError>(DeleteAction::RemoveFile)
        }),
        (r == Ok::<DeleteAction, AppError>(DeleteAction::RemoveDockThenFile) || r == Ok::<
            DeleteAction,
            AppError,
        >(DeleteAction::RemoveFile)) ==> force && current_dir_is_dock == Some(false) && (dock
            == Some(DockStatus::Owned) || dock == Some(DockStatus::Absent)),
{
    match dock {
        None => Ok(DeleteAction::CheckDock),
        Some(DockStatus::NotOwned) => Ok(DeleteAction::FailWithDockError),
        Some(status) => {
            if !force {
                return Ok(DeleteAction::ReportDryRun);
            }
            match current_dir_is_dock {
                None => Ok(DeleteAction::CheckCurrentDirectory),
                Some(true) => Err(AppError::CurrentDirectoryIsDock { path: workspace_path.to_owned() }),
                Some(false) => if status == DockStatus::Owned {
                    Ok(DeleteAction::RemoveDockThenFile)
                } else {
                    Ok(DeleteAction::RemoveFile)
                },
            }
        },
    }
}

/// Where synchronizing an existing dock stands.
#[derive(Clone, Copy, Debug, PartialEq, Eq, Structural)]
pub enum SyncState {
    /// Nothing is done yet.
    Start,
    /// The folders that the dock's lock records are being read.
    ReadingLock,
    /// The dock is being reconciled with the new folders.
    Reconciling,
    /// The dock is being put back to the folders its lock recorded.
    RollingBack,
    /// Nothing is left to do.
    Done,
}

/// What the outside world reports after a step of synchronizing.
#[derive(Clone, Copy, Debug, PartialEq, Eq, Structural)]
pub enum SyncEvent {
    /// The dock was checked: whether the workspace has an owned dock.
    DockChecked { exists: bool },
    /// The folders that the lock records were read.
    LockFoldersRead,
    /// Reconciling with the new folders succeeded.
    Reconciled,
    /// Reconciling with the new folders failed.
    ReconcileFailed,
    /// The attempt to put back the recorded folders ended, however it went.
    RolledBack,
}

/// The next thing to do when synchronizing.
#[derive(Clone, Copy, Debug, PartialEq, Eq, Structural)]
pub enum SyncAction {
    ReadLockFolders,
    Reconcile,
    RollBackToLockedFolders,
    /// Succeed, saying whether a dock was synchronized.
    Report { synchronized: bool },
    /// Fail with the error that reconciling gave.
    FailWithReconcileError,
}

/// One step of synchronizing an existing dock: from state `s` on event
/// `e`, the next state and action, or `None` where `e` cannot follow `s`.
/// Without a dock nothing is done; with one, the recorded folders are read
/// before anything changes, and when reconciling fails the dock is put back
/// to them before the error is returned.
pub open spec fn sync_step(s: SyncState, e: SyncEvent) -> Option<(SyncState, SyncAction)> {
    match (s, e) {
        (SyncState::Start, SyncEvent::DockChecked { exists }) => if exists {
            Some((SyncState::ReadingLock, SyncAction::ReadLockFolders))
        } else {
            Some((SyncState::Done, SyncAction::Report { synchronized: false }))
        },
        (SyncState::ReadingLock, SyncEvent::LockFoldersRead) => Some(
            (SyncState::Reconciling, SyncAction::Reconcile),
        ),
        (SyncState::Reconciling, SyncEvent::Reconciled) => Some(
            (SyncState::Done, SyncAction::Report { synchronized: true }),
        ),
        (SyncState::Reconciling, SyncEvent::ReconcileFailed) => Some(
            (SyncState::RollingBack, SyncAction::RollBackToLockedFolders),
        ),
        (SyncState::RollingBack, SyncEvent::RolledBack) => Some(
            (SyncState::Done, SyncAction::FailWithReconcileError),
        ),
        _ => None,
    }
}

/// The next step of synchronizing an existing dock (see `sync_step`).
pub fn sync_next(s: SyncState, e: SyncEvent) -> (r: Option<(SyncState, SyncAction)>)
    ensures
        r == sync_step(s, e),
{
    match (s, e) {
        (SyncState::Start, SyncEvent::DockChecked { exists }) => if exists {
            Some((SyncState::ReadingLock, SyncAction::ReadLockFolders))
        } else {
            Some((SyncState::Done, SyncAction::Report { synchronized: false }))
        },
        (SyncState::ReadingLock, SyncEvent::LockFoldersRead) => Some(
            (SyncState::Reconciling, SyncAction::Reconcile),
        ),
        (SyncState::Reconciling, SyncEvent::Reconciled) => Some(
            (SyncState::Done, SyncAction::Report { synchronized: true }),
        ),
        (SyncState::Reconciling, SyncEvent::ReconcileFailed) => Some(
            (SyncState::RollingBack, SyncAction::RollBackToLockedFolders),
        ),
        (SyncState::RollingBack, SyncEvent::RolledBack) => Some(
            (SyncState::Done, SyncAction::FailWithReconcileError),
        ),
        _ => None,
    }
}

/// The dock is rolled back only right after reconciling failed, the
/// synchronization fails only right after a rollback, it reports a
/// synchronized dock only after reconciling succeeded, and it reconciles
/// only once the recorded folders were read.
pub proof fn lemma_sync_rolls_back_only_after_failure(s: SyncState, e: SyncEvent)
    ensures
        sync_step(s, e) matches Some((_, a)) && a == SyncAction::RollBackToLockedFolders ==> s
            == SyncState::Reconciling && e == SyncEvent::ReconcileFailed,
        sync_step(s, e) matches Some((_, a)) && a == SyncAction::FailWithReconcileError ==> s
            == SyncState::RollingBack,
        sync_step(s, e) matches Some((_, a)) && a == (SyncAction::Report { synchronized: true })
            ==> s == SyncState::Reconciling && e == SyncEvent::Reconciled,
        sync_step(s, e) matches Some((_, a)) && a == SyncAction::Reconcile ==> s
            == SyncState::ReadingLock && e == SyncEvent::LockFoldersRead,
{
}

} // verus!
