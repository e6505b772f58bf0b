//! Adding folders to and removing folders from a workspace, and the steps
//! that write the edited file and keep its dock in line with it.

use vstd::prelude::*;
use crate::paths::{paths_equal, same_path};
use crate::workspace::{FolderView, WorkspaceFolder};

verus! {

/// Whether folders are added or removed.
#[derive(Clone, Copy, Debug, PartialEq, Eq, Structural)]
pub enum EditOperation {
    Add,
    Remove,
}

/// A folder of a workspace with the canonical target it stands for.
pub type EditEntry = (FolderView, Seq<char>);

/// Some folder of `es` stands for the target `t`.
pub open spec fn has_target(es: Seq<EditEntry>, t: Seq<char>) -> bool {
    exists|i: int| 0 <= i < es.len() && same_path(#[trigger] es[i].1, t)
}

/// The folders of `es` that do not stand for `t`, in order.
pub open spec fn drop_target(es: Seq<EditEntry>, t: Seq<char>) -> Seq<EditEntry>
    decreases es.len(),
{
    if es.len() == 0 {
        Seq::empty()
    } else {
        let rest = drop_target(es.drop_last(), t);
        if same_path(es.last().1, t) {
            rest
        } else {
            rest.push(es.last())
        }
    }
}

/// Editing the folders `es` by the targets `targets`, one after another:
/// the folders after the edit, the targets that changed them, and the
/// targets that did not. Adding a target that some folder already stands
/// for changes nothing, otherwise it appends an unnamed folder for it;
/// removing a target drops every folder that stands for it, and changes
/// nothing when there is none.
pub open spec fn edit_fold(es: Seq<EditEntry>, targets: Seq<Seq<char>>, op: EditOperation) -> (
    Seq<EditEntry>,
    Seq<Seq<char>>,
    Seq<Seq<char>>,
)
    decreases targets.len(),
{
    if targets.len() == 0 {
        (es, Seq::empty(), Seq::empty())
    } else {
        let (done, changed, unchanged) = edit_fold(es, targets.drop_last(), op);
        let t = targets.last();
        match op {
            EditOperation::Add => if has_target(done, t) {
                (done, changed, unchanged.push(t))
            } else {
                (done.push(((None::<Seq<char>>, t), t)), changed.push(t), unchanged)
            },
            EditOperation::Remove => if has_target(done, t) {
                (drop_target(done, t), changed.push(t), unchanged)
            } else {
                (done, changed, unchanged.push(t))
            },
        }
    }
}

/// The folders of a workspace paired with the targets they stand for.
pub open spec fn edit_entries(folders: Seq<WorkspaceFolder>, targets: Seq<String>) -> Seq<EditEntry> {
    Seq::new(folders.len(), |i: int| (folders[i]@, targets[i]@))
}

/// The texts of a list of strings.
pub open spec fn texts(v: Seq<String>) -> Seq<Seq<char>> {
    v.map_values(|s: String| s@)
}

/// A planned edit: the new folder list with the target each folder stands
/// for, and the targets that changed the workspace and those that did not.
#[derive(Debug)]
pub struct EditPlan {
    pub folders: Vec<WorkspaceFolder>,
    pub targets: Vec<String>,
    pub changed: Vec<String>,
    pub unchanged: Vec<String>,
}

fn has_target_exec(current: &Vec<String>, t: &String) -> (r: bool)
    ensures
        r == exists|i: int| 0 <= i < current@.len() && same_path(#[trigger] current@[i]@, t@),
{
    let mut i: usize = 0;
    while i < current.len()
        invariant
            i <= current@.len(),
            forall|j: int| 0 <= j < i ==> !same_path(#[trigger] current@[j]@, t@),
        decreases current.len() - i,
    {
        if paths_equal(current[i].as_str(), t.as_str()) {
            return true;
        }
        i = i + 1;
    }
    false
}

fn drop_target_exec(folders: Vec<WorkspaceFolder>, current: Vec<String>, t: &String) -> (r: (
    Vec<WorkspaceFolder>,
    Vec<String>,
))
    requires
        folders@.len() == current@.len(),
    ensures
        r.0@.len() == r.1@.len(),
        edit_entries(r.0@, r.1@) == drop_target(edit_entries(folders@, current@), t@),
{
    let ghost es = edit_entries(folders@, current@);
    let ghost fall = folders@;
    let ghost call = current@;
    let n = folders.len();
    let mut frest = folders;
    let mut crest = current;
    let mut fout: Vec<WorkspaceFolder> = Vec::new();
    let mut cout: Vec<String> = Vec::new();
    let mut k: usize = 0;
    proof {
        assert(fall.skip(0) =~= fall);
        assert(call.skip(0) =~= call);
        assert(es.take(0) =~= Seq::<EditEntry>::empty());
        assert(edit_entries(fout@, cout@) =~= drop_target(es.take(0), t@));
    }
    while k < n
        invariant
            n == fall.len(),
            n == call.len(),
            es == edit_entries(fall, call),
            k <= n,
            frest@ == fall.skip(k as int),
            crest@ == call.skip(k as int),
            fout@.len() == cout@.len(),
            edit_entries(fout@, cout@) == drop_target(es.take(k as int), t@),
        decreases n - k,
    {
        let f = frest.remove(0);
        let c = crest.remove(0);
        proof {
            assert(f == fall[k as int]);
            assert(c == call[k as int]);
            assert(frest@ =~= fall.skip(k + 1));
            assert(crest@ =~= call.skip(k + 1));
            assert(es.take(k + 1).drop_last() =~= es.take(k as int));
            assert(es.take(k + 1).last() == (f@, c@));
        }
        if !paths_equal(c.as_str(), t.as_str()) {
            let ghost before = edit_entries(fout@, cout@);
            fout.push(f);
            cout.push(c);
            proof {
                assert(edit_entries(fout@, cout@) =~= before.push((f@, c@)));
            }
        }
        k = k + 1;
    }
    proof {
        assert(es.take(n as int) =~= es);
    }
    (fout, cout)
}

/// Where editing a workspace stands.
#[derive(Clone, Copy, Debug, PartialEq, Eq, Structural)]
pub enum EditState {
    /// The edit is planned; nothing is written yet.
    Start,
    /// The workspace's dock is being checked.
    CheckingDock,
    /// The dock's folders are being resolved from the edited file.
    ResolvingDockFolders,
    /// The edited file is being written; whether the dock follows it.
    Writing { sync_dock: bool },
    /// The dock is being brought in line with the written file.
    SyncingDock,
    /// The previous file content is being put back.
    Restoring,
    /// Nothing is left to do.
    Done,
}

/// What the outside world reports after an action.
#[derive(Clone, Copy, Debug, PartialEq, Eq, Structural)]
pub enum EditEvent {
    /// The edit was planned; whether any target changed the folders.
    Planned { changed: bool },
    /// The dock was checked: whether one exists for the workspace, and
    /// whether the edited workspace opens in symlink mode.
    DockChecked { dock_exists: bool, symlink_mode: bool },
    /// The dock's folders were resolved.
    DockFoldersResolved,
    /// The edited file was written.
    Written,
    /// The dock was synchronized; whether there was a dock to synchronize.
    DockSynced { synchronized: bool },
    /// Synchronizing the dock failed.
    DockSyncFailed,
    /// The previous file content was put back.
    Restored,
}

/// The next thing to do.
#[derive(Clone, Copy, Debug, PartialEq, Eq, Structural)]
pub enum EditAction {
    CheckDock,
    ResolveDockFolders,
    WriteFile,
    SyncDock,
    RestorePreviousFile,
    /// Report the changed and unchanged targets, and whether the dock was
    /// synchronized; the edit succeeded.
    Report { dock_synchronized: bool },
    /// Fail with the error that synchronizing the dock gave.
    FailWithSyncError,
}

/// The next state and action of editing a workspace in state `s` after the
/// event `e`, or `None` where `e` cannot follow `s`. An edit that changes
/// nothing writes nothing. The file is written only after the dock was
/// checked, and, where there is a dock or the workspace opens in symlink
/// mode, after the dock's folders were resolved; that dock is synchronized
/// after the write, and when that fails the previous file content is put
/// back before the edit fails.
pub fn edit_next(s: EditState, e: EditEvent) -> (r: Option<(EditState, EditAction)>)
    ensures
        r == edit_step(s, e),
{
    match (s, e) {
        (EditState::Start, EditEvent::Planned { changed }) => if changed {
            Some((EditState::CheckingDock, EditAction::CheckDock))
        } else {
            Some((EditState::Done, EditAction::Report { dock_synchronized: false }))
        },
        (EditState::CheckingDock, EditEvent::DockChecked { dock_exists, symlink_mode }) => if dock_exists
            || symlink_mode {
            Some((EditState::ResolvingDockFolders, EditAction::ResolveDockFolders))
        } else {
            Some((EditState::Writing { sync_dock: false }, EditAction::WriteFile))
        },
        (EditState::ResolvingDockFolders, EditEvent::DockFoldersResolved) => Some(
            (EditState::Writing { sync_dock: true }, EditAction::WriteFile),
        ),
        (EditState::Writing { sync_dock }, EditEvent::Written) => if sync_dock {
            Some((EditState::SyncingDock, EditAction::SyncDock))
        } else {
            Some((EditState::Done, EditAction::Report { dock_synchronized: false }))
        },
        (EditState::SyncingDock, EditEvent::DockSynced { synchronized }) => Some(
            (EditState::Done, EditAction::Report { dock_synchronized: synchronized }),
        ),
        (EditState::SyncingDock, EditEvent::DockSyncFailed) => Some(
            (EditState::Restoring, EditAction::RestorePreviousFile),
        ),
        (EditState::Restoring, EditEvent::Restored) => Some(
            (EditState::Done, EditAction::FailWithSyncError),
        ),
        _ => None,
    }
}

/// The actions that editing takes in state `s` along the events `es`, up
/// to the first event that cannot follow.
pub open spec fn edit_actions(s: EditState, es: Seq<EditEvent>) -> Seq<EditAction>
    decreases es.len(),
{
    if es.len() == 0 {
        Seq::empty()
    } else {
        match edit_step(s, es[0]) {
            Some((next, a)) => seq![a] + edit_actions(next, es.drop_first()),
            None => Seq::empty(),
        }
    }
}

/// One step of editing: from state `s` on event `e`, the next state and
/// action, or `None` where `e` cannot follow `s`.
pub open spec fn edit_step(s: EditState, e: EditEvent) -> Option<(EditState, EditAction)> {
    match (s, e) {
        (EditState::Start, EditEvent::Planned { changed }) => if changed {
            Some((EditState::CheckingDock, EditAction::CheckDock))
        } else {
            Some((EditState::Done, EditAction::Report { dock_synchronized: false }))
        },
        (EditState::CheckingDock, EditEvent::DockChecked { dock_exists, symlink_mode }) => if dock_exists
            || symlink_mode {
            Some((EditState::ResolvingDockFolders, EditAction::ResolveDockFolders))
        } else {
            Some((EditState::Writing { sync_dock: false }, EditAction::WriteFile))
        },
        (EditState::ResolvingDockFolders, EditEvent::DockFoldersResolved) => Some(
            (EditState::Writing { sync_dock: true }, EditAction::WriteFile),
        ),
        (EditState::Writing { sync_dock }, EditEvent::Written) => if sync_dock {
            Some((EditState::SyncingDock, EditAction::SyncDock))
        } else {
            Some((EditState::Done, EditAction::Report { dock_synchronized: false }))
        },
        (EditState::SyncingDock, EditEvent::DockSynced { synchronized }) => Some(
            (EditState::Done, EditAction::Report { dock_synchronized: synchronized }),
        ),
        (EditState::SyncingDock, EditEvent::DockSyncFailed) => Some(
            (EditState::Restoring, EditAction::RestorePreviousFile),
        ),
        (EditState::Restoring, EditEvent::Restored) => Some(
            (EditState::Done, EditAction::FailWithSyncError),
        ),
        _ => None,
    }
}

/// The action at index `k` of `acts`.
pub open spec fn action_at(acts: Seq<EditAction>, k: int) -> EditAction {
    acts[k]
}

/// Every write of the file in `acts` comes after a check of the dock.
#[verifier::opaque]
pub open spec fn writes_after_dock_check(acts: Seq<EditAction>) -> bool {
    forall|k: int|
        0 <= k < acts.len() && #[trigger] action_at(acts, k) == EditAction::WriteFile ==> exists|
            j: int,
        | 0 <= j < k && acts[j] == EditAction::CheckDock
}

/// Every synchronization of the dock in `acts` comes after a write.
#[verifier::opaque]
pub open spec fn syncs_after_write(acts: Seq<EditAction>) -> bool {
    forall|k: int|
        0 <= k < acts.len() && #[trigger] action_at(acts, k) == EditAction::SyncDock ==> exists|
            j: int,
        | 0 <= j < k && acts[j] == EditAction::WriteFile
}

/// Every action `a` in `acts` comes right after an action `before`.
#[verifier::opaque]
pub open spec fn right_after(acts: Seq<EditAction>, a: EditAction, before: EditAction) -> bool {
    forall|k: int|
        0 <= k < acts.len() && #[trigger] action_at(acts, k) == a ==> k > 0 && acts[k - 1] == before
}

/// The order that every run of editing keeps: the file is written only
/// after the dock was checked, the dock is synchronized only after the
/// file was written, the previous content is put back only right after a
/// synchronization, and the edit fails only right after that.
pub open spec fn edit_order_holds(acts: Seq<EditAction>) -> bool {
    &&& writes_after_dock_check(acts)
    &&& syncs_after_write(acts)
    &&& right_after(acts, EditAction::RestorePreviousFile, EditAction::SyncDock)
    &&& right_after(acts, EditAction::FailWithSyncError, EditAction::RestorePreviousFile)
}

spec fn edit_history_fits(s: EditState, h: Seq<EditAction>) -> bool {
    match s {
        EditState::Start => h.len() == 0,
        EditState::CheckingDock => h.contains(EditAction::CheckDock),
        EditState::ResolvingDockFolders => h.contains(EditAction::CheckDock),
        EditState::Writing { .. } => h.len() > 0 && h.last() == EditAction::WriteFile,
        EditState::SyncingDock => h.len() > 0 && h.last() == EditAction::SyncDock,
        EditState::Restoring => h.len() > 0 && h.last() == EditAction::RestorePreviousFile,
        EditState::Done => true,
    }
}

proof fn lemma_push_writes(h: Seq<EditAction>, a: EditAction)
    requires
        writes_after_dock_check(h),
        a == EditAction::WriteFile ==> h.contains(EditAction::CheckDock),
    ensures
        writes_after_dock_check(h.push(a)),
{
    reveal(writes_after_dock_check);
    let h2 = h.push(a);
    assert forall|k: int|
        0 <= k < h2.len() && #[trigger] action_at(h2, k) == EditAction::WriteFile implies exists|
        j: int,
    | 0 <= j < k && h2[j] == EditAction::CheckDock by {
        if k < h.len() {
            assert(action_at(h, k) == h2[k]);
            let j = choose|j: int| 0 <= j < k && h[j] == EditAction::CheckDock;
            assert(h2[j] == h[j]);
        } else {
            let j = choose|j: int| 0 <= j < h.len() && h[j] == EditAction::CheckDock;
            assert(h2[j] == EditAction::CheckDock);
        }
    }
}

proof fn lemma_push_syncs(h: Seq<EditAction>, a: EditAction)
    requires
        syncs_after_write(h),
        a == EditAction::SyncDock ==> h.len() > 0 && h.last() == EditAction::WriteFile,
    ensures
        syncs_after_write(h.push(a)),
{
    reveal(syncs_after_write);
    let h2 = h.push(a);
    assert forall|k: int|
        0 <= k < h2.len() && #[trigger] action_at(h2, k) == EditAction::SyncDock implies exists|
        j: int,
    | 0 <= j < k && h2[j] == EditAction::WriteFile by {
        if k < h.len() {
            assert(action_at(h, k) == h2[k]);
            let j = choose|j: int| 0 <= j < k && h[j] == EditAction::WriteFile;
            assert(h2[j] == h[j]);
        } else {
            assert(h2[h.len() - 1] == EditAction::WriteFile);
        }
    }
}

proof fn lemma_push_right_after(h: Seq<EditAction>, a: EditAction, x: EditAction, before: EditAction)
    requires
        right_after(h, x, before),
        a == x ==> h.len() > 0 && h.last() == before,
    ensures
        right_after(h.push(a), x, before),
{
    reveal(right_after);
    let h2 = h.push(a);
    assert forall|k: int| 0 <= k < h2.len() && #[trigger] action_at(h2, k) == x implies k > 0 && h2[k
        - 1] == before by {
        if k < h.len() {
            assert(action_at(h, k) == h2[k]);
            assert(h[k - 1] == h2[k - 1]);
        } else {
            assert(h2[h.len() - 1] == h.last());
        }
    }
}

proof fn lemma_edit_push_order(h: Seq<EditAction>, a: EditAction)
    requires
        edit_order_holds(h),
        a == EditAction::WriteFile ==> h.contains(EditAction::CheckDock),
        a == EditAction::SyncDock ==> h.len() > 0 && h.last() == EditAction::WriteFile,
        a == EditAction::RestorePreviousFile ==> h.len() > 0 && h.last() == EditAction::SyncDock,
        a == EditAction::FailWithSyncError ==> h.len() > 0 && h.last()
            == EditAction::RestorePreviousFile,
    ensures
        edit_order_holds(h.push(a)),
{
    lemma_push_writes(h, a);
    lemma_push_syncs(h, a);
    lemma_push_right_after(h, a, EditAction::RestorePreviousFile, EditAction::SyncDock);
    lemma_push_right_after(h, a, EditAction::FailWithSyncError, EditAction::RestorePreviousFile);
}

proof fn lemma_edit_push(s: EditState, h: Seq<EditAction>, e: EditEvent)
    requires
        edit_history_fits(s, h),
        edit_order_holds(h),
        edit_step(s, e) is Some,
    ensures
        edit_history_fits(edit_step(s, e)->Some_0.0, h.push(edit_step(s, e)->Some_0.1)),
        edit_order_holds(h.push(edit_step(s, e)->Some_0.1)),
{
    let (next, a) = edit_step(s, e)->Some_0;
    let h2 = h.push(a);
    assert(h2.last() == a);
    if h.contains(EditAction::CheckDock) {
        let j = choose|j: int| 0 <= j < h.len() && h[j] == EditAction::CheckDock;
        assert(h2[j] == EditAction::CheckDock);
    }
    if a == EditAction::CheckDock {
        assert(h2[h.len() as int] == a);
    }
    lemma_edit_push_order(h, a);
}

proof fn lemma_edit_run_from(s: EditState, h: Seq<EditAction>, es: Seq<EditEvent>)
    requires
        edit_history_fits(s, h),
        edit_order_holds(h),
    ensures
        edit_order_holds(h + edit_actions(s, es)),
    decreases es.len(),
{
    if es.len() == 0 || edit_step(s, es[0]) is None {
        assert(h + edit_actions(s, es) =~= h);
    } else {
        let (next, a) = edit_step(s, es[0])->Some_0;
        lemma_edit_push(s, h, es[0]);
        lemma_edit_run_from(next, h.push(a), es.drop_first());
        assert(edit_actions(s, es) == seq![a] + edit_actions(next, es.drop_first()));
        assert(h + edit_actions(s, es) =~= h.push(a) + edit_actions(next, es.drop_first()));
    }
}

/// Every run of editing keeps the order of `edit_order_holds`: in
/// particular the previous file content is put back only after a failed
/// synchronization of the dock, which comes only after the write.
pub proof fn lemma_edit_run_order(es: Seq<EditEvent>)
    ensures
        edit_order_holds(edit_actions(EditState::Start, es)),
{
    assert(edit_order_holds(Seq::<EditAction>::empty())) by {
        reveal(writes_after_dock_check);
        reveal(syncs_after_write);
        reveal(right_after);
    }
    lemma_edit_run_from(EditState::Start, Seq::empty(), es);
    assert(Seq::<EditAction>::empty() + edit_actions(EditState::Start, es) =~= edit_actions(
        EditState::Start,
        es,
    ));
}

/// A failed synchronization of the dock after the write puts back the
/// previous file content, and then the edit fails; an edit that changes
/// nothing only reports.
pub proof fn lemma_failed_sync_restores(es: Seq<EditEvent>)
    ensures
        edit_step(EditState::SyncingDock, EditEvent::DockSyncFailed) == Some(
            (EditState::Restoring, EditAction::RestorePreviousFile),
        ),
        edit_step(EditState::Restoring, EditEvent::Restored) == Some(
            (EditState::Done, EditAction::FailWithSyncError),
        ),
        es.len() > 0 && es[0] == (EditEvent::Planned { changed: false }) ==> edit_actions(
            EditState::Start,
            es,
        ) == seq![EditAction::Report { dock_synchronized: false }],
{
    if es.len() > 0 && es[0] == (EditEvent::Planned { changed: false }) {
        let rest = es.drop_first();
        if rest.len() > 0 {
            assert(edit_step(EditState::Done, rest[0]) is None);
        }
        assert(edit_actions(EditState::Done, rest) =~= Seq::<EditAction>::empty());
        assert(seq![EditAction::Report { dock_synchronized: false }] + Seq::<EditAction>::empty()
            =~= seq![EditAction::Report { dock_synchronized: false }]);
    }
}

/// The event reports a dock check that asks for the dock to follow: the
/// workspace has a dock or opens in symlink mode.
pub open spec fn needs_dock(e: EditEvent) -> bool {
    e matches EditEvent::DockChecked { dock_exists, symlink_mode } && (dock_exists || symlink_mode)
}

spec fn sync_pending(s: EditState) -> bool {
    s == EditState::ResolvingDockFolders || s == (EditState::Writing { sync_dock: true })
}

spec fn past_write(s: EditState) -> bool {
    s == EditState::SyncingDock || s == EditState::Restoring || s == EditState::Done
}

proof fn lemma_accepted_tail(s: EditState, es: Seq<EditEvent>)
    requires
        es.len() > 0,
        edit_actions(s, es).len() == es.len(),
    ensures
        edit_step(s, es[0]) is Some,
        edit_actions(edit_step(s, es[0])->Some_0.0, es.drop_first()).len() == es.drop_first().len(),
        edit_actions(s, es) == seq![edit_step(s, es[0])->Some_0.1] + edit_actions(
            edit_step(s, es[0])->Some_0.0,
            es.drop_first(),
        ),
{
}

proof fn lemma_no_write_past_write(s: EditState, es: Seq<EditEvent>)
    requires
        past_write(s),
        edit_actions(s, es).len() == es.len(),
    ensures
        forall|j: int| 0 <= j < es.len() ==> es[j] != EditEvent::Written,
    decreases es.len(),
{
    if es.len() > 0 {
        lemma_accepted_tail(s, es);
        let rest = es.drop_first();
        let next = edit_step(s, es[0])->Some_0.0;
        lemma_no_write_past_write(next, rest);
        assert forall|j: int| 0 <= j < es.len() implies es[j] != EditEvent::Written by {
            if j > 0 {
                assert(es[j] == rest[j - 1]);
            }
        }
    }
}

proof fn lemma_sync_follows_write(s: EditState, es: Seq<EditEvent>)
    requires
        edit_actions(s, es).len() == es.len(),
    ensures
        forall|j: int|
            0 <= j < es.len() && es[j] == EditEvent::Written && (sync_pending(s) || exists|i: int|
                0 <= i < j && needs_dock(es[i])) ==> edit_actions(s, es)[j] == EditAction::SyncDock,
    decreases es.len(),
{
    if es.len() > 0 {
        lemma_accepted_tail(s, es);
        let rest = es.drop_first();
        let (next, a) = edit_step(s, es[0])->Some_0;
        lemma_sync_follows_write(next, rest);
        let acts = edit_actions(s, es);
        assert forall|j: int|
            0 <= j < es.len() && es[j] == EditEvent::Written && (sync_pending(s) || exists|i: int|
                0 <= i < j && needs_dock(es[i])) implies acts[j] == EditAction::SyncDock by {
            if j == 0 {
                assert(acts[0] == a);
            } else {
                assert(es[j] == rest[j - 1]);
                assert(acts[j] == edit_actions(next, rest)[j - 1]);
                if s == (EditState::Writing { sync_dock: true }) {
                    lemma_no_write_past_write(next, rest);
                } else if sync_pending(s) {
                    assert(sync_pending(next));
                } else {
                    let i = choose|i: int| 0 <= i < j && needs_dock(es[i]);
                    if i == 0 {
                        assert(sync_pending(next));
                    } else {
                        assert(rest[i - 1] == es[i]);
                        assert(needs_dock(rest[i - 1]));
                    }
                }
            }
        }
    }
}

/// The dock check decides whether the dock follows the edit: the dock's
/// folders are resolved exactly when the workspace has a dock or opens in
/// symlink mode; otherwise the file is written with no dock to follow.
pub proof fn lemma_dock_check_decides_resolution(dock_exists: bool, symlink_mode: bool)
    ensures
        (edit_step(
            EditState::CheckingDock,
            EditEvent::DockChecked { dock_exists, symlink_mode },
        ) == Some((EditState::ResolvingDockFolders, EditAction::ResolveDockFolders))) <==> (
        dock_exists || symlink_mode),
        !(dock_exists || symlink_mode) ==> edit_step(
            EditState::CheckingDock,
            EditEvent::DockChecked { dock_exists, symlink_mode },
        ) == Some((EditState::Writing { sync_dock: false }, EditAction::WriteFile)),
{
}

/// In every run of events that editing accepts, once the dock check found
/// a dock or symlink mode, the write of the file is answered by
/// synchronizing the dock, and that synchronization comes after a write.
pub proof fn lemma_dock_is_synced_after_write(es: Seq<EditEvent>)
    requires
        edit_actions(EditState::Start, es).len() == es.len(),
    ensures
        forall|i: int, j: int|
            0 <= i < j < es.len() && needs_dock(es[i]) && es[j] == EditEvent::Written ==> ({
                let acts = edit_actions(EditState::Start, es);
                acts[j] == EditAction::SyncDock && exists|k: int|
                    0 <= k < j && acts[k] == EditAction::WriteFile
            }),
{
    lemma_sync_follows_write(EditState::Start, es);
    lemma_edit_run_order(es);
    let acts = edit_actions(EditState::Start, es);
    reveal(syncs_after_write);
    assert forall|i: int, j: int|
        0 <= i < j < es.len() && needs_dock(es[i]) && es[j] == EditEvent::Written implies acts[j]
        == EditAction::SyncDock && exists|k: int| 0 <= k < j && acts[k] == EditAction::WriteFile by {
        assert(acts[j] == EditAction::SyncDock);
        assert(action_at(acts, j) == EditAction::SyncDock);
    }
}

/// Plans adding or removing `targets` (canonical folder targets) to or from
/// the folders of a workspace, where `current[i]` is the target that
/// `folders[i]` stands for.
pub fn plan_workspace_edit(
    folders: Vec<WorkspaceFolder>,
    current: Vec<String>,
    targets: &Vec<String>,
    op: EditOperation,
) -> (r: EditPlan)
    requires
        current@.len() == folders@.len(),
    ensures
        r.folders@.len() == r.targets@.len(),
        (edit_entries(r.folders@, r.targets@), texts(r.changed@), texts(r.unchanged@))
            == edit_fold(edit_entries(folders@, current@), texts(targets@), op),
{
    let ghost start = edit_entries(folders@, current@);
    let ghost tv = texts(targets@);
    let mut fs = folders;
    let mut cs = current;
    let mut changed: Vec<String> = Vec::new();
    let mut unchanged: Vec<String> = Vec::new();
    let mut i: usize = 0;
    proof {
        assert(tv.take(0) =~= Seq::<Seq<char>>::empty());
        assert(texts(changed@) =~= Seq::<Seq<char>>::empty());
        assert(texts(unchanged@) =~= Seq::<Seq<char>>::empty());
    }
    while i < targets.len()
        invariant
            tv == texts(targets@),
            i <= targets@.len(),
            fs@.len() == cs@.len(),
            (edit_entries(fs@, cs@), texts(changed@), texts(unchanged@)) == edit_fold(
                start,
                tv.take(i as int),
                op,
            ),
        decreases targets.len() - i,
    {
        let t = &targets[i];
        let ghost es = edit_entries(fs@, cs@);
        let ghost ch = texts(changed@);
        let ghost un = texts(unchanged@);
        proof {
            assert(tv.take(i + 1).drop_last() =~= tv.take(i as int));
            assert(tv.take(i + 1).last() == t@);
        }
        let present = has_target_exec(&cs, t);
        proof {
            if present {
                let j = choose|j: int| 0 <= j < cs@.len() && same_path(#[trigger] cs@[j]@, t@);
                assert(es[j].1 == cs@[j]@);
            }
            if has_target(es, t@) {
                let j = choose|j: int| 0 <= j < es.len() && same_path(#[trigger] es[j].1, t@);
                assert(es[j].1 == cs@[j]@);
            }
            assert(present == has_target(es, t@));
        }
        match op {
            EditOperation::Add => {
                if present {
                    unchanged.push(t.clone());
                    proof {
                        assert(texts(unchanged@) =~= un.push(t@));
                    }
                } else {
                    fs.push(WorkspaceFolder { name: None, path: t.clone() });
                    cs.push(t.clone());
                    changed.push(t.clone());
                    proof {
                        assert(texts(changed@) =~= ch.push(t@));
                        assert(edit_entries(fs@, cs@) =~= es.push(((None::<Seq<char>>, t@), t@)));
                    }
                }
            },
            EditOperation::Remove => {
                if present {
                    let (f2, c2) = drop_target_exec(fs, cs, t);
                    fs = f2;
                    cs = c2;
                    changed.push(t.clone());
                    proof {
                        assert(texts(changed@) =~= ch.push(t@));
                    }
                } else {
                    unchanged.push(t.clone());
                    proof {
                        assert(texts(unchanged@) =~= un.push(t@));
                    }
                }
            },
        }
        i = i + 1;
    }
    proof {
        assert(tv.take(targets@.len() as int) =~= tv);
    }
    EditPlan { folders: fs, targets: cs, changed, unchanged }
}

proof fn lemma_drop_target(es: Seq<EditEntry>, t: Seq<char>)
    ensures
        drop_target(es, t).len() <= es.len(),
        has_target(es, t) ==> drop_target(es, t).len() < es.len(),
        !has_target(es, t) ==> drop_target(es, t) == es,
        forall|j: int|
            0 <= j < drop_target(es, t).len() ==> !same_path(#[trigger] drop_target(es, t)[j].1, t)
                && es.contains(drop_target(es, t)[j]),
    decreases es.len(),
{
    if es.len() > 0 {
        let init = es.drop_last();
        lemma_drop_target(init, t);
        let rest = drop_target(init, t);
        assert forall|j: int| 0 <= j < drop_target(es, t).len() implies !same_path(
            #[trigger] drop_target(es, t)[j].1,
            t,
        ) && es.contains(drop_target(es, t)[j]) by {
            if j < rest.len() {
                assert(drop_target(es, t)[j] == rest[j]);
                assert(!same_path(rest[j].1, t));
                assert(init.contains(rest[j]));
                let i = choose|i: int| 0 <= i < init.len() && init[i] == rest[j];
                assert(es[i] == init[i]);
            } else {
                assert(drop_target(es, t)[j] == es.last());
                assert(es[es.len() - 1] == es.last());
            }
        }
        if has_target(es, t) {
            let i = choose|i: int| 0 <= i < es.len() && same_path(#[trigger] es[i].1, t);
            if i < es.len() - 1 {
                assert(init[i] == es[i]);
                assert(has_target(init, t));
            }
        }
        if !has_target(es, t) {
            assert forall|i: int| 0 <= i < init.len() implies !same_path(#[trigger] init[i].1, t) by {
                assert(init[i] == es[i]);
            }
            assert(!same_path(es[es.len() - 1].1, t));
            assert(init.push(es.last()) =~= es);
        }
    }
}

proof fn lemma_drop_keeps_absence(es: Seq<EditEntry>, t: Seq<char>, u: Seq<char>)
    requires
        !has_target(es, u),
    ensures
        !has_target(drop_target(es, t), u),
{
    lemma_drop_target(es, t);
    let d = drop_target(es, t);
    if has_target(d, u) {
        let j = choose|j: int| 0 <= j < d.len() && same_path(#[trigger] d[j].1, u);
        assert(es.contains(d[j]));
        let i = choose|i: int| 0 <= i < es.len() && es[i] == d[j];
        assert(same_path(es[i].1, u));
    }
}

proof fn lemma_edit_fold(es: Seq<EditEntry>, targets: Seq<Seq<char>>, op: EditOperation)
    ensures
        ({
            let (d, changed, unchanged) = edit_fold(es, targets, op);
            &&& op == EditOperation::Add ==> d.len() == es.len() + changed.len() && forall|k: int|
                0 <= k < targets.len() ==> has_target(d, #[trigger] targets[k])
            &&& op == EditOperation::Remove ==> d.len() + changed.len() <= es.len() && forall|k: int|
                0 <= k < targets.len() ==> !has_target(d, #[trigger] targets[k])
            &&& changed.len() == 0 ==> d == es
        }),
    decreases targets.len(),
{
    if targets.len() > 0 {
        let init = targets.drop_last();
        lemma_edit_fold(es, init, op);
        let (done, changed, unchanged) = edit_fold(es, init, op);
        let t = targets.last();
        assert forall|k: int| 0 <= k < init.len() implies #[trigger] targets[k] == init[k] by {}
        assert(targets[targets.len() - 1] == t);
        match op {
            EditOperation::Add => {
                if !has_target(done, t) {
                    let d = done.push(((None::<Seq<char>>, t), t));
                    assert forall|k: int| 0 <= k < targets.len() implies has_target(
                        d,
                        #[trigger] targets[k],
                    ) by {
                        if k < init.len() {
                            assert(has_target(done, init[k]));
                            let i = choose|i: int| 0 <= i < done.len() && same_path(
                                #[trigger] done[i].1,
                                init[k],
                            );
                            assert(d[i] == done[i]);
                        } else {
                            assert(d[done.len() as int].1 == t);
                            assert(same_path(t, t));
                        }
                    }
                } else {
                    assert forall|k: int| 0 <= k < targets.len() implies has_target(
                        done,
                        #[trigger] targets[k],
                    ) by {
                        if k < init.len() {
                            assert(has_target(done, init[k]));
                        }
                    }
                }
            },
            EditOperation::Remove => {
                if has_target(done, t) {
                    lemma_drop_target(done, t);
                    let d = drop_target(done, t);
                    assert forall|k: int| 0 <= k < targets.len() implies !has_target(
                        d,
                        #[trigger] targets[k],
                    ) by {
                        if k < init.len() {
                            assert(!has_target(done, init[k]));
                            lemma_drop_keeps_absence(done, t, init[k]);
                        } else {
                            if has_target(d, t) {
                                let j = choose|j: int| 0 <= j < d.len() && same_path(
                                    #[trigger] d[j].1,
                                    t,
                                );
                            }
                        }
                    }
                } else {
                    assert forall|k: int| 0 <= k < targets.len() implies !has_target(
                        done,
                        #[trigger] targets[k],
                    ) by {
                        if k < init.len() {
                            assert(!has_target(done, init[k]));
                        }
                    }
                }
            },
        }
    }
}

proof fn lemma_edit_fold_stable(es: Seq<EditEntry>, targets: Seq<Seq<char>>, op: EditOperation)
    requires
        op == EditOperation::Add ==> forall|k: int|
            0 <= k < targets.len() ==> has_target(es, #[trigger] targets[k]),
        op == EditOperation::Remove ==> forall|k: int|
            0 <= k < targets.len() ==> !has_target(es, #[trigger] targets[k]),
    ensures
        edit_fold(es, targets, op) == (es, Seq::<Seq<char>>::empty(), targets),
    decreases targets.len(),
{
    if targets.len() > 0 {
        let init = targets.drop_last();
        assert forall|k: int| 0 <= k < init.len() implies #[trigger] init[k] == targets[k] by {}
        lemma_edit_fold_stable(es, init, op);
        assert(targets[targets.len() - 1] == targets.last());
        assert(init.push(targets.last()) =~= targets);
    } else {
        assert(targets =~= Seq::<Seq<char>>::empty());
    }
}

/// Adding or removing is idempotent: applying the same edit to its own
/// result changes nothing, and reports every target as unchanged.
pub proof fn lemma_edit_idempotent(es: Seq<EditEntry>, targets: Seq<Seq<char>>, op: EditOperation)
    ensures
        edit_fold(edit_fold(es, targets, op).0, targets, op) == (
            edit_fold(es, targets, op).0,
            Seq::<Seq<char>>::empty(),
            targets,
        ),
{
    lemma_edit_fold(es, targets, op);
    lemma_edit_fold_stable(edit_fold(es, targets, op).0, targets, op);
}

/// An edit changes the folders exactly when some target changed them.
pub proof fn lemma_edit_changes_iff_reported(es: Seq<EditEntry>, targets: Seq<Seq<char>>, op: EditOperation)
    ensures
        (edit_fold(es, targets, op).1.len() == 0) <==> (edit_fold(es, targets, op).0 == es),
{
    lemma_edit_fold(es, targets, op);
    let (d, changed, unchanged) = edit_fold(es, targets, op);
    if changed.len() > 0 && d == es {
        assert(d.len() == es.len());
    }
}

} // verus!
