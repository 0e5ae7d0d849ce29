//! The durable move, as a state machine. The surrounding application
//! performs one filesystem action per state and reports how it went; the
//! transitions here decide what happens next. The shape guarantees the
//! move's ordering rule: the source is removed only after the destination
//! has been made durable.
use vstd::prelude::*;

verus! {

/// Where a durable move stands.
#[derive(Clone, Copy, Debug, PartialEq, Eq, Structural)]
pub enum MoveState {
    /// Attempting the atomic same-filesystem rename.
    Renaming,
    /// The rename worked; the destination directory is being synced.
    SyncingAfterRename,
    /// The rename crossed filesystems; copying the source to the
    /// temporary sibling.
    Copying,
    /// The copy finished; the destination directory is being synced so
    /// the temporary is durable.
    SyncingAfterCopy,
    /// Renaming the temporary onto the final unique name.
    Swapping,
    /// The swap worked; the destination directory is being synced.
    SyncingAfterSwap,
    /// The destination is durable; removing the source.
    RemovingSource,
    Done,
    Failed,
}

/// How the requested action went: it succeeded, the rename failed across
/// filesystems, or it failed for any other reason.
#[derive(Clone, Copy, Debug, PartialEq, Eq, Structural)]
pub enum MoveEvent {
    Succeeded,
    CrossDevice,
    Failed,
}

/// What the application must do in a state.
#[derive(Clone, Copy, Debug, PartialEq, Eq, Structural)]
pub enum MoveAction {
    AttemptRename,
    SyncDestDir,
    CopyToTemp,
    SwapTempIntoPlace,
    RemoveSource,
    Finished,
    Aborted,
}

/// The state every move starts in, once the destination directory exists
/// and the unique name is chosen.
pub fn initial_move_state() -> (s: MoveState)
    ensures
        s == MoveState::Renaming,
{
    MoveState::Renaming
}

pub open spec fn spec_move_step(s: MoveState, e: MoveEvent) -> MoveState {
    match s {
        MoveState::Renaming => match e {
            MoveEvent::Succeeded => MoveState::SyncingAfterRename,
            MoveEvent::CrossDevice => MoveState::Copying,
            MoveEvent::Failed => MoveState::Failed,
        },
        MoveState::SyncingAfterRename => if e == MoveEvent::Succeeded {
            MoveState::Done
        } else {
            MoveState::Failed
        },
        MoveState::Copying => if e == MoveEvent::Succeeded {
            MoveState::SyncingAfterCopy
        } else {
            MoveState::Failed
        },
        MoveState::SyncingAfterCopy => if e == MoveEvent::Succeeded {
            MoveState::Swapping
        } else {
            MoveState::Failed
        },
        MoveState::Swapping => if e == MoveEvent::Succeeded {
            MoveState::SyncingAfterSwap
        } else {
            MoveState::Failed
        },
        MoveState::SyncingAfterSwap => if e == MoveEvent::Succeeded {
            MoveState::RemovingSource
        } else {
            MoveState::Failed
        },
        MoveState::RemovingSource => if e == MoveEvent::Succeeded {
            MoveState::Done
        } else {
            MoveState::Failed
        },
        MoveState::Done => MoveState::Done,
        MoveState::Failed => MoveState::Failed,
    }
}

/// Advance the move after the application reports how the current action
/// went.
pub fn move_step(s: MoveState, e: MoveEvent) -> (r: MoveState)
    ensures
        r == spec_move_step(s, e),
{
    match s {
        MoveState::Renaming => match e {
            MoveEvent::Succeeded => MoveState::SyncingAfterRename,
            MoveEvent::CrossDevice => MoveState::Copying,
            MoveEvent::Failed => MoveState::Failed,
        },
        MoveState::SyncingAfterRename => if matches!(e, MoveEvent::Succeeded) {
            MoveState::Done
        } else {
            MoveState::Failed
        },
        MoveState::Copying => if matches!(e, MoveEvent::Succeeded) {
            MoveState::SyncingAfterCopy
        } else {
            MoveState::Failed
        },
        MoveState::SyncingAfterCopy => if matches!(e, MoveEvent::Succeeded) {
            MoveState::Swapping
        } else {
            MoveState::Failed
        },
        MoveState::Swapping => if matches!(e, MoveEvent::Succeeded) {
            MoveState::SyncingAfterSwap
        } else {
            MoveState::Failed
        },
        MoveState::SyncingAfterSwap => if matches!(e, MoveEvent::Succeeded) {
            MoveState::RemovingSource
        } else {
            MoveState::Failed
        },
        MoveState::RemovingSource => if matches!(e, MoveEvent::Succeeded) {
            MoveState::Done
        } else {
            MoveState::Failed
        },
        MoveState::Done => MoveState::Done,
        MoveState::Failed => MoveState::Failed,
    }
}

/// The filesystem action owed in a state.
pub fn move_action(s: MoveState) -> (a: MoveAction)
    ensures
        a == (match s {
            MoveState::Renaming => MoveAction::AttemptRename,
            MoveState::SyncingAfterRename => MoveAction::SyncDestDir,
            MoveState::Copying => MoveAction::CopyToTemp,
            MoveState::SyncingAfterCopy => MoveAction::SyncDestDir,
            MoveState::Swapping => MoveAction::SwapTempIntoPlace,
            MoveState::SyncingAfterSwap => MoveAction::SyncDestDir,
            MoveState::RemovingSource => MoveAction::RemoveSource,
            MoveState::Done => MoveAction::Finished,
            MoveState::Failed => MoveAction::Aborted,
        }),
{
    match s {
        MoveState::Renaming => MoveAction::AttemptRename,
        MoveState::SyncingAfterRename => MoveAction::SyncDestDir,
        MoveState::Copying => MoveAction::CopyToTemp,
        MoveState::SyncingAfterCopy => MoveAction::SyncDestDir,
        MoveState::Swapping => MoveAction::SwapTempIntoPlace,
        MoveState::SyncingAfterSwap => MoveAction::SyncDestDir,
        MoveState::RemovingSource => MoveAction::RemoveSource,
        MoveState::Done => MoveAction::Finished,
        MoveState::Failed => MoveAction::Aborted,
    }
}

/// Source deletion never precedes destination durability: the only way
/// into `RemovingSource` is a successful sync after the temporary was
/// swapped into place.
pub proof fn lemma_remove_only_after_durable(s: MoveState, e: MoveEvent)
    ensures
        spec_move_step(s, e) == MoveState::RemovingSource ==> s == MoveState::SyncingAfterSwap && e
            == MoveEvent::Succeeded,
{
}

/// A move only finishes along the two intended paths: a synced rename, or
/// a completed cross-filesystem copy whose source was removed.
pub proof fn lemma_done_paths(s: MoveState, e: MoveEvent)
    ensures
        spec_move_step(s, e) == MoveState::Done && s != MoveState::Done ==> e == MoveEvent::Succeeded && (s
            == MoveState::SyncingAfterRename || s == MoveState::RemovingSource),
{
}

/// The cross-filesystem fallback starts only from a failed rename that
/// reported crossing devices.
pub proof fn lemma_fallback_on_cross_device_only(s: MoveState, e: MoveEvent)
    ensures
        spec_move_step(s, e) == MoveState::Copying ==> s == MoveState::Renaming && e
            == MoveEvent::CrossDevice,
{
}

/// What the reverse move of a restore does after its first rename: done,
/// fall back to a copy followed by removal of the trashed copy, or fail
/// the item.
#[derive(Clone, Copy, Debug, PartialEq, Eq, Structural)]
pub enum RestorePlan {
    Done,
    CopyThenRemove,
    Fail,
}

pub fn restore_followup(e: MoveEvent) -> (r: RestorePlan)
    ensures
        r == (match e {
            MoveEvent::Succeeded => RestorePlan::Done,
            MoveEvent::CrossDevice => RestorePlan::CopyThenRemove,
            MoveEvent::Failed => RestorePlan::Fail,
        }),
{
    match e {
        MoveEvent::Succeeded => RestorePlan::Done,
        MoveEvent::CrossDevice => RestorePlan::CopyThenRemove,
        MoveEvent::Failed => RestorePlan::Fail,
    }
}

} // verus!
