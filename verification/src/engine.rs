//! Relocation engine protocol: moving an entry between two paths as a
//! state machine. An atomic rename is attempted first; only when the two
//! paths lie on different storage devices does a recursive copy followed by
//! removal of the source substitute for it. The machine decides; the
//! unverified shell performs each asked-for filesystem action and feeds the
//! outcome back as the next event. The governing rule: the original is
//! never lost. The source is removed only once the copy stands complete,
//! and when that removal fails the fresh copy is taken back down rather
//! than leaving two copies with ambiguous authority.

use vstd::prelude::*;

verus! {

/// Where the relocation of one entry stands.
#[derive(Debug, Clone, Copy, PartialEq, Eq, Structural)]
pub enum RelocateState {
    /// The atomic rename has been issued.
    Renaming,
    /// The rename crossed a device boundary; the recursive copy has been
    /// issued.
    Copying,
    /// The copy stands complete; removal of the source has been issued.
    RemovingSource,
    /// Removal of the source failed; removal of the fresh copy has been
    /// issued.
    UndoingCopy,
    /// The entry has been relocated.
    Done,
    /// The relocation failed; the original is preserved.
    Failed,
}

/// What the filesystem reported about the last issued action.
#[derive(Debug, Clone, Copy, PartialEq, Eq, Structural)]
pub enum FsEvent {
    /// The action completed.
    Succeeded,
    /// A rename was refused because source and destination lie on
    /// different storage devices.
    CrossedDevices,
    /// The action failed for any other reason.
    Failed,
}

/// The next filesystem action the engine asks for.
#[derive(Debug, Clone, Copy, PartialEq, Eq, Structural)]
pub enum FsAction {
    /// Atomically rename the source onto the destination.
    Rename,
    /// Copy the source to the destination: a file byte for byte, a
    /// directory tree entry by entry.
    CopyTree,
    /// Remove the source, now that the destination holds a full copy.
    RemoveSource,
    /// Remove the fresh destination copy, now that the source could not be
    /// removed.
    RemoveCopy,
}

/// A relocation begins by asking for the atomic rename.
pub open spec fn spec_start() -> (RelocateState, FsAction) {
    (RelocateState::Renaming, FsAction::Rename)
}

/// The transition table of the relocation protocol.
pub open spec fn spec_step(s: RelocateState, e: FsEvent) -> (RelocateState, Option<FsAction>) {
    match (s, e) {
        (RelocateState::Renaming, FsEvent::Succeeded) => (RelocateState::Done, None),
        (RelocateState::Renaming, FsEvent::CrossedDevices) => (
            RelocateState::Copying,
            Some(FsAction::CopyTree),
        ),
        (RelocateState::Renaming, FsEvent::Failed) => (RelocateState::Failed, None),
        (RelocateState::Copying, FsEvent::Succeeded) => (
            RelocateState::RemovingSource,
            Some(FsAction::RemoveSource),
        ),
        (RelocateState::Copying, _) => (RelocateState::Failed, None),
        (RelocateState::RemovingSource, FsEvent::Succeeded) => (RelocateState::Done, None),
        (RelocateState::RemovingSource, _) => (
            RelocateState::UndoingCopy,
            Some(FsAction::RemoveCopy),
        ),
        (RelocateState::UndoingCopy, _) => (RelocateState::Failed, None),
        (RelocateState::Done, _) => (RelocateState::Done, None),
        (RelocateState::Failed, _) => (RelocateState::Failed, None),
    }
}

pub fn start() -> (r: (RelocateState, FsAction))
    ensures
        r == spec_start(),
{
    (RelocateState::Renaming, FsAction::Rename)
}

/// Advances the relocation by one observed filesystem outcome and says
/// which action, if any, to perform next.
pub fn step(s: RelocateState, e: FsEvent) -> (r: (RelocateState, Option<FsAction>))
    ensures
        r == spec_step(s, e),
{
    match (s, e) {
        (RelocateState::Renaming, FsEvent::Succeeded) => (RelocateState::Done, None),
        (RelocateState::Renaming, FsEvent::CrossedDevices) => (
            RelocateState::Copying,
            Some(FsAction::CopyTree),
        ),
        (RelocateState::Renaming, FsEvent::Failed) => (RelocateState::Failed, None),
        (RelocateState::Copying, FsEvent::Succeeded) => (
            RelocateState::RemovingSource,
            Some(FsAction::RemoveSource),
        ),
        (RelocateState::Copying, _) => (RelocateState::Failed, None),
        (RelocateState::RemovingSource, FsEvent::Succeeded) => (RelocateState::Done, None),
        (RelocateState::RemovingSource, _) => (
            RelocateState::UndoingCopy,
            Some(FsAction::RemoveCopy),
        ),
        (RelocateState::UndoingCopy, _) => (RelocateState::Failed, None),
        (RelocateState::Done, _) => (RelocateState::Done, None),
        (RelocateState::Failed, _) => (RelocateState::Failed, None),
    }
}

/// The source of a relocation is removed only once the copy stands
/// complete: no state and event other than a successful copy ever make the
/// engine ask for the source's removal.
pub proof fn lemma_source_removed_only_after_copy(s: RelocateState, e: FsEvent)
    ensures
        spec_step(s, e).1 == Some(FsAction::RemoveSource) ==> s is Copying && e is Succeeded,
{
}

/// A failed copy aborts the relocation outright: the engine asks for no
/// removal of anything, so the original stays where it was.
pub proof fn lemma_failed_copy_preserves_source(e: FsEvent)
    requires
        !(e is Succeeded),
    ensures
        spec_step(RelocateState::Copying, e) == (RelocateState::Failed, Option::<FsAction>::None),
{
}

/// Done and failed are absorbing: a finished relocation asks for nothing
/// more, whatever else is reported.
pub proof fn lemma_terminal_states_absorb(s: RelocateState, e: FsEvent)
    requires
        s is Done || s is Failed,
    ensures
        spec_step(s, e) == (s, Option::<FsAction>::None),
{
}

/// How a purge permanently removes a stored entry: a directory as a whole
/// tree, anything else as a single file.
#[derive(Debug, Clone, Copy, PartialEq, Eq, Structural)]
pub enum PurgeAction {
    RemoveTree,
    RemoveFile,
}

pub fn purge_action(is_dir: bool) -> (r: PurgeAction)
    ensures
        (r is RemoveTree) <==> is_dir,
{
    if is_dir {
        PurgeAction::RemoveTree
    } else {
        PurgeAction::RemoveFile
    }
}

} // verus!
