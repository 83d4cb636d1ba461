use vstd::prelude::*;

use crate::object_id::{hex_text, ObjectId};

verus! {

/// Why a submodule synchronisation stopped.
#[derive(Clone, Copy, Debug, PartialEq, Eq, Structural)]
pub enum SyncError {
    /// A submodule that would be updated has uncommitted local changes.
    LocalChangesPresent,
}

/// What the repository reports of one submodule.
#[derive(Clone, Debug)]
pub struct SubmoduleStatus {
    /// Whether the parent's index records the submodule.
    pub in_index: bool,
    /// The commit recorded in the parent's index.
    pub index_id: Option<ObjectId>,
    /// The commit checked out in the submodule's working directory.
    pub workdir_id: Option<ObjectId>,
    /// Whether the submodule's working directory has uncommitted modifications.
    pub wd_modified: bool,
}

/// Equality of two optional identifiers.
pub open spec fn same_id(a: Option<ObjectId>, b: Option<ObjectId>) -> bool {
    match (a, b) {
        (Some(x), Some(y)) => x.bytes@ == y.bytes@,
        (None, None) => true,
        _ => false,
    }
}

/// Whether the working directory is not at the commit recorded in the index.
pub open spec fn out_of_date(st: SubmoduleStatus) -> bool {
    !same_id(st.index_id, st.workdir_id)
}

/// A submodule that synchronisation would touch (one not yet in the index,
/// or, unless forcing, one whose working directory is not at the recorded
/// commit) and that holds local modifications.
pub open spec fn blocks_sync(st: SubmoduleStatus, force_commit: bool) -> bool {
    (!st.in_index || (!force_commit && out_of_date(st))) && st.wd_modified
}

/// Whether the validation pass over a walk of submodules succeeds.
pub open spec fn validation_passes(states: Seq<SubmoduleStatus>, force_commit: bool) -> bool {
    forall|i: int| 0 <= i < states.len() ==> !blocks_sync(#[trigger] states[i], force_commit)
}

/// What the update pass does with one submodule.
#[derive(Clone, Copy, Debug, PartialEq, Eq, Structural)]
pub enum UpdateAction {
    /// The working directory is at the recorded commit: leave it.
    Skip,
    /// Update the submodule to the recorded commit.
    Update,
}

/// The update decision for one submodule.
pub open spec fn update_decision(st: SubmoduleStatus) -> Result<UpdateAction, SyncError> {
    if !out_of_date(st) {
        Ok(UpdateAction::Skip)
    } else if st.wd_modified {
        Err(SyncError::LocalChangesPresent)
    } else {
        Ok(UpdateAction::Update)
    }
}

fn same_optional_id(a: &Option<ObjectId>, b: &Option<ObjectId>) -> (r: bool)
    ensures
        r == same_id(*a, *b),
{
    match (a, b) {
        (Some(x), Some(y)) => x.same_as(y),
        (None, None) => true,
        _ => false,
    }
}

/// Whether the working directory is not at the commit recorded in the index.
pub fn is_out_of_date(st: &SubmoduleStatus) -> (r: bool)
    ensures
        r == out_of_date(*st),
{
    !same_optional_id(&st.index_id, &st.workdir_id)
}

/// The validation check of one submodule: fails where it would be touched
/// while holding local modifications.
pub fn check_submodule(st: &SubmoduleStatus, force_commit: bool) -> (r: Result<(), SyncError>)
    ensures
        r.is_err() <==> blocks_sync(*st, force_commit),
        r.is_err() ==> r == Err::<(), SyncError>(SyncError::LocalChangesPresent),
{
    if (!st.in_index || (!force_commit && is_out_of_date(st))) && st.wd_modified {
        Err(SyncError::LocalChangesPresent)
    } else {
        Ok(())
    }
}

/// The validation pass over the statuses of a walk of the submodule tree,
/// nested submodules before their parents. Reads only; fails exactly when
/// some submodule blocks synchronisation.
pub fn validate_submodules(states: &Vec<SubmoduleStatus>, force_commit: bool) -> (r: Result<
    (),
    SyncError,
>)
    ensures
        r.is_ok() <==> validation_passes(states@, force_commit),
        r.is_err() ==> r == Err::<(), SyncError>(SyncError::LocalChangesPresent),
{
    let mut i: usize = 0;
    while i < states.len()
        invariant
            i <= states@.len(),
            forall|k: int| 0 <= k < i ==> !blocks_sync(#[trigger] states@[k], force_commit),
        decreases states@.len() - i,
    {
        if check_submodule(&states[i], force_commit).is_err() {
            return Err(SyncError::LocalChangesPresent);
        }
        i = i + 1;
    }
    Ok(())
}

/// The update decision for one submodule: update one that is out of date,
/// unless it holds local modifications, which the update would discard.
pub fn update_action(st: &SubmoduleStatus) -> (r: Result<UpdateAction, SyncError>)
    ensures
        r == update_decision(*st),
{
    if !is_out_of_date(st) {
        Ok(UpdateAction::Skip)
    } else if st.wd_modified {
        Err(SyncError::LocalChangesPresent)
    } else {
        Ok(UpdateAction::Update)
    }
}

/// After an update, the revision to check out inside the submodule where its
/// HEAD is still not at the recorded commit: the recorded commit's id in
/// hexadecimal.
pub fn checkout_target(index_id: &Option<ObjectId>, head_id: &Option<ObjectId>) -> (r: Option<
    String,
>)
    ensures
        match index_id {
            Some(want) => if same_id(*index_id, *head_id) {
                r.is_none()
            } else {
                r.is_some() && r.unwrap()@ == hex_text(want.bytes@)
            },
            None => r.is_none(),
        },
{
    match index_id {
        Some(want) => if same_optional_id(index_id, head_id) {
            None
        } else {
            Some(want.to_hex())
        },
        None => None,
    }
}

/// A submodule with local modifications that synchronisation would touch
/// stops the validation pass, so the update pass never starts.
pub proof fn lemma_local_changes_stop_sync(
    states: Seq<SubmoduleStatus>,
    force_commit: bool,
    i: int,
)
    requires
        0 <= i < states.len(),
        states[i].wd_modified,
        !states[i].in_index || (!force_commit && out_of_date(states[i])),
    ensures
        !validation_passes(states, force_commit),
{
    assert(blocks_sync(states[i], force_commit));
}

/// A submodule already at its recorded commit is left alone, so a second
/// synchronisation right after a successful one changes nothing.
pub proof fn lemma_synced_submodules_stay(states: Seq<SubmoduleStatus>, force_commit: bool)
    requires
        forall|i: int| 0 <= i < states.len() ==> !out_of_date(#[trigger] states[i]) && states[i].in_index,
    ensures
        validation_passes(states, force_commit),
        forall|i: int|
            0 <= i < states.len() ==> update_decision(#[trigger] states[i]) == Ok::<
                UpdateAction,
                SyncError,
            >(UpdateAction::Skip),
{
}

} // verus!
