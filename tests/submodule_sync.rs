use gittools::{
    check_submodule, checkout_target, is_out_of_date, update_action, validate_submodules,
    ObjectId, SubmoduleStatus, SyncError, UpdateAction,
};

fn id(b: u8) -> Option<ObjectId> {
    Some(ObjectId { bytes: vec![b; 20] })
}

fn status(in_index: bool, index: u8, workdir: u8, dirty: bool) -> SubmoduleStatus {
    SubmoduleStatus { in_index, index_id: id(index), workdir_id: id(workdir), wd_modified: dirty }
}

#[test]
fn scenario_c_synced_submodule_is_left_alone() {
    let st = status(true, 1, 1, false);
    assert!(!is_out_of_date(&st));
    assert_eq!(validate_submodules(&vec![st.clone()], false), Ok(()));
    assert_eq!(update_action(&st), Ok(UpdateAction::Skip));
    assert_eq!(update_action(&st), Ok(UpdateAction::Skip));
}

#[test]
fn scenario_d_local_changes_abort_everything() {
    let walk = vec![status(true, 1, 1, false), status(true, 2, 3, true), status(true, 4, 5, false)];
    assert_eq!(validate_submodules(&walk, false), Err(SyncError::LocalChangesPresent));
}

#[test]
fn nested_dirty_submodule_aborts() {
    let walk = vec![status(true, 7, 8, true), status(true, 1, 1, false)];
    assert_eq!(validate_submodules(&walk, false), Err(SyncError::LocalChangesPresent));
}

#[test]
fn validation_is_repeatable() {
    let walk = vec![status(true, 1, 2, false), status(true, 3, 3, true)];
    let first = validate_submodules(&walk, false);
    let second = validate_submodules(&walk, false);
    assert_eq!(first, Ok(()));
    assert_eq!(first, second);
}

#[test]
fn dirty_but_up_to_date_does_not_block() {
    assert_eq!(check_submodule(&status(true, 1, 1, true), false), Ok(()));
}

#[test]
fn untracked_dirty_submodule_blocks_even_when_forcing() {
    assert_eq!(check_submodule(&status(false, 1, 1, true), true), Err(SyncError::LocalChangesPresent));
    assert_eq!(check_submodule(&status(false, 1, 1, false), true), Ok(()));
}

#[test]
fn forcing_skips_the_out_of_date_check() {
    assert_eq!(check_submodule(&status(true, 1, 2, true), true), Ok(()));
    assert_eq!(check_submodule(&status(true, 1, 2, true), false), Err(SyncError::LocalChangesPresent));
}

#[test]
fn missing_ids_count_as_out_of_date() {
    let st = SubmoduleStatus { in_index: true, index_id: id(1), workdir_id: None, wd_modified: false };
    assert!(is_out_of_date(&st));
    let none = SubmoduleStatus { in_index: true, index_id: None, workdir_id: None, wd_modified: false };
    assert!(!is_out_of_date(&none));
}

#[test]
fn update_decisions() {
    assert_eq!(update_action(&status(true, 1, 2, false)), Ok(UpdateAction::Update));
    assert_eq!(update_action(&status(true, 1, 2, true)), Err(SyncError::LocalChangesPresent));
    assert_eq!(update_action(&status(true, 1, 1, true)), Ok(UpdateAction::Skip));
}

#[test]
fn checkout_after_update() {
    assert_eq!(checkout_target(&id(0xab), &id(0xab)), None);
    assert_eq!(checkout_target(&id(0xab), &id(0x01)), Some("ab".repeat(20)));
    assert_eq!(checkout_target(&id(0x0f), &None), Some("0f".repeat(20)));
    assert_eq!(checkout_target(&None, &id(1)), None);
}
