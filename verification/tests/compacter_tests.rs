use db_rs::compacter::Step;
use db_rs::BackgroundCompacter;
use db_rs::CancelSig;

#[test]
fn a_signal_is_shared_by_its_clones() {
    let cancel = CancelSig::default();
    let other = cancel.clone();
    assert!(!cancel.is_canceled());
    assert!(!other.is_canceled());
    other.cancel();
    assert!(cancel.is_canceled());
    assert!(other.is_canceled());
}

#[test]
fn the_compactor_counts_its_compactions() {
    let mut compacter = BackgroundCompacter::begin_compacter();
    assert_eq!(compacter.wake(true), Step::Stop(0));
    assert_eq!(compacter.wake(false), Step::Compact);
    compacter.compacted();
    compacter.compacted();
    compacter.compacted();
    assert_eq!(compacter.wake(false), Step::Compact);
    assert_eq!(compacter.wake(true), Step::Stop(3));
}
