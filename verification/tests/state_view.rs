use grevm::location::{Address, LocationAndType, U256};
use grevm::state_view::{contains_location, CommittedState, SpeculativeLayer};

fn basic(n: u128) -> LocationAndType {
    LocationAndType::Basic(Address { high: 0, low: n })
}

fn slot(account: u128, index: u128) -> LocationAndType {
    LocationAndType::Storage(Address { high: 0, low: account }, U256 { high: 0, low: index })
}

#[test]
fn committed_state_keeps_the_last_write() {
    let mut state: CommittedState<u64> = CommittedState::new();
    assert_eq!(state.get(basic(1)), None);
    state.commit(vec![(basic(1), 10), (basic(2), 20), (basic(1), 11)]);
    assert_eq!(state.get(basic(1)), Some(&11));
    assert_eq!(state.get(basic(2)), Some(&20));
    assert_eq!(state.get(basic(3)), None);
    state.commit(vec![]);
    assert_eq!(state.get(basic(1)), Some(&11));
    state.commit(vec![(basic(2), 21)]);
    assert_eq!(state.get(basic(2)), Some(&21));
}

#[test]
fn reads_go_through_the_layer_to_the_committed_state() {
    let mut committed: CommittedState<u64> = CommittedState::new();
    committed.commit(vec![(basic(1), 100), (slot(1, 0), 5)]);
    let mut layer: SpeculativeLayer<u64> = SpeculativeLayer::new();
    assert_eq!(layer.read(&committed, basic(1)), Some(&100));
    assert_eq!(layer.read(&committed, basic(9)), None);
    layer.write(basic(1), 99);
    assert_eq!(layer.read(&committed, basic(1)), Some(&99));
    assert_eq!(layer.read(&committed, slot(1, 0)), Some(&5));
    // the committed state is untouched
    assert_eq!(committed.get(basic(1)), Some(&100));
}

#[test]
fn read_and_write_sets_note_each_location_once() {
    let committed: CommittedState<u64> = CommittedState::new();
    let mut layer: SpeculativeLayer<u64> = SpeculativeLayer::new();
    layer.read(&committed, basic(2));
    layer.read(&committed, basic(1));
    layer.read(&committed, basic(2));
    layer.write(basic(3), 1);
    layer.write(basic(3), 2);
    layer.write(basic(1), 7);
    let observed = layer.finish_transaction();
    assert_eq!(observed.read_set, vec![basic(2), basic(1)]);
    assert_eq!(observed.write_set, vec![basic(3), basic(1)]);
}

#[test]
fn later_transactions_of_the_partition_see_earlier_writes() {
    let committed: CommittedState<u64> = CommittedState::new();
    let mut layer: SpeculativeLayer<u64> = SpeculativeLayer::new();
    layer.write(basic(1), 7);
    let first = layer.finish_transaction();
    assert_eq!(first.write_set, vec![basic(1)]);
    assert_eq!(layer.read(&committed, basic(1)), Some(&7));
    let second = layer.finish_transaction();
    assert_eq!(second.read_set, vec![basic(1)]);
    assert!(second.write_set.is_empty());
    let third = layer.finish_transaction();
    assert!(third.read_set.is_empty() && third.write_set.is_empty());
}

#[test]
fn contains_location_tells_kinds_apart() {
    let list = vec![basic(1), slot(1, 2)];
    assert!(contains_location(&list, basic(1)));
    assert!(contains_location(&list, slot(1, 2)));
    assert!(!contains_location(&list, LocationAndType::Code(Address { high: 0, low: 1 })));
    assert!(!contains_location(&list, slot(1, 3)));
    assert!(!contains_location(&Vec::new(), basic(1)));
}
