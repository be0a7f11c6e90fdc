use capture::pairing::PairingStore;

#[test]
fn first_selection_is_pending_then_second_completes_pair() {
    let mut store = PairingStore::new();
    assert_eq!(store.process(7, 100), None);
    assert_eq!(store.process(7, 200), Some([100, 200]));
}

#[test]
fn third_selection_starts_a_new_pairing() {
    let mut store = PairingStore::new();
    assert_eq!(store.process(7, 100), None);
    assert_eq!(store.process(7, 200), Some([100, 200]));
    assert_eq!(store.take(7), None);
    assert_eq!(store.process(7, 300), None);
    assert_eq!(store.process(7, 400), Some([300, 400]));
}

#[test]
fn interleaved_users_never_cross() {
    let mut store = PairingStore::new();
    assert_eq!(store.process(1, 10), None);
    assert_eq!(store.process(2, 20), None);
    assert_eq!(store.process(2, 21), Some([20, 21]));
    assert_eq!(store.process(1, 11), Some([10, 11]));
}

#[test]
fn first_selection_leaves_other_users_alone() {
    let mut store = PairingStore::new();
    assert_eq!(store.insert(1, 10), None);
    assert_eq!(store.process(2, 20), None);
    assert_eq!(store.take(1), Some(10));
    assert_eq!(store.take(2), Some(20));
}

#[test]
fn same_message_twice_pairs_with_itself() {
    let mut store = PairingStore::new();
    assert_eq!(store.process(3, 5), None);
    assert_eq!(store.process(3, 5), Some([5, 5]));
}

#[test]
fn insert_returns_previous_and_overwrites() {
    let mut store = PairingStore::new();
    assert_eq!(store.insert(4, 1), None);
    assert_eq!(store.insert(4, 2), Some(1));
    assert_eq!(store.take(4), Some(2));
    assert_eq!(store.take(4), None);
}

#[test]
fn take_on_empty_store_is_none() {
    let mut store = PairingStore::new();
    assert_eq!(store.take(9), None);
}
