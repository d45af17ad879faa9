use zk_ledger::execute_transaction;
use zk_ledger::State;
use zk_ledger::Transaction;

#[test]
fn genesis_seeds_two_accounts() {
    let state = State::new();
    assert_eq!(state.balance_of("alice"), 100);
    assert_eq!(state.balance_of("bob"), 50);
    assert_eq!(state.balance_of("carol"), 0);
}

#[test]
fn transfer_scenario_success_then_insufficient() {
    let mut state = State::new();
    let ok = execute_transaction(&mut state, Transaction::new("alice", "bob", 30));
    assert!(ok);
    assert_eq!(state.balance_of("alice"), 70);
    assert_eq!(state.balance_of("bob"), 80);

    let ok = execute_transaction(&mut state, Transaction::new("alice", "bob", 1000));
    assert!(!ok);
    assert_eq!(state.balance_of("alice"), 70);
    assert_eq!(state.balance_of("bob"), 80);
}

#[test]
fn transfer_of_entire_balance_succeeds() {
    let mut state = State::new();
    assert!(state.apply_transaction("alice", "bob", 100));
    assert_eq!(state.balance_of("alice"), 0);
    assert_eq!(state.balance_of("bob"), 150);
    assert!(!state.apply_transaction("alice", "bob", 1));
}

#[test]
fn transfer_to_new_account_creates_it() {
    let mut state = State::new();
    assert!(state.apply_transaction("bob", "carol", 20));
    assert_eq!(state.balance_of("bob"), 30);
    assert_eq!(state.balance_of("carol"), 20);
}

#[test]
fn transfer_from_absent_sender_fails_unless_zero() {
    let mut state = State::new();
    assert!(!state.apply_transaction("carol", "alice", 1));
    assert_eq!(state.balance_of("alice"), 100);
    let ok = state.apply_transaction("carol", "alice", 0);
    assert!(ok);
    assert_eq!(state.balance_of("alice"), 100);
    assert_eq!(state.balance_of("carol"), 0);
}

#[test]
fn self_transfer_keeps_balance() {
    let mut state = State::new();
    assert!(state.apply_transaction("alice", "alice", 40));
    assert_eq!(state.balance_of("alice"), 100);
    assert!(!state.apply_transaction("alice", "alice", 101));
    assert_eq!(state.balance_of("alice"), 100);
}

#[test]
fn supply_conserved_over_sequence() {
    let mut state = State::new();
    let transfers = vec![
        ("alice", "bob", 10u64),
        ("bob", "carol", 45),
        ("carol", "alice", 45),
        ("alice", "dave", 200),
        ("dave", "alice", 0),
    ];
    for (sender, receiver, amount) in transfers {
        state.apply_transaction(sender, receiver, amount);
        let sum = state.balance_of("alice") + state.balance_of("bob")
            + state.balance_of("carol") + state.balance_of("dave");
        assert_eq!(sum, 150);
    }
}

#[test]
fn snapshot_restore_roundtrip() {
    let mut state = State::new();
    assert!(execute_transaction(&mut state, Transaction::new("alice", "émile", 25)));
    let bytes = state.snapshot();
    let restored = State::restore(bytes.as_slice()).expect("a snapshot must restore");
    assert_eq!(restored.balance_of("alice"), 75);
    assert_eq!(restored.balance_of("bob"), 50);
    assert_eq!(restored.balance_of("émile"), 25);
    assert_eq!(restored.snapshot(), bytes);
}

#[test]
fn restore_rejects_malformed_bytes() {
    assert!(State::restore(&[]).is_none());
    assert!(State::restore(&[1, 2, 3]).is_none());

    let mut truncated = State::new().snapshot();
    truncated.pop();
    assert!(State::restore(truncated.as_slice()).is_none());

    let mut trailing = State::new().snapshot();
    trailing.push(0);
    assert!(State::restore(trailing.as_slice()).is_none());

    let mut bad_count = State::new().snapshot();
    bad_count[0] = bad_count[0].wrapping_add(1);
    assert!(State::restore(bad_count.as_slice()).is_none());
}

#[test]
fn restore_rejects_invalid_utf8_address() {
    let mut bytes: Vec<u8> = Vec::new();
    bytes.extend_from_slice(&1u64.to_le_bytes());
    bytes.extend_from_slice(&2u64.to_le_bytes());
    bytes.extend_from_slice(&[0xff, 0xfe]);
    bytes.extend_from_slice(&7u64.to_le_bytes());
    assert!(State::restore(bytes.as_slice()).is_none());
}
