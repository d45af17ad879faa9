use sha2::Digest;
use sha2::Sha256;
use zk_ledger::accumulator::commit;
use zk_ledger::accumulator::MerkleTreeState;
use zk_ledger::Transaction;

fn digest(bytes: &[u8]) -> Vec<u8> {
    Sha256::digest(bytes).to_vec()
}

fn digest_pair(left: &[u8], right: &[u8]) -> Vec<u8> {
    let mut buf = left.to_vec();
    buf.extend_from_slice(right);
    digest(&buf)
}

#[test]
fn two_record_batch_committed_twice_same_root_swapped_differs() {
    let mut accumulator = MerkleTreeState::new();
    let txs = vec!["alice pays bob 10".to_string(), "bob pays alice 5".to_string()];
    let first = accumulator.update_state(&txs);
    let second = accumulator.update_state(&txs);
    assert_eq!(first, second);

    let swapped = vec![txs[1].clone(), txs[0].clone()];
    let reordered = accumulator.update_state(&swapped);
    assert_ne!(first, reordered);
    assert_eq!(accumulator.root(), &reordered);
}

#[test]
fn single_record_root_is_its_leaf_digest() {
    let mut accumulator = MerkleTreeState::new();
    let txs = vec!["alice pays bob 10".to_string()];
    let root = accumulator.update_state(&txs);
    assert_eq!(root, digest(b"alice pays bob 10"));
}

#[test]
fn two_record_root_matches_recomputed_tree() {
    let mut accumulator = MerkleTreeState::new();
    let txs = vec!["alice pays bob 10".to_string(), "bob pays alice 5".to_string()];
    let root = accumulator.update_state(&txs);
    let left = digest(b"alice pays bob 10");
    let right = digest(b"bob pays alice 5");
    assert_eq!(root, digest_pair(&left, &right));
}

#[test]
fn three_records_padded_with_zero_leaf() {
    let mut accumulator = MerkleTreeState::new();
    let txs = vec!["a".to_string(), "b".to_string(), "c".to_string()];
    let root = accumulator.update_state(&txs);
    let zero = [0u8; 32];
    let n01 = digest_pair(&digest(b"a"), &digest(b"b"));
    let n23 = digest_pair(&digest(b"c"), &zero);
    assert_eq!(root, digest_pair(&n01, &n23));
}

#[test]
fn empty_batch_has_zero_leaf_baseline_root() {
    let accumulator = MerkleTreeState::new();
    let zero = [0u8; 32];
    let node = digest_pair(&zero, &zero);
    let baseline = digest_pair(&node, &node);
    assert_eq!(accumulator.root(), &baseline);

    let empty: Vec<Transaction> = Vec::new();
    assert_eq!(commit(&empty), baseline);
}

#[test]
fn record_commit_deterministic_and_sensitive_to_any_field() {
    let batch = vec![Transaction::new("alice", "bob", 10), Transaction::new("bob", "alice", 5)];
    let again = vec![Transaction::new("alice", "bob", 10), Transaction::new("bob", "alice", 5)];
    assert_eq!(commit(&batch), commit(&again));

    let amount_changed = vec![
        Transaction::new("alice", "bob", 11),
        Transaction::new("bob", "alice", 5),
    ];
    assert_ne!(commit(&batch), commit(&amount_changed));

    let receiver_changed = vec![
        Transaction::new("alice", "carol", 10),
        Transaction::new("bob", "alice", 5),
    ];
    assert_ne!(commit(&batch), commit(&receiver_changed));

    let swapped = vec![Transaction::new("bob", "alice", 5), Transaction::new("alice", "bob", 10)];
    assert_ne!(commit(&batch), commit(&swapped));
}

#[test]
fn record_leaf_uses_canonical_length_prefixed_encoding() {
    let batch = vec![Transaction::new("ab", "c", 7)];
    let root = commit(&batch);
    let mut encoded: Vec<u8> = Vec::new();
    encoded.extend_from_slice(&2u64.to_le_bytes());
    encoded.extend_from_slice(b"ab");
    encoded.extend_from_slice(&1u64.to_le_bytes());
    encoded.extend_from_slice(b"c");
    encoded.extend_from_slice(&7u64.to_le_bytes());
    assert_eq!(root, digest(&encoded));
}
