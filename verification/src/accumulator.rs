//! The commitment accumulator: folds an ordered batch of transaction
//! records into one fixed-width digest with a binary hash tree.
//!
//! Leaves are digests of each record's canonical encoding, taken in batch
//! order. The leaf level is padded with zero-filled digests up to the next
//! power of two; an empty batch is committed as four zero-filled leaves,
//! the baseline root. Every combining step digests the concatenation of the
//! two children, so both prover and verifier recompute identical roots from
//! identical inputs.

use crate::codec::append_bytes;
use crate::codec::encode_record;
use crate::codec::spec_encode_record;
use crate::hashing::sha256;
use crate::hashing::sha256_of;
use crate::transaction::Transaction;
use vstd::prelude::*;

verus! {

/// A zero-filled digest, used for padding and for the baseline root.
pub open spec fn zero_leaf() -> Seq<u8> {
    Seq::new(32, |i: int| 0u8)
}

/// An interior node digests the concatenation of its two children.
pub open spec fn node_hash(left: Seq<u8>, right: Seq<u8>) -> Seq<u8> {
    sha256_of(left + right)
}

/// One combining pass: adjacent pairs become their parents, in order.
pub open spec fn combine_level(level: Seq<Seq<u8>>) -> Seq<Seq<u8>> {
    Seq::new(level.len() / 2, |i: int| node_hash(level[2 * i], level[2 * i + 1]))
}

/// The root of a level: combine pairwise until one digest remains.
pub open spec fn root_of_level(level: Seq<Seq<u8>>) -> Seq<u8>
    decreases level.len(),
{
    if level.len() == 0 {
        zero_leaf()
    } else if level.len() == 1 {
        level[0]
    } else {
        root_of_level(combine_level(level))
    }
}

/// A positive power of two.
pub open spec fn is_pow2(n: nat) -> bool
    decreases n,
{
    if n == 0 {
        false
    } else if n == 1 {
        true
    } else {
        n % 2 == 0 && is_pow2(n / 2)
    }
}

/// The smallest power of two not below `n` (taking 1 for an empty count).
pub open spec fn spec_next_pow2(n: nat) -> nat
    decreases n,
{
    if n <= 1 {
        1
    } else {
        2 * spec_next_pow2((n + 1) / 2)
    }
}

pub proof fn lemma_next_pow2_bounds(n: nat)
    requires
        n >= 1,
    ensures
        n <= spec_next_pow2(n),
        spec_next_pow2(n) < 2 * n,
        n >= 2 ==> spec_next_pow2(n) <= 2 * (n - 1),
    decreases n,
{
    if n >= 2 {
        let m = (n + 1) / 2;
        lemma_next_pow2_bounds(m);
    }
}

pub proof fn lemma_next_pow2_is_pow2(n: nat)
    ensures
        is_pow2(spec_next_pow2(n)),
    decreases n,
{
    if n <= 1 {
        assert(is_pow2(1));
    } else {
        let m = (n + 1) / 2;
        lemma_next_pow2_is_pow2(m);
        lemma_next_pow2_bounds(m);
        let p = spec_next_pow2(m);
        assert((2 * p) % 2 == 0);
        assert((2 * p) / 2 == p);
    }
}

/// The leaf level the accumulator actually folds: the given leaves padded
/// with zero-filled digests to the next power of two, or the four-leaf
/// baseline for an empty batch.
pub open spec fn spec_padded(leaves: Seq<Seq<u8>>) -> Seq<Seq<u8>> {
    if leaves.len() == 0 {
        Seq::new(4, |i: int| zero_leaf())
    } else {
        leaves + Seq::new((spec_next_pow2(leaves.len()) - leaves.len()) as nat, |i: int| zero_leaf())
    }
}

/// The commitment root of an ordered leaf sequence.
pub open spec fn spec_root(leaves: Seq<Seq<u8>>) -> Seq<u8> {
    root_of_level(spec_padded(leaves))
}

/// The leaf a transaction record contributes: the digest of its canonical
/// encoding.
pub open spec fn leaf_of_record(tx: Transaction) -> Seq<u8> {
    sha256_of(spec_encode_record(tx.sender@, tx.receiver@, tx.amount))
}

/// The root committed to an ordered batch of transaction records.
pub open spec fn spec_commit(batch: Seq<Transaction>) -> Seq<u8> {
    spec_root(batch.map_values(|tx: Transaction| leaf_of_record(tx)))
}

/// The leaf a free-form text record contributes: the digest of its UTF-8
/// bytes.
pub open spec fn leaf_of_text(text: Seq<char>) -> Seq<u8> {
    sha256_of(vstd::utf8::encode_utf8(text))
}

/// The root committed to an ordered batch of text records.
pub open spec fn spec_text_root(records: Seq<Seq<char>>) -> Seq<u8> {
    spec_root(records.map_values(|text: Seq<char>| leaf_of_text(text)))
}

/// Committing is a pure function of the ordered batch: equal batches yield
/// equal roots, whoever computes them.
pub proof fn lemma_commit_deterministic(batch1: Seq<Transaction>, batch2: Seq<Transaction>)
    requires
        batch1 == batch2,
    ensures
        spec_commit(batch1) == spec_commit(batch2),
{
}

/// A fresh zero-filled digest.
fn zero_digest() -> (out: Vec<u8>)
    ensures
        out@ == zero_leaf(),
        out@.len() == 32,
{
    let mut out: Vec<u8> = Vec::new();
    let mut i: usize = 0;
    while i < 32
        invariant
            i <= 32,
            out@.len() == i,
            forall|k: int| 0 <= k < i ==> out@[k] == 0u8,
        decreases 32 - i,
    {
        out.push(0u8);
        i += 1;
    }
    proof {
        assert(out@ =~= zero_leaf());
    }
    out
}

/// Digests the concatenation of two digests.
fn hash_pair(left: &Vec<u8>, right: &Vec<u8>) -> (out: Vec<u8>)
    ensures
        out@ == node_hash(left@, right@),
        out@.len() == 32,
{
    let mut buf: Vec<u8> = Vec::new();
    append_bytes(&mut buf, left.as_slice());
    append_bytes(&mut buf, right.as_slice());
    proof {
        assert(Seq::<u8>::empty() + left@ + right@ =~= left@ + right@);
    }
    sha256(buf.as_slice())
}

/// The views of a digest vector.
pub open spec fn digest_views(level: Seq<Vec<u8>>) -> Seq<Seq<u8>> {
    level.map_values(|d: Vec<u8>| d@)
}

/// The smallest power of two not below `n`.
fn next_pow2(n: usize) -> (p: usize)
    requires
        n <= usize::MAX / 2,
    ensures
        p as nat == spec_next_pow2(n as nat),
        p >= 1,
    decreases n,
{
    if n <= 1 {
        1
    } else {
        proof {
            lemma_next_pow2_bounds(n as nat);
            lemma_next_pow2_bounds(((n + 1) / 2) as nat);
        }
        2 * next_pow2((n + 1) / 2)
    }
}

/// Folds a power-of-two level of full-width digests down to its root.
fn merkle_root(leaves: Vec<Vec<u8>>) -> (root: Vec<u8>)
    requires
        is_pow2(leaves@.len() as nat),
        forall|k: int| 0 <= k < leaves@.len() ==> (#[trigger] leaves@[k])@.len() == 32,
    ensures
        root@ == root_of_level(digest_views(leaves@)),
        root@.len() == 32,
{
    let ghost initial = digest_views(leaves@);
    let mut level = leaves;
    while level.len() > 1
        invariant
            is_pow2(level@.len() as nat),
            level@.len() >= 1,
            forall|k: int| 0 <= k < level@.len() ==> (#[trigger] level@[k])@.len() == 32,
            root_of_level(digest_views(level@)) == root_of_level(initial),
        decreases level@.len(),
    {
        let ghost level_before = level@;
        let half = level.len() / 2;
        proof {
            assert(level@.len() % 2 == 0 && is_pow2((level@.len() / 2) as nat));
        }
        let mut next: Vec<Vec<u8>> = Vec::new();
        let mut j: usize = 0;
        while j < half
            invariant
                level@ == level_before,
                half == level@.len() / 2,
                2 * half == level@.len(),
                level@.len() <= usize::MAX,
                j <= half,
                next@.len() == j,
                forall|k: int| 0 <= k < level@.len() ==> (#[trigger] level@[k])@.len() == 32,
                forall|k: int|
                    0 <= k < j ==> (#[trigger] next@[k])@ == node_hash(
                        level@[2 * k]@,
                        level@[2 * k + 1]@,
                    ),
                forall|k: int| 0 <= k < j ==> (#[trigger] next@[k])@.len() == 32,
            decreases half - j,
        {
            let parent = hash_pair(&level[2 * j], &level[2 * j + 1]);
            next.push(parent);
            j += 1;
        }
        proof {
            assert(digest_views(next@) =~= combine_level(digest_views(level_before)));
        }
        level = next;
    }
    proof {
        assert(level@.len() == 1);
        assert(root_of_level(digest_views(level@)) == digest_views(level@)[0]);
    }
    let root = match level.pop() {
        Some(d) => d,
        None => zero_digest(),
    };
    root
}

/// Pads a leaf vector to the accumulator's leaf level and folds it.
fn commit_leaves(leaves: Vec<Vec<u8>>) -> (root: Vec<u8>)
    requires
        leaves@.len() <= usize::MAX / 2,
        forall|k: int| 0 <= k < leaves@.len() ==> (#[trigger] leaves@[k])@.len() == 32,
    ensures
        root@ == spec_root(digest_views(leaves@)),
        root@.len() == 32,
{
    let ghost given = digest_views(leaves@);
    let mut level = leaves;
    let target = if level.len() == 0 {
        4
    } else {
        next_pow2(level.len())
    };
    proof {
        if level@.len() == 0 {
            assert(is_pow2(1));
            assert(is_pow2(2));
            assert(is_pow2(4));
        } else {
            lemma_next_pow2_is_pow2(level@.len() as nat);
            lemma_next_pow2_bounds(level@.len() as nat);
        }
    }
    let ghost kept = level@;
    while level.len() < target
        invariant
            kept.len() <= level@.len() <= target,
            level@.subrange(0, kept.len() as int) == kept,
            forall|k: int| kept.len() <= k < level@.len() ==> (#[trigger] level@[k])@ == zero_leaf(),
            forall|k: int| 0 <= k < level@.len() ==> (#[trigger] level@[k])@.len() == 32,
        decreases target - level@.len(),
    {
        level.push(zero_digest());
        proof {
            assert(level@.subrange(0, kept.len() as int) =~= kept);
        }
    }
    proof {
        assert(digest_views(level@) =~= spec_padded(given));
    }
    merkle_root(level)
}

/// Commits an ordered batch of transaction records: one leaf per record, in
/// the given order, so identical batches produce identical roots.
pub fn commit(batch: &Vec<Transaction>) -> (root: Vec<u8>)
    requires
        batch@.len() <= usize::MAX / 2,
    ensures
        root@ == spec_commit(batch@),
        root@.len() == 32,
{
    let mut leaves: Vec<Vec<u8>> = Vec::new();
    let mut i: usize = 0;
    while i < batch.len()
        invariant
            i <= batch@.len(),
            leaves@.len() == i,
            forall|k: int|
                0 <= k < i ==> (#[trigger] leaves@[k])@ == leaf_of_record(batch@[k]),
            forall|k: int| 0 <= k < i ==> (#[trigger] leaves@[k])@.len() == 32,
        decreases batch@.len() - i,
    {
        let encoded = encode_record(&batch[i]);
        let leaf = sha256(encoded.as_slice());
        leaves.push(leaf);
        i += 1;
    }
    let root = commit_leaves(leaves);
    proof {
        assert(digest_views(leaves@) =~= batch@.map_values(|tx: Transaction| leaf_of_record(tx)));
    }
    root
}

/// The rollup-side accumulator state: holds the most recently computed
/// commitment root, starting from the zero-leaf baseline.
#[derive(Debug)]
pub struct MerkleTreeState {
    root: Vec<u8>,
}

impl MerkleTreeState {
    /// The root this accumulator currently holds.
    pub closed spec fn current_root(self) -> Seq<u8> {
        self.root@
    }

    /// The held root is always a full-width digest.
    pub closed spec fn wf(self) -> bool {
        self.root@.len() == 32
    }

    /// Starts from the baseline root over four zero-filled leaves.
    pub fn new() -> (state: MerkleTreeState)
        ensures
            state.wf(),
            state.current_root() == spec_root(Seq::<Seq<u8>>::empty()),
    {
        let leaves: Vec<Vec<u8>> = Vec::new();
        proof {
            assert(digest_views(leaves@) =~= Seq::<Seq<u8>>::empty());
        }
        let root = commit_leaves(leaves);
        MerkleTreeState { root }
    }

    /// The held root, for anchoring and predecessor linkage.
    pub fn root(&self) -> (root: &Vec<u8>)
        ensures
            root@ == self.current_root(),
    {
        &self.root
    }

    /// Recommits to the given ordered text records, holds the new root and
    /// returns it.
    pub fn update_state(&mut self, txs: &Vec<String>) -> (root: Vec<u8>)
        requires
            txs@.len() <= usize::MAX / 2,
        ensures
            final(self).wf(),
            root@ == spec_text_root(txs@.map_values(|s: String| s@)),
            final(self).current_root() == root@,
    {
        let mut leaves: Vec<Vec<u8>> = Vec::new();
        let mut i: usize = 0;
        while i < txs.len()
            invariant
                i <= txs@.len(),
                leaves@.len() == i,
                forall|k: int|
                    0 <= k < i ==> (#[trigger] leaves@[k])@ == leaf_of_text(txs@[k]@),
                forall|k: int| 0 <= k < i ==> (#[trigger] leaves@[k])@.len() == 32,
            decreases txs@.len() - i,
        {
            let leaf = sha256(txs[i].as_str().as_bytes());
            leaves.push(leaf);
            i += 1;
        }
        let root = commit_leaves(leaves);
        proof {
            assert(digest_views(leaves@) =~= txs@.map_values(|s: String| s@).map_values(
                |text: Seq<char>| leaf_of_text(text),
            ));
        }
        let mut held: Vec<u8> = Vec::new();
        append_bytes(&mut held, root.as_slice());
        proof {
            assert(held@ =~= root@);
        }
        self.root = held;
        root
    }
}

} // verus!
