//! Canonical byte encodings: the snapshot format that serializes a whole
//! ledger state for durable storage, and the fixed-order record encoding
//! that commitment leaves digest.
//!
//! Snapshot layout: the account count as a 64-bit little-endian integer,
//! then per account its address byte length (64-bit little-endian), the
//! address's UTF-8 bytes, and its balance (64-bit little-endian). A record
//! is encoded as the same length-prefixed party fields followed by the
//! amount.

use crate::ledger::distinct_addresses;
use crate::ledger::total;
use crate::ledger::Account;
use crate::ledger::State;
use crate::transaction::Transaction;
use vstd::bytes::lemma_auto_spec_u64_to_from_le_bytes;
use vstd::bytes::spec_u64_from_le_bytes;
use vstd::bytes::spec_u64_to_le_bytes;
use vstd::bytes::u64_from_le_bytes;
use vstd::bytes::u64_to_le_bytes;
use vstd::prelude::*;
use vstd::slice::slice_index_get;
use vstd::slice::slice_subrange;
use vstd::slice::slice_to_vec;
use vstd::utf8::decode_utf8;
use vstd::utf8::decode_utf8_encode_utf8;
use vstd::utf8::encode_utf8;
use vstd::utf8::encode_utf8_decode_utf8;
use vstd::utf8::encode_utf8_valid_utf8;
use vstd::utf8::valid_utf8;

verus! {

/// Appends `src` to `out`.
pub(crate) fn append_bytes(out: &mut Vec<u8>, src: &[u8])
    ensures
        final(out)@ == old(out)@ + src@,
{
    proof {
        assert(old(out)@ + src@.subrange(0, 0) =~= old(out)@);
    }
    let mut i: usize = 0;
    while i < src.len()
        invariant
            i <= src@.len(),
            out@ == old(out)@ + src@.subrange(0, i as int),
        decreases src@.len() - i,
    {
        out.push(*slice_index_get(src, i));
        proof {
            assert(old(out)@ + src@.subrange(0, i + 1) =~= (old(out)@ + src@.subrange(
                0,
                i as int,
            )).push(src@[i as int]));
        }
        i += 1;
    }
    proof {
        assert(src@.subrange(0, src@.len() as int) =~= src@);
    }
}

/// Relies on `String::from_utf8`: succeeds exactly on valid UTF-8 input and
/// returns the string whose encoding is that input.
#[verifier::external_body]
fn string_from_utf8(bytes: Vec<u8>) -> (r: Option<String>)
    ensures
        r matches Some(s) ==> valid_utf8(bytes@) && encode_utf8(s@) == bytes@,
        r is None ==> !valid_utf8(bytes@),
{
    match String::from_utf8(bytes) {
        Ok(s) => Some(s),
        Err(_) => None,
    }
}

/// One length-prefixed UTF-8 field: the byte length, then the bytes.
pub open spec fn spec_field_bytes(text: Seq<char>) -> Seq<u8> {
    spec_u64_to_le_bytes(encode_utf8(text).len() as u64) + encode_utf8(text)
}

/// The canonical bytes of one transaction record: sender, receiver, amount,
/// in that fixed order and fixed-width encoding.
pub open spec fn spec_encode_record(sender: Seq<char>, receiver: Seq<char>, amount: u64) -> Seq<
    u8,
> {
    spec_field_bytes(sender) + spec_field_bytes(receiver) + spec_u64_to_le_bytes(amount)
}

/// Appends one length-prefixed UTF-8 field.
fn append_field(out: &mut Vec<u8>, text: &str)
    ensures
        final(out)@ == old(out)@ + spec_field_bytes(text@),
{
    let bytes = text.as_bytes();
    let len_bytes = u64_to_le_bytes(bytes.len() as u64);
    append_bytes(out, len_bytes.as_slice());
    append_bytes(out, bytes);
    proof {
        assert(old(out)@ + len_bytes@ + bytes@ =~= old(out)@ + spec_field_bytes(text@));
    }
}

/// Encodes one record canonically, as the commitment accumulator digests it.
pub fn encode_record(tx: &Transaction) -> (out: Vec<u8>)
    ensures
        out@ == spec_encode_record(tx.sender@, tx.receiver@, tx.amount),
{
    let mut out: Vec<u8> = Vec::new();
    append_field(&mut out, tx.sender.as_str());
    append_field(&mut out, tx.receiver.as_str());
    let amount_bytes = u64_to_le_bytes(tx.amount);
    append_bytes(&mut out, amount_bytes.as_slice());
    proof {
        assert(Seq::<u8>::empty() + spec_field_bytes(tx.sender@) + spec_field_bytes(tx.receiver@)
            + spec_u64_to_le_bytes(tx.amount) =~= spec_encode_record(
            tx.sender@,
            tx.receiver@,
            tx.amount,
        ));
    }
    out
}

/// One snapshot entry: the length-prefixed address field, then the balance.
pub open spec fn spec_entry_bytes(address: Seq<char>, balance: u64) -> Seq<u8> {
    spec_field_bytes(address) + spec_u64_to_le_bytes(balance)
}

/// The entries of a snapshot body, in account order.
pub open spec fn spec_encode_entries(accounts: Seq<Account>) -> Seq<u8>
    decreases accounts.len(),
{
    if accounts.len() == 0 {
        Seq::empty()
    } else {
        spec_entry_bytes(accounts.first().address@, accounts.first().balance)
            + spec_encode_entries(accounts.drop_first())
    }
}

/// A whole snapshot: the account count, then the entries.
pub open spec fn spec_snapshot_bytes(accounts: Seq<Account>) -> Seq<u8> {
    spec_u64_to_le_bytes(accounts.len() as u64) + spec_encode_entries(accounts)
}

/// Appending one account to a ledger appends its entry to the encoding.
proof fn lemma_encode_entries_snoc(accounts: Seq<Account>, account: Account)
    ensures
        spec_encode_entries(accounts.push(account)) == spec_encode_entries(accounts)
            + spec_entry_bytes(account.address@, account.balance),
    decreases accounts.len(),
{
    let extended = accounts.push(account);
    if accounts.len() == 0 {
        assert(extended.first() == account);
        assert(extended.drop_first() =~= Seq::<Account>::empty());
        assert(spec_encode_entries(Seq::<Account>::empty()) =~= Seq::<u8>::empty());
        assert(spec_encode_entries(extended) =~= spec_encode_entries(accounts) + spec_entry_bytes(
            account.address@,
            account.balance,
        ));
    } else {
        assert(extended.first() == accounts.first());
        assert(extended.drop_first() =~= accounts.drop_first().push(account));
        lemma_encode_entries_snoc(accounts.drop_first(), account);
        assert(spec_encode_entries(extended) =~= spec_encode_entries(accounts) + spec_entry_bytes(
            account.address@,
            account.balance,
        ));
    }
}

impl State {
    /// Serializes the whole balance map into the canonical snapshot bytes.
    /// Writing them to durable storage is the caller's duty.
    pub fn snapshot(&self) -> (out: Vec<u8>)
        ensures
            out@ == spec_snapshot_bytes(self.balances@),
    {
        let mut out = u64_to_le_bytes(self.balances.len() as u64);
        let ghost prefix = out@;
        let mut i: usize = 0;
        proof {
            assert(self.balances@.subrange(0, 0) =~= Seq::<Account>::empty());
            assert(prefix + spec_encode_entries(self.balances@.subrange(0, 0)) =~= prefix);
        }
        while i < self.balances.len()
            invariant
                i <= self.balances@.len(),
                prefix == spec_u64_to_le_bytes(self.balances@.len() as u64),
                out@ == prefix + spec_encode_entries(self.balances@.subrange(0, i as int)),
            decreases self.balances@.len() - i,
        {
            let ghost done = self.balances@.subrange(0, i as int);
            append_field(&mut out, self.balances[i].address.as_str());
            let balance_bytes = u64_to_le_bytes(self.balances[i].balance);
            append_bytes(&mut out, balance_bytes.as_slice());
            proof {
                lemma_encode_entries_snoc(done, self.balances@[i as int]);
                assert(self.balances@.subrange(0, i + 1) =~= done.push(self.balances@[i as int]));
                assert(prefix + spec_encode_entries(done) + spec_field_bytes(
                    self.balances@[i as int].address@,
                ) + spec_u64_to_le_bytes(self.balances@[i as int].balance) =~= prefix
                    + spec_encode_entries(self.balances@.subrange(0, i + 1)));
            }
            i += 1;
        }
        proof {
            assert(self.balances@.subrange(0, self.balances@.len() as int) =~= self.balances@);
        }
        out
    }
}

/// The balance entries a snapshot body decodes to, given the declared
/// count: each entry's address characters and balance, in order. `None`
/// marks a malformed body: truncated fields, invalid UTF-8, or trailing
/// bytes.
pub open spec fn spec_decode_entries(bytes: Seq<u8>, n: nat) -> Option<Seq<(Seq<char>, u64)>>
    decreases n,
{
    if n == 0 {
        if bytes.len() == 0 {
            Some(Seq::empty())
        } else {
            None
        }
    } else if bytes.len() < 8 {
        None
    } else {
        let alen = spec_u64_from_le_bytes(bytes.subrange(0, 8)) as int;
        if bytes.len() < 16 + alen {
            None
        } else {
            let abytes = bytes.subrange(8, 8 + alen);
            if !valid_utf8(abytes) {
                None
            } else {
                let balance = spec_u64_from_le_bytes(bytes.subrange(8 + alen, 16 + alen));
                match spec_decode_entries(bytes.skip(16 + alen), (n - 1) as nat) {
                    Some(rest) => Some(seq![(decode_utf8(abytes), balance)] + rest),
                    None => None,
                }
            }
        }
    }
}

/// What a whole snapshot decodes to.
pub open spec fn spec_decode_state(bytes: Seq<u8>) -> Option<Seq<(Seq<char>, u64)>> {
    if bytes.len() < 8 {
        None
    } else {
        spec_decode_entries(bytes.skip(8), spec_u64_from_le_bytes(bytes.subrange(0, 8)) as nat)
    }
}

/// The entry view of a ledger: each account's address characters and
/// balance, in order.
pub open spec fn entries_of(accounts: Seq<Account>) -> Seq<(Seq<char>, u64)> {
    accounts.map_values(|a: Account| (a.address@, a.balance))
}

/// No two entries carry the same address.
pub open spec fn entries_distinct(entries: Seq<(Seq<char>, u64)>) -> bool {
    forall|i: int, j: int| 0 <= i < j < entries.len() ==> entries[i].0 != entries[j].0
}

/// The summed balance of decoded entries.
pub open spec fn entries_total(entries: Seq<(Seq<char>, u64)>) -> int
    decreases entries.len(),
{
    if entries.len() == 0 {
        0
    } else {
        entries_total(entries.drop_last()) + entries.last().1
    }
}

/// Decoded entries that denote a well-formed ledger state.
pub open spec fn entries_ok(entries: Seq<(Seq<char>, u64)>) -> bool {
    entries_distinct(entries) && entries_total(entries) <= u64::MAX
}

/// A ledger's entry view is well formed exactly when the ledger is.
proof fn lemma_entries_of_wf(accounts: Seq<Account>)
    ensures
        entries_distinct(entries_of(accounts)) == distinct_addresses(accounts),
        entries_total(entries_of(accounts)) == total(accounts),
    decreases accounts.len(),
{
    let entries = entries_of(accounts);
    if accounts.len() > 0 {
        assert(entries.drop_last() =~= entries_of(accounts.drop_last()));
        lemma_entries_of_wf(accounts.drop_last());
    }
    if entries_distinct(entries) {
        assert forall|i: int, j: int|
            0 <= i < j < accounts.len() implies accounts[i].address@ != accounts[j].address@ by {
            assert(entries[i].0 == accounts[i].address@);
            assert(entries[j].0 == accounts[j].address@);
        }
    }
    if distinct_addresses(accounts) {
        assert forall|i: int, j: int|
            0 <= i < j < entries.len() implies entries[i].0 != entries[j].0 by {
            assert(entries[i].0 == accounts[i].address@);
            assert(entries[j].0 == accounts[j].address@);
        }
    }
}

/// A decodable body is at least as long as its fixed-width fields.
proof fn lemma_decode_entries_min_len(bytes: Seq<u8>, n: nat)
    requires
        spec_decode_entries(bytes, n) is Some,
    ensures
        bytes.len() >= 16 * n,
    decreases n,
{
    if n > 0 {
        let alen = spec_u64_from_le_bytes(bytes.subrange(0, 8)) as int;
        lemma_decode_entries_min_len(bytes.skip(16 + alen), (n - 1) as nat);
    }
}

/// Decoding inverts encoding on the snapshot body.
proof fn lemma_decode_encode_entries(accounts: Seq<Account>)
    requires
        forall|i: int|
            0 <= i < accounts.len() ==> (#[trigger] encode_utf8(accounts[i].address@)).len()
                < 0x10000000000000000,
    ensures
        spec_decode_entries(spec_encode_entries(accounts), accounts.len()) == Some(
            entries_of(accounts),
        ),
    decreases accounts.len(),
{
    lemma_auto_spec_u64_to_from_le_bytes();
    broadcast use encode_utf8_valid_utf8;
    broadcast use encode_utf8_decode_utf8;

    if accounts.len() == 0 {
        assert(spec_encode_entries(accounts) =~= Seq::<u8>::empty());
        assert(entries_of(accounts) =~= Seq::<(Seq<char>, u64)>::empty());
    } else {
        let account = accounts.first();
        let abytes = encode_utf8(account.address@);
        let alen = abytes.len() as int;
        let bytes = spec_encode_entries(accounts);
        let rest_bytes = spec_encode_entries(accounts.drop_first());
        assert(accounts[0] == account);
        assert(bytes =~= spec_u64_to_le_bytes(alen as u64) + abytes + spec_u64_to_le_bytes(
            account.balance,
        ) + rest_bytes);
        assert(bytes.subrange(0, 8) =~= spec_u64_to_le_bytes(alen as u64));
        assert(spec_u64_from_le_bytes(bytes.subrange(0, 8)) as int == alen);
        assert(bytes.subrange(8, 8 + alen) =~= abytes);
        assert(decode_utf8(abytes) == account.address@);
        assert(bytes.subrange(8 + alen, 16 + alen) =~= spec_u64_to_le_bytes(account.balance));
        assert(bytes.skip(16 + alen) =~= rest_bytes);
        assert forall|i: int|
            0 <= i < accounts.drop_first().len() implies (#[trigger] encode_utf8(
            accounts.drop_first()[i].address@,
        )).len() < 0x10000000000000000 by {
            assert(accounts.drop_first()[i] == accounts[i + 1]);
        }
        lemma_decode_encode_entries(accounts.drop_first());
        assert(entries_of(accounts) =~= seq![(account.address@, account.balance)] + entries_of(
            accounts.drop_first(),
        ));
    }
}

/// Round trip: a snapshot decodes to exactly the balance entries that were
/// snapshotted.
pub proof fn lemma_snapshot_roundtrip(accounts: Seq<Account>)
    requires
        accounts.len() <= u64::MAX,
        forall|i: int|
            0 <= i < accounts.len() ==> (#[trigger] encode_utf8(accounts[i].address@)).len()
                < 0x10000000000000000,
    ensures
        spec_decode_state(spec_snapshot_bytes(accounts)) == Some(entries_of(accounts)),
{
    lemma_auto_spec_u64_to_from_le_bytes();
    let bytes = spec_snapshot_bytes(accounts);
    assert(bytes.subrange(0, 8) =~= spec_u64_to_le_bytes(accounts.len() as u64));
    assert(bytes.skip(8) =~= spec_encode_entries(accounts));
    lemma_decode_encode_entries(accounts);
}

proof fn lemma_total_take_step(accounts: Seq<Account>, i: int)
    requires
        0 <= i < accounts.len(),
    ensures
        total(accounts.subrange(0, i + 1)) == total(accounts.subrange(0, i))
            + accounts[i].balance,
{
    assert(accounts.subrange(0, i + 1).drop_last() =~= accounts.subrange(0, i));
    assert(accounts.subrange(0, i + 1).last() == accounts[i]);
}

proof fn lemma_total_prefix_le(accounts: Seq<Account>, i: int)
    requires
        0 <= i <= accounts.len(),
    ensures
        total(accounts.subrange(0, i)) <= total(accounts),
    decreases accounts.len() - i,
{
    if i == accounts.len() {
        assert(accounts.subrange(0, i) =~= accounts);
    } else {
        lemma_total_take_step(accounts, i);
        lemma_total_prefix_le(accounts, i + 1);
    }
}

/// Decides address distinctness.
fn check_distinct(accounts: &Vec<Account>) -> (r: bool)
    ensures
        r == distinct_addresses(accounts@),
{
    let mut i: usize = 0;
    while i < accounts.len()
        invariant
            i <= accounts@.len(),
            forall|a: int, b: int|
                0 <= a < b < accounts@.len() && a < i ==> accounts@[a].address@
                    != accounts@[b].address@,
        decreases accounts@.len() - i,
    {
        let mut j: usize = i + 1;
        while j < accounts.len()
            invariant
                i < accounts@.len(),
                i < j <= accounts@.len(),
                forall|b: int|
                    i < b < j ==> accounts@[i as int].address@ != accounts@[b].address@,
            decreases accounts@.len() - j,
        {
            if accounts[i].address == accounts[j].address {
                proof {
                    assert(accounts@[i as int].address@ == accounts@[j as int].address@);
                }
                return false;
            }
            j += 1;
        }
        i += 1;
    }
    true
}

/// Decides whether the summed balance fits the balance type.
fn check_total(accounts: &Vec<Account>) -> (r: bool)
    ensures
        r == (total(accounts@) <= u64::MAX),
{
    let mut sum: u64 = 0;
    let mut i: usize = 0;
    proof {
        assert(accounts@.subrange(0, 0) =~= Seq::<Account>::empty());
    }
    while i < accounts.len()
        invariant
            i <= accounts@.len(),
            sum == total(accounts@.subrange(0, i as int)),
        decreases accounts@.len() - i,
    {
        proof {
            lemma_total_take_step(accounts@, i as int);
        }
        sum = match sum.checked_add(accounts[i].balance) {
            Some(s) => s,
            None => {
                proof {
                    lemma_total_prefix_le(accounts@, i as int + 1);
                }
                return false;
            },
        };
        i += 1;
    }
    proof {
        assert(accounts@.subrange(0, accounts@.len() as int) =~= accounts@);
    }
    true
}

impl State {
    /// Rebuilds a ledger state from snapshot bytes. Yields nothing exactly
    /// when the bytes are not a canonical snapshot, or the decoded entries
    /// repeat an address or overflow the summed balance; the caller then
    /// falls back to the genesis state.
    pub fn restore(bytes: &[u8]) -> (r: Option<State>)
        ensures
            match r {
                Some(state) => state.wf() && spec_decode_state(bytes@) == Some(
                    entries_of(state.balances@),
                ),
                None => match spec_decode_state(bytes@) {
                    Some(entries) => !entries_ok(entries),
                    None => true,
                },
            },
    {
        if bytes.len() < 8 {
            return None;
        }
        let count64 = u64_from_le_bytes(slice_subrange(bytes, 0, 8));
        let ghost body = bytes@.skip(8);
        if count64 > (bytes.len() as u64) / 16 {
            proof {
                if spec_decode_entries(body, count64 as nat) is Some {
                    lemma_decode_entries_min_len(body, count64 as nat);
                }
            }
            return None;
        }
        let count = count64 as usize;
        let mut accounts: Vec<Account> = Vec::new();
        let mut pos: usize = 8;
        let mut k: usize = 0;
        proof {
            if spec_decode_entries(body, count as nat) is Some {
                let all = spec_decode_entries(body, count as nat)->0;
                assert(entries_of(accounts@) + all =~= all);
            }
        }
        while k < count
            invariant
                8 <= pos <= bytes@.len(),
                k <= count,
                body == bytes@.skip(8),
                count64 == spec_u64_from_le_bytes(bytes@.subrange(0, 8)),
                count as nat == count64 as nat,
                accounts@.len() == k,
                match spec_decode_entries(bytes@.skip(pos as int), (count - k) as nat) {
                    Some(rest) => spec_decode_entries(body, count as nat) == Some(
                        entries_of(accounts@) + rest,
                    ),
                    None => spec_decode_entries(body, count as nat) is None,
                },
            decreases count - k,
        {
            let ghost tail = bytes@.skip(pos as int);
            let ghost n_left = (count - k) as nat;
            let remaining = bytes.len() - pos;
            if remaining < 8 {
                proof {
                    assert(spec_decode_entries(tail, n_left) is None);
                }
                return None;
            }
            let alen64 = u64_from_le_bytes(slice_subrange(bytes, pos, pos + 8));
            proof {
                assert(bytes@.subrange(pos as int, pos as int + 8) =~= tail.subrange(0, 8));
            }
            if remaining < 16 || alen64 > (remaining - 16) as u64 {
                proof {
                    assert(spec_decode_entries(tail, n_left) is None);
                }
                return None;
            }
            let alen = alen64 as usize;
            let abytes = slice_subrange(bytes, pos + 8, pos + 8 + alen);
            proof {
                assert(abytes@ =~= tail.subrange(8, 8 + alen as int));
            }
            let address = match string_from_utf8(slice_to_vec(abytes)) {
                Some(s) => s,
                None => {
                    proof {
                        assert(spec_decode_entries(tail, n_left) is None);
                    }
                    return None;
                },
            };
            let balance = u64_from_le_bytes(slice_subrange(bytes, pos + 8 + alen, pos + 16 + alen));
            proof {
                assert(bytes@.subrange(pos + 8 + alen as int, pos + 16 + alen as int)
                    =~= tail.subrange(8 + alen as int, 16 + alen as int));
            }
            let ghost before_push = accounts@;
            accounts.push(Account { address, balance });
            proof {
                broadcast use encode_utf8_decode_utf8;

                assert(decode_utf8(tail.subrange(8, 8 + alen as int)) == address@);
                assert(bytes@.skip(pos + 16 + alen as int) =~= tail.skip(16 + alen as int));
                assert(entries_of(accounts@) =~= entries_of(before_push) + seq![
                    (address@, balance),
                ]);
                match spec_decode_entries(tail.skip(16 + alen as int), (count - k - 1) as nat) {
                    Some(rest2) => {
                        assert(spec_decode_entries(tail, n_left) == Some(
                            seq![(address@, balance)] + rest2,
                        ));
                        assert(entries_of(before_push) + (seq![(address@, balance)] + rest2)
                            =~= entries_of(accounts@) + rest2);
                    },
                    None => {
                        assert(spec_decode_entries(tail, n_left) is None);
                    },
                }
            }
            pos = pos + 16 + alen;
            k += 1;
        }
        if pos != bytes.len() {
            proof {
                assert(bytes@.skip(pos as int).len() > 0);
                assert(spec_decode_entries(bytes@.skip(pos as int), 0) is None);
            }
            return None;
        }
        proof {
            assert(bytes@.skip(pos as int).len() == 0);
            assert(spec_decode_entries(bytes@.skip(pos as int), 0) == Some(
                Seq::<(Seq<char>, u64)>::empty(),
            ));
            assert(entries_of(accounts@) + Seq::<(Seq<char>, u64)>::empty() =~= entries_of(
                accounts@,
            ));
            lemma_entries_of_wf(accounts@);
        }
        if !check_distinct(&accounts) {
            return None;
        }
        if !check_total(&accounts) {
            return None;
        }
        Some(State { balances: accounts })
    }
}

} // verus!
