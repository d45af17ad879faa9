//! The ledger state machine: account balances, the transfer rule with its
//! sufficiency check, and the conservation-of-supply invariant.
//!
//! The state is modelled as a mathematical map from account identifiers
//! (character sequences) to balances; [`State::apply_transaction`] pins the
//! exact successor map, returns failure exactly when the sender's balance is
//! insufficient, and preserves the summed balance in every case.

use vstd::prelude::*;

verus! {

/// One ledger entry: an account identifier and its current balance.
#[derive(Debug, Clone)]
pub struct Account {
    pub address: String,
    pub balance: u64,
}

/// The authoritative balance map, stored as a vector of accounts with
/// pairwise-distinct addresses.
#[derive(Debug, Clone)]
pub struct State {
    pub balances: Vec<Account>,
}

/// The balance map denoted by a sequence of accounts; later entries shadow
/// earlier ones, which is irrelevant under [`distinct_addresses`].
pub open spec fn map_of(accounts: Seq<Account>) -> Map<Seq<char>, u64>
    decreases accounts.len(),
{
    if accounts.len() == 0 {
        Map::empty()
    } else {
        map_of(accounts.drop_last()).insert(accounts.last().address@, accounts.last().balance)
    }
}

/// The summed balance over a sequence of accounts.
pub open spec fn total(accounts: Seq<Account>) -> int
    decreases accounts.len(),
{
    if accounts.len() == 0 {
        0
    } else {
        total(accounts.drop_last()) + accounts.last().balance
    }
}

/// No two entries carry the same address.
pub open spec fn distinct_addresses(accounts: Seq<Account>) -> bool {
    forall|i: int, j: int|
        0 <= i < j < accounts.len() ==> accounts[i].address@ != accounts[j].address@
}

/// The balance of `key` in map `m`, where an absent account holds zero.
pub open spec fn spec_balance(m: Map<Seq<char>, u64>, key: Seq<char>) -> u64 {
    if m.dom().contains(key) {
        m[key]
    } else {
        0
    }
}

/// The successor balance map of a successful transfer: debit the sender,
/// then credit the receiver. A self-transfer therefore leaves the balance
/// unchanged, because the debit and the credit cancel.
pub open spec fn transfer_map(
    m: Map<Seq<char>, u64>,
    sender: Seq<char>,
    receiver: Seq<char>,
    amount: u64,
) -> Map<Seq<char>, u64> {
    let debited = m.insert(sender, (spec_balance(m, sender) - amount) as u64);
    debited.insert(receiver, (spec_balance(debited, receiver) + amount) as u64)
}

pub proof fn lemma_map_of_contains(accounts: Seq<Account>, key: Seq<char>)
    ensures
        map_of(accounts).dom().contains(key) <==> (exists|i: int|
            0 <= i < accounts.len() && (#[trigger] accounts[i]).address@ == key),
    decreases accounts.len(),
{
    if accounts.len() == 0 {
    } else {
        let prefix = accounts.drop_last();
        lemma_map_of_contains(prefix, key);
        if accounts.last().address@ == key {
            assert(accounts[accounts.len() - 1].address@ == key);
        } else {
            if map_of(accounts).dom().contains(key) {
                let i = choose|i: int| 0 <= i < prefix.len() && (#[trigger] prefix[i]).address@
                    == key;
                assert(accounts[i] == prefix[i]);
            }
            if exists|i: int| 0 <= i < accounts.len() && (#[trigger] accounts[i]).address@ == key {
                let i = choose|i: int|
                    0 <= i < accounts.len() && (#[trigger] accounts[i]).address@ == key;
                assert(i < accounts.len() - 1);
                assert(prefix[i] == accounts[i]);
            }
        }
    }
}

proof fn lemma_distinct_prefix(accounts: Seq<Account>)
    requires
        distinct_addresses(accounts),
        accounts.len() > 0,
    ensures
        distinct_addresses(accounts.drop_last()),
{
    let prefix = accounts.drop_last();
    assert forall|i: int, j: int|
        0 <= i < j < prefix.len() implies prefix[i].address@ != prefix[j].address@ by {
        assert(prefix[i] == accounts[i]);
        assert(prefix[j] == accounts[j]);
    }
}

pub proof fn lemma_map_of_index(accounts: Seq<Account>, i: int)
    requires
        distinct_addresses(accounts),
        0 <= i < accounts.len(),
    ensures
        map_of(accounts).dom().contains(accounts[i].address@),
        map_of(accounts)[accounts[i].address@] == accounts[i].balance,
    decreases accounts.len(),
{
    if i == accounts.len() - 1 {
    } else {
        let prefix = accounts.drop_last();
        lemma_distinct_prefix(accounts);
        assert(prefix[i] == accounts[i]);
        lemma_map_of_index(prefix, i);
        assert(accounts[i].address@ != accounts.last().address@);
    }
}

pub proof fn lemma_map_of_update(accounts: Seq<Account>, i: int, v: u64)
    requires
        distinct_addresses(accounts),
        0 <= i < accounts.len(),
    ensures
        map_of(accounts.update(i, Account { address: accounts[i].address, balance: v }))
            == map_of(accounts).insert(accounts[i].address@, v),
    decreases accounts.len(),
{
    let replacement = Account { address: accounts[i].address, balance: v };
    let updated = accounts.update(i, replacement);
    let key = accounts[i].address@;
    if i == accounts.len() - 1 {
        assert(updated.drop_last() =~= accounts.drop_last());
        assert(updated.last() == replacement);
        assert(map_of(accounts.drop_last()).insert(key, accounts[i].balance).insert(key, v)
            =~= map_of(accounts.drop_last()).insert(key, v));
    } else {
        let prefix = accounts.drop_last();
        lemma_distinct_prefix(accounts);
        assert(prefix[i] == accounts[i]);
        lemma_map_of_update(prefix, i, v);
        assert(updated.drop_last() =~= prefix.update(i, replacement));
        assert(updated.last() == accounts.last());
        let lastk = accounts.last().address@;
        let lastv = accounts.last().balance;
        assert(key != lastk);
        assert(map_of(prefix).insert(key, v).insert(lastk, lastv)
            =~= map_of(prefix).insert(lastk, lastv).insert(key, v));
    }
}

pub proof fn lemma_total_update(accounts: Seq<Account>, i: int, v: u64)
    requires
        0 <= i < accounts.len(),
    ensures
        total(accounts.update(i, Account { address: accounts[i].address, balance: v }))
            == total(accounts) - accounts[i].balance + v,
    decreases accounts.len(),
{
    let replacement = Account { address: accounts[i].address, balance: v };
    let updated = accounts.update(i, replacement);
    if i == accounts.len() - 1 {
        assert(updated.drop_last() =~= accounts.drop_last());
        assert(updated.last() == replacement);
    } else {
        let prefix = accounts.drop_last();
        assert(prefix[i] == accounts[i]);
        lemma_total_update(prefix, i, v);
        assert(updated.drop_last() =~= prefix.update(i, replacement));
        assert(updated.last() == accounts.last());
    }
}

pub proof fn lemma_total_nonneg(accounts: Seq<Account>)
    ensures
        total(accounts) >= 0,
    decreases accounts.len(),
{
    if accounts.len() == 0 {
    } else {
        lemma_total_nonneg(accounts.drop_last());
    }
}

pub proof fn lemma_balance_le_total(accounts: Seq<Account>, i: int)
    requires
        0 <= i < accounts.len(),
    ensures
        accounts[i].balance <= total(accounts),
    decreases accounts.len(),
{
    let prefix = accounts.drop_last();
    if i == accounts.len() - 1 {
        lemma_total_nonneg(prefix);
    } else {
        assert(prefix[i] == accounts[i]);
        lemma_balance_le_total(prefix, i);
    }
}

pub proof fn lemma_two_balances_le_total(accounts: Seq<Account>, i: int, j: int)
    requires
        0 <= i < accounts.len(),
        0 <= j < accounts.len(),
        i != j,
    ensures
        accounts[i].balance + accounts[j].balance <= total(accounts),
    decreases accounts.len(),
{
    let prefix = accounts.drop_last();
    if j == accounts.len() - 1 {
        assert(prefix[i] == accounts[i]);
        lemma_balance_le_total(prefix, i);
    } else if i == accounts.len() - 1 {
        assert(prefix[j] == accounts[j]);
        lemma_balance_le_total(prefix, j);
    } else {
        assert(prefix[i] == accounts[i]);
        assert(prefix[j] == accounts[j]);
        lemma_two_balances_le_total(prefix, i, j);
    }
}

/// The balances of two distinct accounts never sum past the ledger's total.
pub proof fn lemma_map_balances_le_total(accounts: Seq<Account>, k1: Seq<char>, k2: Seq<char>)
    requires
        distinct_addresses(accounts),
        k1 != k2,
    ensures
        spec_balance(map_of(accounts), k1) + spec_balance(map_of(accounts), k2)
            <= total(accounts),
{
    let m = map_of(accounts);
    lemma_map_of_contains(accounts, k1);
    lemma_map_of_contains(accounts, k2);
    lemma_total_nonneg(accounts);
    if m.dom().contains(k1) && m.dom().contains(k2) {
        let i = choose|i: int| 0 <= i < accounts.len() && (#[trigger] accounts[i]).address@ == k1;
        let j = choose|j: int| 0 <= j < accounts.len() && (#[trigger] accounts[j]).address@ == k2;
        lemma_map_of_index(accounts, i);
        lemma_map_of_index(accounts, j);
        lemma_two_balances_le_total(accounts, i, j);
    } else if m.dom().contains(k1) {
        let i = choose|i: int| 0 <= i < accounts.len() && (#[trigger] accounts[i]).address@ == k1;
        lemma_map_of_index(accounts, i);
        lemma_balance_le_total(accounts, i);
    } else if m.dom().contains(k2) {
        let j = choose|j: int| 0 <= j < accounts.len() && (#[trigger] accounts[j]).address@ == k2;
        lemma_map_of_index(accounts, j);
        lemma_balance_le_total(accounts, j);
    }
}

impl State {
    /// The balance map this state denotes.
    pub open spec fn as_map(self) -> Map<Seq<char>, u64> {
        map_of(self.balances@)
    }

    /// Well-formedness: addresses are pairwise distinct and the summed
    /// balance fits in the balance type, so a credit can never overflow.
    pub open spec fn wf(self) -> bool {
        &&& distinct_addresses(self.balances@)
        &&& total(self.balances@) <= u64::MAX
    }

    /// The genesis state: two seeded accounts with nonzero balances.
    pub fn new() -> (state: State)
        ensures
            state.wf(),
            state.as_map() == Map::<Seq<char>, u64>::empty().insert("alice"@, 100u64).insert(
                "bob"@,
                50u64,
            ),
            total(state.balances@) == 150,
    {
        let alice = Account { address: "alice".to_owned(), balance: 100 };
        let bob = Account { address: "bob".to_owned(), balance: 50 };
        let mut balances: Vec<Account> = Vec::new();
        balances.push(alice);
        balances.push(bob);
        proof {
            reveal_strlit("alice");
            reveal_strlit("bob");
            let s = balances@;
            assert(s.len() == 2);
            assert(s.drop_last().drop_last() =~= Seq::<Account>::empty());
            assert(s.drop_last().last() == s[0]);
            assert(s[0].address@ == "alice"@);
            assert(s[1].address@ == "bob"@);
            assert("alice"@.len() == 5);
            assert("bob"@.len() == 3);
            assert(map_of(Seq::<Account>::empty()) =~= Map::<Seq<char>, u64>::empty());
            assert(map_of(s.drop_last()) =~= Map::<Seq<char>, u64>::empty().insert(
                "alice"@,
                100u64,
            ));
            assert(map_of(s) =~= Map::<Seq<char>, u64>::empty().insert("alice"@, 100u64).insert(
                "bob"@,
                50u64,
            ));
            assert(total(Seq::<Account>::empty()) == 0);
            assert(total(s.drop_last()) == 100);
            assert(total(s) == 150);
            assert forall|i: int, j: int|
                0 <= i < j < s.len() implies s[i].address@ != s[j].address@ by {
                assert(i == 0 && j == 1);
            }
        }
        State { balances }
    }

    /// The index holding `key`, if any; `None` means no entry carries it.
    fn position_of(&self, key: &String) -> (r: Option<usize>)
        ensures
            match r {
                Some(i) => i < self.balances@.len() && self.balances@[i as int].address@ == key@,
                None => forall|i: int|
                    0 <= i < self.balances@.len() ==> self.balances@[i].address@ != key@,
            },
    {
        let mut idx: usize = 0;
        while idx < self.balances.len()
            invariant
                idx <= self.balances@.len(),
                forall|j: int| 0 <= j < idx ==> self.balances@[j].address@ != key@,
            decreases self.balances@.len() - idx,
        {
            if self.balances[idx].address == *key {
                return Some(idx);
            }
            idx += 1;
        }
        None
    }

    /// The current balance of `key`; an absent account reads as zero.
    pub fn balance_of(&self, key: &str) -> (balance: u64)
        requires
            self.wf(),
        ensures
            balance == spec_balance(self.as_map(), key@),
    {
        let owned = key.to_owned();
        match self.position_of(&owned) {
            Some(i) => {
                proof {
                    lemma_map_of_index(self.balances@, i as int);
                }
                self.balances[i].balance
            },
            None => {
                proof {
                    lemma_map_of_contains(self.balances@, key@);
                }
                0
            },
        }
    }

    /// Finds `key`'s entry, inserting a zero-initialized one if absent, and
    /// returns its index. The balance map gains at most the zero entry and
    /// the summed balance is unchanged.
    fn ensure_account(&mut self, key: &String) -> (i: usize)
        requires
            old(self).wf(),
        ensures
            final(self).wf(),
            i < final(self).balances@.len(),
            final(self).balances@[i as int].address@ == key@,
            final(self).balances@[i as int].balance == spec_balance(old(self).as_map(), key@),
            final(self).as_map() == old(self).as_map().insert(
                key@,
                spec_balance(old(self).as_map(), key@),
            ),
            total(final(self).balances@) == total(old(self).balances@),
    {
        match self.position_of(key) {
            Some(i) => {
                proof {
                    lemma_map_of_index(self.balances@, i as int);
                    assert(self.as_map() =~= self.as_map().insert(
                        key@,
                        spec_balance(self.as_map(), key@),
                    ));
                }
                i
            },
            None => {
                proof {
                    lemma_map_of_contains(self.balances@, key@);
                }
                let ghost before = self.balances@;
                let i = self.balances.len();
                self.balances.push(Account { address: key.clone(), balance: 0 });
                proof {
                    assert(self.balances@.drop_last() =~= before);
                    assert(self.balances@.last().address@ == key@);
                    assert forall|a: int, b: int|
                        0 <= a < b < self.balances@.len() implies self.balances@[a].address@
                        != self.balances@[b].address@ by {
                        if b < before.len() {
                            assert(self.balances@[a] == before[a]);
                            assert(self.balances@[b] == before[b]);
                        } else {
                            assert(self.balances@[a] == before[a]);
                        }
                    }
                }
                i
            },
        }
    }

    /// Replaces the balance at index `i`, keeping its address.
    fn set_balance_at(&mut self, i: usize, v: u64)
        requires
            old(self).wf(),
            i < old(self).balances@.len(),
        ensures
            final(self).wf() || total(final(self).balances@) > u64::MAX,
            distinct_addresses(final(self).balances@),
            final(self).balances@ == old(self).balances@.update(
                i as int,
                Account { address: old(self).balances@[i as int].address, balance: v },
            ),
            final(self).as_map() == old(self).as_map().insert(
                old(self).balances@[i as int].address@,
                v,
            ),
            total(final(self).balances@) == total(old(self).balances@)
                - old(self).balances@[i as int].balance + v,
    {
        proof {
            lemma_map_of_update(self.balances@, i as int, v);
            lemma_total_update(self.balances@, i as int, v);
        }
        let entry = &mut self.balances[i];
        entry.balance = v;
        proof {
            assert forall|a: int, b: int|
                0 <= a < b < self.balances@.len() implies self.balances@[a].address@
                != self.balances@[b].address@ by {
                assert(old(self).balances@[a].address@ != old(self).balances@[b].address@);
            }
        }
    }

    /// Applies one transfer. Fails, mutating nothing, exactly when the
    /// sender's balance (zero if absent) is below `amount`; otherwise debits
    /// the sender and credits the receiver, inserting zero-initialized
    /// entries as needed. The summed balance is preserved either way.
    pub fn apply_transaction(&mut self, sender: &str, receiver: &str, amount: u64) -> (success:
        bool)
        requires
            old(self).wf(),
        ensures
            final(self).wf(),
            success == (amount <= spec_balance(old(self).as_map(), sender@)),
            total(final(self).balances@) == total(old(self).balances@),
            !success ==> *final(self) == *old(self),
            success ==> final(self).as_map() == transfer_map(
                old(self).as_map(),
                sender@,
                receiver@,
                amount,
            ),
    {
        let ghost m0 = self.as_map();
        let sender_balance = self.balance_of(sender);
        if sender_balance < amount {
            return false;
        }
        let sender_key = sender.to_owned();
        let receiver_key = receiver.to_owned();
        let ghost start = self.balances@;

        let si = self.ensure_account(&sender_key);
        let new_sender_balance = self.balances[si].balance - amount;
        self.set_balance_at(si, new_sender_balance);
        proof {
            assert(self.as_map() =~= m0.insert(sender@, (spec_balance(m0, sender@) - amount) as u64));
            lemma_total_nonneg(self.balances@);
        }
        let ghost debited = self.as_map();

        let ri = self.ensure_account(&receiver_key);
        let receiver_balance = self.balances[ri].balance;
        proof {
            if sender@ == receiver@ {
                assert(receiver_balance + amount == spec_balance(m0, sender@) <= u64::MAX);
            } else {
                lemma_map_balances_le_total(start, sender@, receiver@);
                assert(spec_balance(m0, sender@) + spec_balance(m0, receiver@) <= total(start));
                assert(spec_balance(debited, receiver@) == spec_balance(m0, receiver@));
            }
        }
        let new_receiver_balance = receiver_balance + amount;
        self.set_balance_at(ri, new_receiver_balance);
        proof {
            assert(self.as_map() =~= transfer_map(m0, sender@, receiver@, amount));
        }
        true
    }
}

} // verus!
