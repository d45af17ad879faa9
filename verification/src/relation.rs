//! The transition relation: the arithmetic predicate over one transfer's
//! private inputs (old balances, amount) and public inputs (new balances)
//! that holds exactly when the ledger's update rule was followed.
//!
//! Beyond the two linear constraints, the relation enforces the sufficiency
//! check `amount <= old_sender_balance` over the integers, so an
//! insufficient-funds transfer is unsatisfiable rather than field-wrapped.

use crate::ledger::spec_balance;
use crate::ledger::transfer_map;
use vstd::prelude::*;

verus! {

/// The transition relation over the integers:
/// the sender's declared new balance is the old one less the amount, the
/// receiver's is the old one plus the amount, and the sender's old balance
/// covers the amount, so no balance ever wraps.
pub open spec fn relation_holds(
    old_sender: u64,
    old_receiver: u64,
    amount: u64,
    new_sender: u64,
    new_receiver: u64,
) -> bool {
    &&& amount <= old_sender
    &&& new_sender == old_sender - amount
    &&& new_receiver == old_receiver + amount
}

/// The witness of one transfer: private assignments (old balances, amount)
/// and public assignments (new balances). `None` marks a missing
/// assignment, on which proving must fail.
#[derive(Debug, Clone)]
pub struct TransactionCircuit {
    pub sender_balance: Option<u64>,
    pub amount: Option<u64>,
    pub receiver_balance: Option<u64>,
    pub new_sender_balance: Option<u64>,
    pub new_receiver_balance: Option<u64>,
}

impl TransactionCircuit {
    /// Every assignment, private and public, is present.
    pub open spec fn complete(self) -> bool {
        &&& self.sender_balance is Some
        &&& self.amount is Some
        &&& self.receiver_balance is Some
        &&& self.new_sender_balance is Some
        &&& self.new_receiver_balance is Some
    }

    /// The witness is complete and its assignments satisfy the relation.
    pub open spec fn satisfied(self) -> bool {
        match (
            self.sender_balance,
            self.amount,
            self.receiver_balance,
            self.new_sender_balance,
            self.new_receiver_balance,
        ) {
            (Some(sb), Some(amount), Some(rb), Some(nsb), Some(nrb)) => relation_holds(
                sb,
                rb,
                amount,
                nsb,
                nrb,
            ),
            _ => false,
        }
    }

    /// Decides whether this witness satisfies the relation, including the
    /// sufficiency check; incomplete witnesses do not.
    pub fn is_satisfied(&self) -> (r: bool)
        ensures
            r == self.satisfied(),
    {
        match (
            self.sender_balance,
            self.amount,
            self.receiver_balance,
            self.new_sender_balance,
            self.new_receiver_balance,
        ) {
            (Some(sb), Some(amount), Some(rb), Some(nsb), Some(nrb)) => {
                if amount > sb {
                    false
                } else if nsb != sb - amount {
                    false
                } else {
                    match rb.checked_add(amount) {
                        Some(sum) => nrb == sum,
                        None => false,
                    }
                }
            },
            _ => false,
        }
    }
}

/// The relation mirrors the state machine's update rule: for two distinct
/// parties, a satisfied witness over their current balances declares exactly
/// the balance map that a successful transfer produces.
pub proof fn lemma_relation_matches_ledger(
    m: Map<Seq<char>, u64>,
    sender: Seq<char>,
    receiver: Seq<char>,
    amount: u64,
    new_sender: u64,
    new_receiver: u64,
)
    requires
        sender != receiver,
        relation_holds(
            spec_balance(m, sender),
            spec_balance(m, receiver),
            amount,
            new_sender,
            new_receiver,
        ),
    ensures
        amount <= spec_balance(m, sender),
        transfer_map(m, sender, receiver, amount) == m.insert(sender, new_sender).insert(
            receiver,
            new_receiver,
        ),
{
    let debited = m.insert(sender, (spec_balance(m, sender) - amount) as u64);
    assert(spec_balance(debited, receiver) == spec_balance(m, receiver));
    assert(transfer_map(m, sender, receiver, amount) =~= m.insert(sender, new_sender).insert(
        receiver,
        new_receiver,
    ));
}

} // verus!
