//! Transaction records: the immutable (sender, receiver, amount) triples that
//! the ledger consumes and the accumulator commits to.

use vstd::prelude::*;

verus! {

/// One transfer request: move `amount` units from `sender` to `receiver`.
/// Created by the caller and never mutated afterwards; the amount may be zero.
#[derive(Debug, Clone)]
pub struct Transaction {
    pub sender: String,
    pub receiver: String,
    pub amount: u64,
}

impl Transaction {
    /// Builds a record carrying exactly the given parties and amount.
    pub fn new(sender: &str, receiver: &str, amount: u64) -> (tx: Transaction)
        ensures
            tx.sender@ == sender@,
            tx.receiver@ == receiver@,
            tx.amount == amount,
    {
        Transaction {
            sender: sender.to_owned(),
            receiver: receiver.to_owned(),
            amount,
        }
    }
}

} // verus!
