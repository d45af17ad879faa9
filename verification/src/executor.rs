//! The transfer execution entry point: applies one transaction record to a
//! ledger state. Durable persistence of the successor state is the caller's
//! duty and must happen strictly after a successful application, within the
//! same critical section.

use crate::ledger::spec_balance;
use crate::ledger::total;
use crate::ledger::transfer_map;
use crate::ledger::State;
use crate::transaction::Transaction;
use vstd::prelude::*;

verus! {

/// Consumes one transaction record and applies it to `state`. Fails, leaving
/// the state untouched, exactly when the sender's balance cannot cover the
/// amount; the summed balance is preserved either way.
pub fn execute_transaction(state: &mut State, tx: Transaction) -> (success: bool)
    requires
        old(state).wf(),
    ensures
        final(state).wf(),
        success == (tx.amount <= spec_balance(old(state).as_map(), tx.sender@)),
        total(final(state).balances@) == total(old(state).balances@),
        !success ==> *final(state) == *old(state),
        success ==> final(state).as_map() == transfer_map(
            old(state).as_map(),
            tx.sender@,
            tx.receiver@,
            tx.amount,
        ),
{
    state.apply_transaction(tx.sender.as_str(), tx.receiver.as_str(), tx.amount)
}

} // verus!
