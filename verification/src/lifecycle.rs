//! The proof lifecycle: one-time key setup, witness preparation and
//! validation before proving, and the verifier-side decision rule.
//!
//! The proving backend itself (key generation, proof creation, pairing
//! checks) lives outside this crate; this module owns every decision around
//! it: when setup may run, which witnesses may be proven, and when a
//! verification outcome may be accepted.

use crate::relation::TransactionCircuit;
use vstd::prelude::*;

verus! {

/// Why a proof-lifecycle request was refused.
#[derive(Debug, Clone, Copy, PartialEq, Eq)]
pub enum ProofError {
    /// Key setup already ran; rerunning would invalidate issued proofs.
    AlreadySetUp,
    /// No key pair has been recorded yet.
    NotSetUp,
    /// A private or public assignment is missing from the witness.
    MissingAssignment,
    /// The assignments violate the relation, including its sufficiency
    /// check: the transfer is unprovable.
    ConstraintUnsatisfied,
}

/// The fully assigned witness values handed to the proving backend.
#[derive(Debug, Clone, Copy, PartialEq, Eq)]
pub struct WitnessValues {
    pub sender_balance: u64,
    pub amount: u64,
    pub receiver_balance: u64,
    pub new_sender_balance: u64,
    pub new_receiver_balance: u64,
}

/// The proof lifecycle state: uninitialized until a key pair is recorded,
/// ready afterwards. The keys are opaque artifacts of the backend.
#[derive(Debug, Clone)]
pub struct ProofSystem {
    pub proving_key: Option<Vec<u8>>,
    pub verifying_key: Option<Vec<u8>>,
}

impl ProofSystem {
    /// A key pair has been recorded and requests may be served.
    pub open spec fn is_set_up(self) -> bool {
        self.proving_key is Some && self.verifying_key is Some
    }

    /// The lifecycle starts uninitialized.
    pub fn new() -> (s: ProofSystem)
        ensures
            !s.is_set_up(),
            s.proving_key is None,
            s.verifying_key is None,
    {
        ProofSystem { proving_key: None, verifying_key: None }
    }

    /// Records the key pair produced by the backend's setup. Runs at most
    /// once per deployment: a second call is refused and changes nothing,
    /// since a fresh pair would invalidate every proof already issued.
    pub fn record_setup(&mut self, proving_key: Vec<u8>, verifying_key: Vec<u8>) -> (r: Result<
        (),
        ProofError,
    >)
        ensures
            match r {
                Ok(()) => !old(self).is_set_up() && final(self).is_set_up()
                    && final(self).proving_key == Some(proving_key)
                    && final(self).verifying_key == Some(verifying_key),
                Err(e) => e == ProofError::AlreadySetUp && old(self).is_set_up() && *final(self)
                    == *old(self),
            },
    {
        if self.proving_key.is_some() && self.verifying_key.is_some() {
            Err(ProofError::AlreadySetUp)
        } else {
            self.proving_key = Some(proving_key);
            self.verifying_key = Some(verifying_key);
            Ok(())
        }
    }

    /// Admits a witness to proving. Succeeds, handing the backend the full
    /// assignment, exactly when setup ran, every assignment is present, and
    /// the relation (with its sufficiency check) is satisfied — so an
    /// insufficient-funds witness can never reach the backend.
    pub fn prove_request(&self, circuit: &TransactionCircuit) -> (r: Result<
        WitnessValues,
        ProofError,
    >)
        ensures
            match r {
                Ok(w) => self.is_set_up() && circuit.satisfied()
                    && circuit.sender_balance == Some(w.sender_balance)
                    && circuit.amount == Some(w.amount)
                    && circuit.receiver_balance == Some(w.receiver_balance)
                    && circuit.new_sender_balance == Some(w.new_sender_balance)
                    && circuit.new_receiver_balance == Some(w.new_receiver_balance),
                Err(ProofError::NotSetUp) => !self.is_set_up(),
                Err(ProofError::MissingAssignment) => self.is_set_up() && !circuit.complete(),
                Err(ProofError::ConstraintUnsatisfied) => self.is_set_up() && circuit.complete()
                    && !circuit.satisfied(),
                Err(_) => false,
            },
    {
        if !(self.proving_key.is_some() && self.verifying_key.is_some()) {
            return Err(ProofError::NotSetUp);
        }
        match (
            circuit.sender_balance,
            circuit.amount,
            circuit.receiver_balance,
            circuit.new_sender_balance,
            circuit.new_receiver_balance,
        ) {
            (Some(sb), Some(amount), Some(rb), Some(nsb), Some(nrb)) => {
                if circuit.is_satisfied() {
                    Ok(
                        WitnessValues {
                            sender_balance: sb,
                            amount,
                            receiver_balance: rb,
                            new_sender_balance: nsb,
                            new_receiver_balance: nrb,
                        },
                    )
                } else {
                    Err(ProofError::ConstraintUnsatisfied)
                }
            },
            _ => Err(ProofError::MissingAssignment),
        }
    }

    /// The verifier's decision: accept an outcome only when setup ran, the
    /// declared public-input vector has the relation's arity, and the
    /// backend accepted. A malformed input vector yields `false`, never a
    /// fault.
    pub fn verification_verdict(&self, public_inputs: &Vec<u64>, backend_accepted: bool) -> (ok:
        bool)
        ensures
            ok == (self.is_set_up() && public_inputs@.len() == 2 && backend_accepted),
    {
        self.proving_key.is_some() && self.verifying_key.is_some() && public_inputs.len() == 2
            && backend_accepted
    }
}

/// Assigns a full witness from the sender's balance, the amount and the
/// receiver's balance, computing the declared new balances by the update
/// rule. Yields nothing when the funds are insufficient or the credit would
/// overflow, so every witness built here satisfies the relation.
pub fn prepare_witness(sender_balance: u64, amount: u64, receiver_balance: u64) -> (r: Option<
    TransactionCircuit,
>)
    ensures
        match r {
            Some(c) => amount <= sender_balance && receiver_balance + amount <= u64::MAX
                && c.sender_balance == Some(sender_balance) && c.amount == Some(amount)
                && c.receiver_balance == Some(receiver_balance) && c.new_sender_balance == Some(
                (sender_balance - amount) as u64,
            ) && c.new_receiver_balance == Some((receiver_balance + amount) as u64)
                && c.satisfied(),
            None => amount > sender_balance || receiver_balance + amount > u64::MAX,
        },
{
    let new_sender_balance = match sender_balance.checked_sub(amount) {
        Some(v) => v,
        None => {
            return None;
        },
    };
    let new_receiver_balance = match receiver_balance.checked_add(amount) {
        Some(v) => v,
        None => {
            return None;
        },
    };
    Some(
        TransactionCircuit {
            sender_balance: Some(sender_balance),
            amount: Some(amount),
            receiver_balance: Some(receiver_balance),
            new_sender_balance: Some(new_sender_balance),
            new_receiver_balance: Some(new_receiver_balance),
        },
    )
}

/// The public-input vector for a witness: the declared new balances, in the
/// relation's fixed order.
pub fn public_inputs(w: &WitnessValues) -> (inputs: Vec<u64>)
    ensures
        inputs@ == seq![w.new_sender_balance, w.new_receiver_balance],
{
    let mut inputs: Vec<u64> = Vec::new();
    inputs.push(w.new_sender_balance);
    inputs.push(w.new_receiver_balance);
    proof {
        assert(inputs@ =~= seq![w.new_sender_balance, w.new_receiver_balance]);
    }
    inputs
}

} // verus!
