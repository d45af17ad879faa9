//! The state anchor: the externally facing checkpoint. It frames and parses
//! the hosted account payload, decides an instruction's outcome from the
//! verification result, and is the sole owner of the accepted commitment
//! head.

use crate::codec::append_bytes;
use vstd::bytes::lemma_auto_spec_u32_to_from_le_bytes;
use vstd::bytes::spec_u32_from_le_bytes;
use vstd::bytes::spec_u32_to_le_bytes;
use vstd::bytes::u32_from_le_bytes;
use vstd::bytes::u32_to_le_bytes;
use vstd::prelude::*;
use vstd::slice::slice_subrange;
use vstd::slice::slice_to_vec;

verus! {

/// Why the anchor rejected an instruction.
#[derive(Debug, Clone, Copy, PartialEq, Eq)]
pub enum ProcessError {
    /// The submitted proof did not verify.
    InvalidInstructionData,
    /// The stored account payload does not parse.
    InvalidAccountData,
}

/// The framed payload layout: a 32-bit little-endian length prefix that
/// must cover exactly the remaining bytes.
pub open spec fn spec_account_bytes(state: Seq<u8>) -> Seq<u8> {
    spec_u32_to_le_bytes(state.len() as u32) + state
}

/// The hosted account's payload: the serialized state bytes the runtime
/// stores on behalf of the anchor.
#[derive(Debug, Clone, PartialEq, Eq)]
pub struct StateAccount {
    pub state: Vec<u8>,
}

impl StateAccount {
    /// Parses a stored payload; fails exactly when the frame is shorter
    /// than its prefix or the prefix does not match the remainder.
    pub fn load(data: &[u8]) -> (r: Result<StateAccount, ProcessError>)
        ensures
            match r {
                Ok(account) => data@.len() >= 4 && spec_u32_from_le_bytes(data@.subrange(0, 4))
                    == data@.len() - 4 && account.state@ == data@.skip(4),
                Err(e) => e == ProcessError::InvalidAccountData && (data@.len() < 4
                    || spec_u32_from_le_bytes(data@.subrange(0, 4)) != data@.len() - 4),
            },
    {
        if data.len() < 4 {
            return Err(ProcessError::InvalidAccountData);
        }
        let prefix = u32_from_le_bytes(slice_subrange(data, 0, 4));
        if (prefix as usize) != data.len() - 4 {
            return Err(ProcessError::InvalidAccountData);
        }
        let rest = slice_subrange(data, 4, data.len());
        proof {
            assert(rest@ =~= data@.skip(4));
        }
        Ok(StateAccount { state: slice_to_vec(rest) })
    }

    /// Serializes the payload under the frame that [`StateAccount::load`]
    /// accepts; the 32-bit prefix forces the length bound.
    pub fn save(&self) -> (out: Vec<u8>)
        requires
            self.state@.len() <= u32::MAX,
        ensures
            out@ == spec_account_bytes(self.state@),
    {
        let mut out = u32_to_le_bytes(self.state.len() as u32);
        append_bytes(&mut out, self.state.as_slice());
        out
    }
}

/// Framing round trip: a saved payload parses back to itself.
pub proof fn lemma_account_roundtrip(state: Seq<u8>)
    requires
        state.len() <= u32::MAX,
    ensures
        spec_account_bytes(state).len() >= 4,
        spec_u32_from_le_bytes(spec_account_bytes(state).subrange(0, 4)) == spec_account_bytes(
            state,
        ).len() - 4,
        spec_account_bytes(state).skip(4) == state,
{
    lemma_auto_spec_u32_to_from_le_bytes();
    assert(spec_account_bytes(state).subrange(0, 4) =~= spec_u32_to_le_bytes(state.len() as u32));
    assert(spec_account_bytes(state).skip(4) =~= state);
}

/// The instruction decision: a verified proof replaces the account payload
/// with the submitted bytes, which the runtime then persists; anything else
/// is rejected without effect.
pub fn process_update(verified: bool, payload: &[u8]) -> (r: Result<StateAccount, ProcessError>)
    ensures
        match r {
            Ok(account) => verified && account.state@ == payload@,
            Err(e) => !verified && e == ProcessError::InvalidInstructionData,
        },
{
    if !verified {
        return Err(ProcessError::InvalidInstructionData);
    }
    Ok(StateAccount { state: slice_to_vec(payload) })
}

/// The accepted commitment head. Only [`Anchor::submit`] may move it; every
/// other component works on local state.
#[derive(Debug)]
pub struct Anchor {
    accepted_root: Vec<u8>,
}

impl Anchor {
    /// The digest currently accepted as the head of the ledger's history.
    pub closed spec fn accepted(self) -> Seq<u8> {
        self.accepted_root@
    }

    /// The head is always a full-width digest.
    pub closed spec fn wf(self) -> bool {
        self.accepted_root@.len() == 32
    }

    /// Starts the anchor at a genesis commitment.
    pub fn new(genesis_root: Vec<u8>) -> (anchor: Anchor)
        requires
            genesis_root@.len() == 32,
        ensures
            anchor.wf(),
            anchor.accepted() == genesis_root@,
    {
        Anchor { accepted_root: genesis_root }
    }

    /// The current head, exposed for the next batch's predecessor linkage.
    pub fn head(&self) -> (root: &Vec<u8>)
        ensures
            root@ == self.accepted(),
    {
        &self.accepted_root
    }

    /// Records `new_root` as the accepted head exactly when the proof
    /// verified and the root is a full-width digest; otherwise rejects the
    /// update and keeps the previous head.
    pub fn submit(&mut self, verified: bool, new_root: Vec<u8>) -> (accepted: bool)
        requires
            old(self).wf(),
        ensures
            final(self).wf(),
            accepted == (verified && new_root@.len() == 32),
            accepted ==> final(self).accepted() == new_root@,
            !accepted ==> *final(self) == *old(self),
    {
        if verified && new_root.len() == 32 {
            self.accepted_root = new_root;
            true
        } else {
            false
        }
    }
}

} // verus!
