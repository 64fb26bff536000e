//! Epoch-range transition claims and the placeholder prover that certifies them.

use vstd::prelude::*;
use crate::hash::{B3, b3, blake3_digest};

verus! {

/// Where a transition claim stands.
#[derive(Clone, Copy, Debug, PartialEq, Eq)]
pub enum ProofStatus {
    Uncertified,
    Certified,
    Anchored,
    Disputed,
}

/// A claimed state transition over a range of epochs.
#[derive(Debug)]
pub struct EpochRange {
    pub from_epoch: u64,
    pub to_epoch: u64,
    pub state_root_before: B3,
    pub state_root_after: B3,
    pub packet_range_root: B3,
}

/// A receipt for a transition claim.
#[derive(Debug)]
pub struct ProofReceipt {
    pub claim_type: String,
    pub range: EpochRange,
    pub receipt_hash: B3,
    pub status: ProofStatus,
}

/// A prover that certifies every claim, binding the receipt to the claim's encoding.
#[derive(Debug)]
pub struct FakeProofBackend;

impl FakeProofBackend {
    /// Certifies `range`; `encoded_range` is the range's canonical encoding,
    /// whose BLAKE3 digest becomes the receipt hash.
    pub fn prove_transition(&self, range: EpochRange, encoded_range: &[u8]) -> (r: ProofReceipt)
        ensures
            r.claim_type@ == "pckp.transition.v1"@,
            r.range == range,
            r.receipt_hash@ == blake3_digest(encoded_range@),
            r.status == ProofStatus::Certified,
    {
        ProofReceipt {
            claim_type: "pckp.transition.v1".to_owned(),
            range,
            receipt_hash: b3(encoded_range),
            status: ProofStatus::Certified,
        }
    }
}

} // verus!
