//! Why a packet was refused.

use vstd::prelude::*;

verus! {

/// The reasons a node refuses a packet, and the failures of its helpers.
#[derive(Debug)]
pub enum AgentZkError {
    /// Encoding or decoding failed; the text says why.
    Serialization(String),
    /// The signature is malformed or does not verify under the sender's key.
    BadSignature,
    /// The packet was written for another schema (both digests in lowercase hex).
    SchemaMismatch { expected: String, got: String },
    /// A detached delta body does not match the digest or length its packet declares.
    InvalidDelta,
    /// A packet with a detached delta arrived without its body.
    MissingDeltaBody,
    /// The clock's node id is not the one derived from the claimed sender.
    NidMismatch,
    /// The declared delta length exceeds the cap.
    DeltaTooLarge(usize),
    /// The sender signed two different packets with one sequence number.
    Equivocation { src: String, seq: u64 },
    /// The packet does not chain to the sender's previous packet.
    ChainBreak { src: String, seq: u64 },
    /// Too many future packets of this sender are already held back.
    PendingOverflow,
}

} // verus!
