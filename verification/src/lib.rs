//! Deterministic shared-knowledge replication: signed packets carry graph
//! deltas that every replica folds into the same state in any order.

pub mod order;
pub mod hlc;
pub mod hash;
pub mod graph;
pub mod merge;
pub mod convergence;
pub mod canonical;
pub mod error;
pub mod packet;
pub mod node;
pub mod delivery;
pub mod prover;

pub use error::AgentZkError;
pub use graph::{Edge, Entity, GraphDelta, GraphState, PropEntry, PropPatch, PropRegister};
pub use hash::{b3, combine, B3};
pub use hlc::Hlc;
pub use merge::{MergeCtx, MergeEngine, MergePolicy, MergeReport, RegisterLaw};
pub use node::{nid_for, Ack, Admission, AgentZkNode};
pub use packet::{DeltaRef, PckpPacket, SignablePacket};
pub use prover::{EpochRange, FakeProofBackend, ProofReceipt, ProofStatus};
