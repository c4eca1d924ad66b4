//! Merkle audit proofs: the proof and lemma data model, its structural
//! invariants, and the validating conversion between that model, a structured
//! wire message and the message's binary encoding.

pub mod model;
pub mod proto;
pub mod varint;
pub mod wire;
pub mod encode;
pub mod decode;
pub mod laws;

pub use crate::encode::EncodeError;
pub use crate::model::{Lemma, Positioned, Proof};
pub use crate::proto::{LemmaProto, ProofProto, SiblingHash};
pub use crate::wire::WireError;
