//! Commits an ordered set of dependency records to a single 32-byte digest
//! through a binary Merkle tree, and supports compact proofs that one record
//! is a member of a previously committed set.

pub mod dependency;
pub mod hashing;
pub mod merkle;

pub use dependency::Dependency;
pub use merkle::MerkleNode;
pub use merkle::MerkleTree;
pub use merkle::ProofStep;
pub use merkle::Side;
