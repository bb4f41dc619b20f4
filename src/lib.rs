//! A proof-of-work light client: relayed headers, the canonical chain and
//! depth-gated inclusion checks against it.

pub mod types;
pub mod hashing;
pub mod bridge;

pub use types::{AccountId, Error, HashValue, Header, HeaderSubmitted, MerkleProof, StateClaim};
pub use bridge::SpvBridge;
