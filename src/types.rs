use vstd::prelude::*;

verus! {

/// A 32-byte digest.
pub type HashValue = [u8; 32];

/// The identity of a relayer or of a deployer.
pub type AccountId = [u8; 32];

/// A block header of the source chain.
#[derive(Debug, Copy, Clone)]
pub struct Header {
    /// The height of this block in the chain.
    pub height: u64,
    /// The digest of this block's parent.
    pub parent: HashValue,
    /// The commitment to the key/value state at this height.
    pub storage_root: u64,
    /// The commitment to the transactions included in the block.
    pub transactions_root: u64,
    /// The nonce that lets the block's digest meet the proof-of-work threshold.
    pub pow_nonce: u64,
}

/// A stand-in for a Merkle inclusion proof: it only says whether it verifies.
#[derive(Debug, Copy, Clone)]
pub struct MerkleProof {
    pub verifies: bool,
}

impl MerkleProof {
    /// Checks `claim` against `merkle_root`; the stand-in proof decides alone.
    pub fn check_merkle_proof(_claim: HashValue, proof: MerkleProof, _merkle_root: u64) -> (r: bool)
        ensures
            r == proof.verifies,
    {
        proof.verifies
    }
}

/// A claim that `key` holds `value` in the source chain's storage.
#[derive(Debug, Copy, Clone)]
pub struct StateClaim {
    pub key: u64,
    pub value: u64,
}

/// Why a header submission was refused.
#[derive(Debug, Copy, Clone, PartialEq, Eq, Structural)]
pub enum Error {
    /// The payment is below the relay fee.
    InsufficientRelayFee,
    /// The header is already stored.
    HeaderAlreadySubmitted,
    /// The header's parent is not stored.
    UnknownParent,
    /// The header's height is not one more than its parent's.
    IncorrectHeight,
    /// The header's digest does not meet the difficulty threshold.
    PoWThresholdNotMet,
}

/// Emitted once for each accepted header.
#[derive(Debug, Copy, Clone)]
pub struct HeaderSubmitted {
    pub block_hash: HashValue,
    pub block_height: u64,
    pub submitter: AccountId,
}

} // verus!
