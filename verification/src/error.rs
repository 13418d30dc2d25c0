use vstd::prelude::*;

verus! {

/// Why a block, a transaction or a message was refused.
#[derive(Debug)]
pub enum BtcError {
    InvalidPreviousHash,
    InvalidMerkleRoot,
    InvalidProofOfWork,
    EmptyTransaction,
    UnknownInput,
    InvalidSignature,
    DuplicateSpend,
    Overspend,
    InvalidCoinbase,
    Serialization,
    Crypto(String),
}

} // verus!
