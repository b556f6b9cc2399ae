use vstd::prelude::*;

verus! {

/// A 32-byte account identifier, held as its upper and its lower 16 bytes read
/// as big-endian integers.
#[derive(Clone, Copy, Debug, PartialEq, Eq, Hash, Structural)]
pub struct AccountId {
    pub hi: u128,
    pub lo: u128,
}

/// Token amounts.
pub type Balance = u128;

/// Block numbers of the chain the contracts run on.
pub type BlockNumber = u32;

/// A 32-byte hash of a document.
pub type DocumentHash = [u8; 32];

} // verus!
