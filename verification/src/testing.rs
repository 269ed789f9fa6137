//! Concrete types for the test chain: hashes are strings, numbers, ids and signatures integers.
use vstd::prelude::*;

pub mod chain;
pub mod names;
pub mod model;
pub mod laws;

verus! {

/// A block hash.
pub type Hash = String;

/// A block height.
pub type BlockNumber = u64;

/// A voter id.
pub type Id = u64;

/// A vote signature.
pub type Signature = u64;

/// The hash of the genesis block, which is its own parent.
pub const GENESIS_HASH: &'static str = "genesis";

} // verus!
