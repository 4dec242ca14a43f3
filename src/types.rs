use vstd::prelude::*;

verus! {

/// Reference to a block, either by its hash or by its height on the best chain.
#[derive(Clone, Copy, Debug, PartialEq, Eq, Structural)]
pub enum BlockId {
    Hash(u64),
    Number(u64),
}

/// Compact per-block record used for ancestry queries.
///
/// `parent` never changes once the record is stored; `ancestor` is a jump
/// pointer to some strict ancestor of the block (initially its parent).
#[derive(Clone, Copy, Debug, PartialEq, Eq, Structural)]
pub struct LightHeader {
    pub hash: u64,
    pub number: u64,
    pub parent: u64,
    pub ancestor: u64,
}

/// Blockchain info.
#[derive(Clone, Copy, Debug, PartialEq, Eq, Structural)]
pub struct Info {
    /// Best block hash.
    pub best_hash: u64,
    /// Best block number.
    pub best_number: u64,
    /// Genesis block hash.
    pub genesis_hash: u64,
    /// The head of the finalized chain.
    pub finalized_hash: u64,
    /// Last finalized block number.
    pub finalized_number: u64,
}

/// Whether a block is known to the index.
#[derive(Clone, Copy, Debug, PartialEq, Eq, Structural)]
pub enum BlockStatus {
    /// Already in the blockchain.
    InChain,
    /// Not in the queue or the blockchain.
    Unknown,
}

/// The error of every navigation query.
#[derive(Clone, Copy, Debug, PartialEq, Eq, Structural)]
pub enum Error {
    /// The block named by the identifier is absent from the index.
    UnknownBlock(BlockId),
}

/// An entry in a tree route.
#[derive(Clone, Copy, Debug, PartialEq, Eq, Structural)]
pub struct RouteEntry {
    /// The number of the block.
    pub number: u64,
    /// The hash of the block.
    pub hash: u64,
}

} // verus!
