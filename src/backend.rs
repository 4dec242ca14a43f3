//! The header backend: the capability set the navigator queries.
use vstd::prelude::*;

use crate::lineage::{descends_from, index_wf};
use crate::types::{BlockId, BlockStatus, Error, Info, LightHeader};

verus! {

/// The stored block that an identifier names: a hash names itself when stored,
/// a number names the block at that height on the best chain.
pub open spec fn resolve(m: Map<u64, LightHeader>, best: Map<u64, u64>, id: BlockId) -> Option<u64> {
    match id {
        BlockId::Hash(h) => if m.contains_key(h) {
            Some(h)
        } else {
            None
        },
        BlockId::Number(n) => if best.contains_key(n) && m.contains_key(best[n]) {
            Some(best[n])
        } else {
            None
        },
    }
}

/// Blockchain header backend. Does not perform any validation.
pub trait HeaderBackend {
    /// The backend's own consistency condition, kept by every update.
    spec fn valid(&self) -> bool;

    /// The light headers known to the backend, by hash.
    spec fn index(&self) -> Map<u64, LightHeader>;

    /// The best chain: the hash of the block at each height.
    spec fn best_chain(&self) -> Map<u64, u64>;

    /// The chain-head metadata the backend reports.
    spec fn chain_info(&self) -> Info;

    /// Get blockchain info.
    fn info(&self) -> (r: Info)
        ensures
            r == self.chain_info(),
    ;

    /// Get light header, usually without hitting the database.
    fn light_header(&self, id: BlockId) -> (r: Option<LightHeader>)
        ensures
            r == match resolve(self.index(), self.best_chain(), id) {
                Some(h) => Some(self.index()[h]),
                None => None,
            },
    ;

    /// Overwrite the jump pointer of a stored light header.
    fn set_light_header(&mut self, data: LightHeader)
        requires
            old(self).valid(),
            index_wf(old(self).index()),
            old(self).index().contains_key(data.hash),
            old(self).index()[data.hash].number == data.number,
            old(self).index()[data.hash].parent == data.parent,
            old(self).index().contains_key(data.ancestor),
            old(self).index()[data.ancestor].number < data.number,
            descends_from(old(self).index(), data.hash, data.ancestor),
        ensures
            final(self).valid(),
            final(self).index() == old(self).index().insert(data.hash, data),
            final(self).best_chain() == old(self).best_chain(),
            final(self).chain_info() == old(self).chain_info(),
    ;

    /// Get block number by hash. Returns `None` if the header is not in the chain.
    fn number(&self, hash: u64) -> (r: Option<u64>)
        ensures
            r == if self.index().contains_key(hash) {
                Some(self.index()[hash].number)
            } else {
                None
            },
    ;

    /// Get block hash by number. Returns `None` if the header is not in the chain.
    fn hash(&self, number: u64) -> (r: Option<u64>)
        ensures
            r == if self.best_chain().contains_key(number) {
                Some(self.best_chain()[number])
            } else {
                None
            },
    ;

    /// Get block status.
    fn status(&self, id: BlockId) -> (r: BlockStatus)
        ensures
            r == if resolve(self.index(), self.best_chain(), id) is Some {
                BlockStatus::InChain
            } else {
                BlockStatus::Unknown
            },
    ;

    /// Get id of parent block. Returns `None` if the header is not in the chain.
    fn parent(&self, id: BlockId) -> (r: Option<BlockId>)
        ensures
            r == match resolve(self.index(), self.best_chain(), id) {
                Some(h) => Some(BlockId::Hash(self.index()[h].parent)),
                None => None,
            },
    {
        match self.light_header(id) {
            Some(hdr) => Some(BlockId::Hash(hdr.parent)),
            None => None,
        }
    }

    /// Convert an arbitrary block ID into a block hash.
    fn block_hash_from_id(&self, id: &BlockId) -> (r: Option<u64>)
        ensures
            r == match *id {
                BlockId::Hash(h) => Some(h),
                BlockId::Number(n) => if self.best_chain().contains_key(n) {
                    Some(self.best_chain()[n])
                } else {
                    None
                },
            },
    {
        match *id {
            BlockId::Hash(h) => Some(h),
            BlockId::Number(n) => self.hash(n),
        }
    }

    /// Convert an arbitrary block ID into a block number.
    fn block_number_from_id(&self, id: &BlockId) -> (r: Option<u64>)
        ensures
            r == match *id {
                BlockId::Hash(h) => if self.index().contains_key(h) {
                    Some(self.index()[h].number)
                } else {
                    None
                },
                BlockId::Number(n) => Some(n),
            },
    {
        match *id {
            BlockId::Hash(h) => self.number(h),
            BlockId::Number(n) => Some(n),
        }
    }

    /// Get light header. Returns `UnknownBlock` error if block is not found.
    fn expect_header(&self, id: BlockId) -> (r: Result<LightHeader, Error>)
        ensures
            r == match resolve(self.index(), self.best_chain(), id) {
                Some(h) => Ok(self.index()[h]),
                None => Err(Error::UnknownBlock(id)),
            },
    {
        match self.light_header(id) {
            Some(hdr) => Ok(hdr),
            None => Err(Error::UnknownBlock(id)),
        }
    }

    /// Convert an arbitrary block ID into a block number. Returns `UnknownBlock`
    /// error if block is not found.
    fn expect_block_number_from_id(&self, id: &BlockId) -> (r: Result<u64, Error>)
        ensures
            r == match *id {
                BlockId::Hash(h) => if self.index().contains_key(h) {
                    Ok(self.index()[h].number)
                } else {
                    Err(Error::UnknownBlock(*id))
                },
                BlockId::Number(n) => Ok(n),
            },
    {
        match self.block_number_from_id(id) {
            Some(n) => Ok(n),
            None => Err(Error::UnknownBlock(*id)),
        }
    }

    /// Convert an arbitrary block ID into a block hash. Returns `UnknownBlock`
    /// error if block is not found.
    fn expect_block_hash_from_id(&self, id: &BlockId) -> (r: Result<u64, Error>)
        ensures
            r == match *id {
                BlockId::Hash(h) => Ok(h),
                BlockId::Number(n) => if self.best_chain().contains_key(n) {
                    Ok(self.best_chain()[n])
                } else {
                    Err(Error::UnknownBlock(*id))
                },
            },
    {
        match self.block_hash_from_id(id) {
            Some(h) => Ok(h),
            None => Err(Error::UnknownBlock(*id)),
        }
    }
}

} // verus!

verus! {

/// A stored block that no stored block names as its parent.
pub open spec fn is_leaf(m: Map<u64, LightHeader>, h: u64) -> bool {
    m.contains_key(h) && forall|y: u64| #[trigger] m.contains_key(y) ==> m[y].parent != h
}

/// Blockchain backend: headers, plus the shape of the block tree and finality.
pub trait Backend: HeaderBackend {
    /// Get last finalized block hash.
    fn last_finalized(&self) -> (r: u64)
        ensures
            r == self.chain_info().finalized_hash,
    ;

    /// Returns hashes of all blocks that are leaves of the block tree, in other
    /// words, that have no children, are chain heads. Ordered best (highest)
    /// first.
    fn leaves(&self) -> (r: Vec<u64>)
        requires
            self.valid(),
        ensures
            r@.no_duplicates(),
            forall|h: u64| r@.contains(h) <==> is_leaf(self.index(), h),
            forall|a: int, b: int|
                0 <= a < b < r.len() ==> self.index()[r[a]].number >= self.index()[r[b]].number,
    ;

    /// Return hashes of all blocks that are children of the block with `parent_hash`.
    fn children(&self, parent_hash: u64) -> (r: Vec<u64>)
        requires
            self.valid(),
        ensures
            r@.no_duplicates(),
            forall|h: u64|
                r@.contains(h) <==> (self.index().contains_key(h) && self.index()[h].parent
                    == parent_hash),
    ;
}

} // verus!
