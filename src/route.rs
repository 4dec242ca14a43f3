//! Tree routes between two blocks.
use vstd::prelude::*;

use crate::backend::{resolve, HeaderBackend};
use crate::lineage::{
    ancestor_at, branch, descends_from, entry_of, index_wf, lemma_ancestor_extend,
    lemma_lineage_meet, lemma_meet_jump_second, lemma_meet_symmetric, meet, route_through,
    same_lineage,
};
use crate::types::{BlockId, Error, LightHeader, RouteEntry};

verus! {

/// The common ancestor of the blocks two identifiers name, if both are stored
/// and the ancestry between them is complete.
pub open spec fn lca_of(m: Map<u64, LightHeader>, best: Map<u64, u64>, a: BlockId, b: BlockId) -> Option<u64> {
    match (resolve(m, best, a), resolve(m, best, b)) {
        (Some(x), Some(y)) => meet(m, x, y),
        _ => None,
    }
}

/// The route from a block to itself is that block alone, its own common
/// ancestor, with nothing retracted or enacted.
pub proof fn lemma_route_to_self(m: Map<u64, LightHeader>, best: Map<u64, u64>, id: BlockId)
    requires
        index_wf(m),
        resolve(m, best, id) is Some,
    ensures
        ({
            let x = resolve(m, best, id)->0;
            &&& lca_of(m, best, id, id) == Some(x)
            &&& route_through(m, x, x, x) == seq![entry_of(m, x)]
            &&& branch(m, x, x).len() == 0
        }),
{
    let x = resolve(m, best, id)->0;
    assert(branch(m, x, x) =~= Seq::<RouteEntry>::empty());
    assert(route_through(m, x, x, x) =~= seq![entry_of(m, x)]);
}

/// The lowest common ancestor is symmetric.
pub proof fn lemma_lca_symmetric(m: Map<u64, LightHeader>, best: Map<u64, u64>, a: BlockId, b: BlockId)
    requires
        index_wf(m),
    ensures
        lca_of(m, best, a, b) == lca_of(m, best, b, a),
{
    if let (Some(x), Some(y)) = (resolve(m, best, a), resolve(m, best, b)) {
        lemma_meet_symmetric(m, x, y);
    }
}

/// The route back is the route forth reversed: what one retracts the other
/// enacts, in the opposite order, through the same common ancestor.
pub proof fn lemma_route_reversal(m: Map<u64, LightHeader>, best: Map<u64, u64>, from: BlockId, to: BlockId)
    requires
        index_wf(m),
        lca_of(m, best, from, to) is Some,
    ensures
        ({
            let f = resolve(m, best, from)->0;
            let t = resolve(m, best, to)->0;
            let c = lca_of(m, best, from, to)->0;
            let forth = route_through(m, f, t, c);
            let back = route_through(m, t, f, c);
            let pf = branch(m, f, c).len() as int;
            let pb = branch(m, t, c).len() as int;
            &&& lca_of(m, best, to, from) == Some(c)
            &&& forth.take(pf) == back.skip(pb + 1).reverse()
            &&& forth.skip(pf + 1) == back.take(pb).reverse()
            &&& forth[pf] == back[pb]
        }),
{
    lemma_lca_symmetric(m, best, from, to);
    let f = resolve(m, best, from)->0;
    let t = resolve(m, best, to)->0;
    let c = lca_of(m, best, from, to)->0;
    let bf = branch(m, f, c);
    let bt = branch(m, t, c);
    let forth = route_through(m, f, t, c);
    let back = route_through(m, t, f, c);
    let pf = bf.len() as int;
    let pb = bt.len() as int;
    assert(forth.take(pf) =~= bf);
    assert(back.skip(pb + 1) =~= bf.reverse());
    assert(bf.reverse().reverse() =~= bf);
    assert(forth.skip(pf + 1) =~= bt.reverse());
    assert(back.take(pb) =~= bt);
    assert(bt.reverse().reverse() =~= bt);
}

/// When one block descends from another, the other is their common ancestor.
pub proof fn lemma_lca_of_ancestor(m: Map<u64, LightHeader>, best: Map<u64, u64>, p: u64, r: u64)
    requires
        index_wf(m),
        descends_from(m, r, p),
    ensures
        lca_of(m, best, BlockId::Hash(p), BlockId::Hash(r)) == Some(p),
        lca_of(m, best, BlockId::Hash(r), BlockId::Hash(p)) == Some(p),
{
    lemma_meet_jump_second(m, p, r, (m[r].number - m[p].number) as nat, p);
    lemma_meet_symmetric(m, p, r);
}

/// Updating jump pointers, as `lca` does, never changes a later answer.
pub proof fn lemma_lca_repeatable(
    m1: Map<u64, LightHeader>,
    m2: Map<u64, LightHeader>,
    best: Map<u64, u64>,
    a: BlockId,
    b: BlockId,
)
    requires
        same_lineage(m1, m2),
    ensures
        lca_of(m1, best, a, b) == lca_of(m2, best, a, b),
{
    assert(resolve(m1, best, a) == resolve(m2, best, a));
    assert(resolve(m1, best, b) == resolve(m2, best, b));
    if let (Some(x), Some(y)) = (resolve(m1, best, a), resolve(m1, best, b)) {
        lemma_lineage_meet(m1, m2, x, y);
    }
}

/// An identifier that names no stored block has no common ancestor with any
/// block, on either side.
pub proof fn lemma_unknown_block(m: Map<u64, LightHeader>, best: Map<u64, u64>, a: BlockId, b: BlockId)
    requires
        resolve(m, best, a) is None,
    ensures
        lca_of(m, best, a, b) is None,
        lca_of(m, best, b, a) is None,
{
}

/// A tree-route from one block to another in the chain.
///
/// All blocks before the pivot are the ancestry of the first block, from that
/// block towards the common ancestor; the block at the pivot is the common
/// ancestor; all blocks after the pivot are the ancestry of the second block,
/// from the common ancestor's child up to that block. The route is never empty.
///
/// ```text
/// Tree route from R1 to E2. Retracted is [R1, R2, R3], Common is C, enacted [E1, E2]
///   <- R3 <- R2 <- R1
///  /
/// C
///  \-> E1 -> E2
/// ```
#[derive(Debug)]
pub struct TreeRoute {
    route: Vec<RouteEntry>,
    pivot: usize,
}

impl TreeRoute {
    #[verifier::type_invariant]
    spec fn pivot_in_route(self) -> bool {
        self.pivot < self.route.len()
    }

    /// All entries of the route, in order.
    pub closed spec fn entries(&self) -> Seq<RouteEntry> {
        self.route@
    }

    /// The index of the common ancestor in `entries()`.
    pub closed spec fn pivot(&self) -> nat {
        self.pivot as nat
    }

    /// Get a slice of all retracted blocks in reverse order (towards common ancestor).
    pub fn retracted(&self) -> (r: &[RouteEntry])
        ensures
            self.pivot() < self.entries().len(),
            r@ == self.entries().take(self.pivot() as int),
    {
        proof {
            use_type_invariant(self);
        }
        vstd::slice::slice_subrange(self.route.as_slice(), 0, self.pivot)
    }

    /// Get the common ancestor block. This might be one of the two blocks of the route.
    pub fn common_block(&self) -> (r: &RouteEntry)
        ensures
            self.pivot() < self.entries().len(),
            *r == self.entries()[self.pivot() as int],
    {
        proof {
            use_type_invariant(self);
        }
        &self.route[self.pivot]
    }

    /// Get a slice of enacted blocks (descendents of the common ancestor).
    pub fn enacted(&self) -> (r: &[RouteEntry])
        ensures
            self.pivot() < self.entries().len(),
            r@ == self.entries().skip(self.pivot() + 1int),
    {
        proof {
            use_type_invariant(self);
        }
        vstd::slice::slice_subrange(self.route.as_slice(), self.pivot + 1, self.route.len())
    }
}

/// `h` is the block reached from `h0` after recording the blocks of `b`, each
/// the ancestor of `h0` at its position.
spec fn walked(m: Map<u64, LightHeader>, h0: u64, h: LightHeader, b: Seq<RouteEntry>) -> bool {
    &&& m.contains_key(h.hash)
    &&& m[h.hash] == h
    &&& b.len() + h.number == m[h0].number
    &&& ancestor_at(m, h0, b.len()) == Some(h.hash)
    &&& forall|i: int| 0 <= i < b.len() ==> #[trigger] b[i] == entry_of(m, ancestor_at(m, h0, i as nat).unwrap())
}

/// Record `h` on the branch and move to its stored parent `p`.
proof fn lemma_walk_step(m: Map<u64, LightHeader>, h0: u64, h: LightHeader, b: Seq<RouteEntry>, p: LightHeader)
    requires
        index_wf(m),
        walked(m, h0, h, b),
        m.contains_key(h.parent),
        p == m[h.parent],
    ensures
        walked(m, h0, p, b.push(RouteEntry { number: h.number, hash: h.hash })),
{
    lemma_ancestor_extend(m, h0, b.len(), h.hash, p.hash);
    let b2 = b.push(RouteEntry { number: h.number, hash: h.hash });
    assert forall|i: int| 0 <= i < b2.len() implies #[trigger] b2[i] == entry_of(m, ancestor_at(m, h0, i as nat).unwrap()) by {
        if i < b.len() {
            assert(b2[i] == b[i]);
        }
    }
}

/// Compute a tree-route between two blocks.
pub fn tree_route<B: HeaderBackend>(backend: &B, from: BlockId, to: BlockId) -> (r: Result<TreeRoute, Error>)
    requires
        index_wf(backend.index()),
    ensures
        match r {
            Ok(route) => {
                let m = backend.index();
                let f = resolve(m, backend.best_chain(), from).unwrap();
                let t = resolve(m, backend.best_chain(), to).unwrap();
                let c = lca_of(m, backend.best_chain(), from, to).unwrap();
                &&& lca_of(m, backend.best_chain(), from, to) is Some
                &&& route.entries() == route_through(m, f, t, c)
                &&& route.pivot() == branch(m, f, c).len()
            },
            Err(e) => lca_of(backend.index(), backend.best_chain(), from, to) is None && e is UnknownBlock,
        },
{
    let ghost m = backend.index();
    let mut from_h = match backend.light_header(from) {
        Some(h) => h,
        None => return Err(Error::UnknownBlock(from)),
    };
    let mut to_h = match backend.light_header(to) {
        Some(h) => h,
        None => return Err(Error::UnknownBlock(to)),
    };
    let ghost f0 = from_h.hash;
    let ghost t0 = to_h.hash;
    assert(lca_of(m, backend.best_chain(), from, to) == meet(m, f0, t0));
    let mut from_branch: Vec<RouteEntry> = Vec::new();
    let mut to_branch: Vec<RouteEntry> = Vec::new();
    assert(ancestor_at(m, f0, 0) == Some(f0));
    assert(ancestor_at(m, t0, 0) == Some(t0));

    while to_h.number > from_h.number
        invariant
            m == backend.index(),
            index_wf(m),
            walked(m, f0, from_h, from_branch@),
            walked(m, t0, to_h, to_branch@),
            meet(m, f0, t0) == meet(m, from_h.hash, to_h.hash),
            lca_of(m, backend.best_chain(), from, to) == meet(m, f0, t0),
        decreases to_h.number,
    {
        let parent = match backend.light_header(BlockId::Hash(to_h.parent)) {
            Some(h) => h,
            None => {
                proof {
                    assert(meet(m, from_h.hash, to_h.hash) is None);
                }
                return Err(Error::UnknownBlock(BlockId::Hash(to_h.parent)));
            },
        };
        proof {
            lemma_walk_step(m, t0, to_h, to_branch@, parent);
        }
        to_branch.push(RouteEntry { number: to_h.number, hash: to_h.hash });
        to_h = parent;
    }

    while from_h.number > to_h.number
        invariant
            m == backend.index(),
            index_wf(m),
            walked(m, f0, from_h, from_branch@),
            walked(m, t0, to_h, to_branch@),
            to_h.number <= from_h.number,
            meet(m, f0, t0) == meet(m, from_h.hash, to_h.hash),
            lca_of(m, backend.best_chain(), from, to) == meet(m, f0, t0),
        decreases from_h.number,
    {
        let parent = match backend.light_header(BlockId::Hash(from_h.parent)) {
            Some(h) => h,
            None => {
                proof {
                    assert(meet(m, from_h.hash, to_h.hash) is None);
                }
                return Err(Error::UnknownBlock(BlockId::Hash(from_h.parent)));
            },
        };
        proof {
            lemma_walk_step(m, f0, from_h, from_branch@, parent);
        }
        from_branch.push(RouteEntry { number: from_h.number, hash: from_h.hash });
        from_h = parent;
    }

    // The heights are equal now: walk both sides down until they meet.
    while to_h.hash != from_h.hash
        invariant
            m == backend.index(),
            index_wf(m),
            walked(m, f0, from_h, from_branch@),
            walked(m, t0, to_h, to_branch@),
            to_h.number == from_h.number,
            meet(m, f0, t0) == meet(m, from_h.hash, to_h.hash),
            lca_of(m, backend.best_chain(), from, to) == meet(m, f0, t0),
        decreases to_h.number,
    {
        let to_parent = match backend.light_header(BlockId::Hash(to_h.parent)) {
            Some(h) => h,
            None => {
                proof {
                    assert(meet(m, from_h.hash, to_h.hash) is None);
                }
                return Err(Error::UnknownBlock(BlockId::Hash(to_h.parent)));
            },
        };
        proof {
            lemma_walk_step(m, t0, to_h, to_branch@, to_parent);
        }
        assert(meet(m, from_h.hash, to_h.hash) == meet(m, from_h.hash, to_parent.hash));
        to_branch.push(RouteEntry { number: to_h.number, hash: to_h.hash });
        to_h = to_parent;

        let from_parent = match backend.light_header(BlockId::Hash(from_h.parent)) {
            Some(h) => h,
            None => {
                proof {
                    assert(meet(m, from_h.hash, to_h.hash) is None);
                }
                return Err(Error::UnknownBlock(BlockId::Hash(from_h.parent)));
            },
        };
        proof {
            lemma_walk_step(m, f0, from_h, from_branch@, from_parent);
        }
        assert(meet(m, from_h.hash, to_h.hash) == meet(m, from_parent.hash, to_h.hash));
        from_branch.push(RouteEntry { number: from_h.number, hash: from_h.hash });
        from_h = from_parent;
    }

    let ghost c = to_h.hash;
    let ghost head = from_branch@.push(entry_of(m, c));
    let ghost tail = to_branch@;
    assert(from_branch@ =~= branch(m, f0, c));
    assert(to_branch@ =~= branch(m, t0, c));

    // Add the pivot block, then the to-side branch from the pivot's child up.
    let pivot = from_branch.len();
    let mut route = from_branch;
    route.push(RouteEntry { number: to_h.number, hash: to_h.hash });
    let mut i: usize = to_branch.len();
    while i > 0
        invariant
            i <= to_branch.len(),
            to_branch@ == tail,
            route@ == head + tail.subrange(i as int, tail.len() as int).reverse(),
        decreases i,
    {
        i = i - 1;
        assert(tail.subrange(i as int, tail.len() as int).reverse() =~= tail.subrange(
            i as int + 1,
            tail.len() as int,
        ).reverse().push(tail[i as int]));
        route.push(to_branch[i]);
    }
    assert(tail.subrange(0, tail.len() as int) =~= tail);
    Ok(TreeRoute { route, pivot })
}

} // verus!
