//! Lowest common ancestor with memoised jump pointers.
use vstd::prelude::*;

use crate::backend::{resolve, HeaderBackend};
use crate::lineage::{
    index_wf, lemma_lineage_meet, lemma_meet_descends, lemma_meet_jump_first,
    lemma_meet_jump_second, lemma_set_ancestor, meet, same_lineage,
};
use crate::route::lca_of;
use crate::types::{BlockId, Error, LightHeader};

verus! {

/// Compute the lowest common ancestor between two blocks.
///
/// Stored jump pointers let the search skip long runs of single parent steps.
/// Afterwards the jump pointer of the higher of the two blocks is pointed at
/// the ancestor found, unless that block is the ancestor itself.
pub fn lca<B: HeaderBackend>(backend: &mut B, b0: BlockId, b1: BlockId) -> (r: Result<u64, Error>)
    requires
        old(backend).valid(),
        index_wf(old(backend).index()),
    ensures
        final(backend).valid(),
        index_wf(final(backend).index()),
        same_lineage(old(backend).index(), final(backend).index()),
        final(backend).best_chain() == old(backend).best_chain(),
        final(backend).chain_info() == old(backend).chain_info(),
        match r {
            Ok(c) => {
                let m = old(backend).index();
                let x = resolve(m, old(backend).best_chain(), b0)->0;
                let y = resolve(m, old(backend).best_chain(), b1)->0;
                let higher = if m[x].number > m[y].number {
                    x
                } else {
                    y
                };
                &&& lca_of(m, old(backend).best_chain(), b0, b1) == Some(c)
                &&& final(backend).index() == if c == higher {
                    m
                } else {
                    m.insert(higher, LightHeader { ancestor: c, ..m[higher] })
                }
            },
            Err(e) => {
                &&& lca_of(old(backend).index(), old(backend).best_chain(), b0, b1) is None
                &&& e is UnknownBlock
                &&& final(backend).index() == old(backend).index()
            },
        },
{
    let ghost m = backend.index();
    assert(same_lineage(m, m));
    let h0 = match backend.light_header(b0) {
        Some(h) => h,
        None => return Err(Error::UnknownBlock(b0)),
    };
    let h1 = match backend.light_header(b1) {
        Some(h) => h,
        None => return Err(Error::UnknownBlock(b1)),
    };
    assert(lca_of(m, backend.best_chain(), b0, b1) == meet(m, h0.hash, h1.hash));
    let mut x0 = h0;
    let mut x1 = h1;

    // Coarse phase: follow a jump pointer while it does not pass below the
    // other side.
    loop
        invariant
            m == backend.index(),
            backend.valid(),
            index_wf(m),
            m.contains_key(x0.hash),
            m[x0.hash] == x0,
            m.contains_key(x1.hash),
            m[x1.hash] == x1,
            meet(m, h0.hash, h1.hash) == meet(m, x0.hash, x1.hash),
            lca_of(m, backend.best_chain(), b0, b1) == meet(m, h0.hash, h1.hash),
            same_lineage(m, m),
        decreases x0.number + x1.number,
    {
        let jump0 = backend.light_header(BlockId::Hash(x0.ancestor));
        let jump1 = backend.light_header(BlockId::Hash(x1.ancestor));
        match jump0 {
            Some(a) if a.number >= x1.number => {
                proof {
                    lemma_meet_jump_first(
                        m,
                        x0.hash,
                        x1.hash,
                        (x0.number - a.number) as nat,
                        a.hash,
                    );
                }
                x0 = a;
            },
            _ => match jump1 {
                Some(a) if a.number >= x0.number => {
                    proof {
                        lemma_meet_jump_second(
                            m,
                            x0.hash,
                            x1.hash,
                            (x1.number - a.number) as nat,
                            a.hash,
                        );
                    }
                    x1 = a;
                },
                _ => break,
            },
        }
    }

    // Fine phase: step the higher side to its parent until both meet.
    while x0.hash != x1.hash
        invariant
            m == backend.index(),
            backend.valid(),
            index_wf(m),
            m.contains_key(x0.hash),
            m[x0.hash] == x0,
            m.contains_key(x1.hash),
            m[x1.hash] == x1,
            meet(m, h0.hash, h1.hash) == meet(m, x0.hash, x1.hash),
            lca_of(m, backend.best_chain(), b0, b1) == meet(m, h0.hash, h1.hash),
            same_lineage(m, m),
        decreases x0.number + x1.number,
    {
        if x0.number > x1.number {
            x0 = match backend.light_header(BlockId::Hash(x0.parent)) {
                Some(h) => h,
                None => return Err(Error::UnknownBlock(BlockId::Hash(x0.parent))),
            };
        } else {
            x1 = match backend.light_header(BlockId::Hash(x1.parent)) {
                Some(h) => h,
                None => return Err(Error::UnknownBlock(BlockId::Hash(x1.parent))),
            };
        }
    }
    let c = x0.hash;
    proof {
        lemma_meet_descends(m, h0.hash, h1.hash, c);
    }

    // Remember the ancestor on the higher of the two blocks.
    let higher = if h0.number > h1.number {
        h0
    } else {
        h1
    };
    if c != higher.hash {
        let data = LightHeader { ancestor: c, ..higher };
        proof {
            lemma_set_ancestor(m, data);
        }
        backend.set_light_header(data);
    }
    Ok(c)
}

} // verus!
