//! The mathematical model of block ancestry over an index of light headers.
use vstd::prelude::*;

use crate::types::{LightHeader, RouteEntry};

verus! {

/// The stored parent of block `h`: present only when both records are stored
/// and the parent sits below the child.
pub open spec fn parent_of(m: Map<u64, LightHeader>, h: u64) -> Option<u64> {
    if m.contains_key(h) && m.contains_key(m[h].parent) && m[m[h].parent].number < m[h].number {
        Some(m[h].parent)
    } else {
        None
    }
}

/// The block reached from `h` by `k` parent steps, if every step is stored.
pub open spec fn ancestor_at(m: Map<u64, LightHeader>, h: u64, k: nat) -> Option<u64>
    decreases k,
{
    if k == 0 {
        if m.contains_key(h) {
            Some(h)
        } else {
            None
        }
    } else {
        match parent_of(m, h) {
            Some(p) => ancestor_at(m, p, (k - 1) as nat),
            None => None,
        }
    }
}

/// Block `a` descends from (or is) block `c`.
pub open spec fn descends_from(m: Map<u64, LightHeader>, a: u64, c: u64) -> bool {
    m.contains_key(a) && m.contains_key(c) && m[c].number <= m[a].number
        && ancestor_at(m, a, (m[a].number - m[c].number) as nat) == Some(c)
}

/// Well-formed index: records are keyed by their hash, a stored parent is one
/// below its child, and a stored jump target is a strict ancestor.
pub open spec fn index_wf(m: Map<u64, LightHeader>) -> bool {
    &&& forall|h: u64| #[trigger] m.contains_key(h) ==> m[h].hash == h
    &&& forall|h: u64|
        #[trigger] m.contains_key(h) && m.contains_key(m[h].parent) ==> m[m[h].parent].number + 1
            == m[h].number
    &&& forall|h: u64|
        #[trigger] m.contains_key(h) && m.contains_key(m[h].ancestor) ==> m[m[h].ancestor].number
            < m[h].number && descends_from(m, h, m[h].ancestor)
}

/// The lowest common ancestor of `a` and `b`: repeatedly step the higher of the
/// two (the second on a tie) to its parent until both name the same block.
/// `None` when a block or a needed parent is not stored.
pub open spec fn meet(m: Map<u64, LightHeader>, a: u64, b: u64) -> Option<u64>
    decreases m[a].number + m[b].number,
{
    if !m.contains_key(a) || !m.contains_key(b) {
        None
    } else if a == b {
        Some(a)
    } else if m[a].number > m[b].number {
        if m.contains_key(m[a].parent) && m[m[a].parent].number < m[a].number {
            meet(m, m[a].parent, b)
        } else {
            None
        }
    } else {
        if m.contains_key(m[b].parent) && m[m[b].parent].number < m[b].number {
            meet(m, a, m[b].parent)
        } else {
            None
        }
    }
}

/// The route entry of a stored block.
pub open spec fn entry_of(m: Map<u64, LightHeader>, h: u64) -> RouteEntry {
    RouteEntry { number: m[h].number, hash: h }
}

/// The blocks from `h` down to `c` (`h` included, `c` excluded), nearest first.
pub open spec fn branch(m: Map<u64, LightHeader>, h: u64, c: u64) -> Seq<RouteEntry> {
    Seq::new(
        (m[h].number - m[c].number) as nat,
        |i: int| entry_of(m, ancestor_at(m, h, i as nat).unwrap()),
    )
}

/// The tree route from `a` to `b` through their common ancestor `c`.
pub open spec fn route_through(m: Map<u64, LightHeader>, a: u64, b: u64, c: u64) -> Seq<
    RouteEntry,
> {
    branch(m, a, c) + seq![entry_of(m, c)] + branch(m, b, c).reverse()
}

} // verus!

verus! {

/// Walking `k` steps down from `h` lowers the height by exactly `k`.
pub proof fn lemma_ancestor_height(m: Map<u64, LightHeader>, h: u64, k: nat, x: u64)
    requires
        index_wf(m),
        ancestor_at(m, h, k) == Some(x),
    ensures
        m.contains_key(h),
        m.contains_key(x),
        m[x].number + k == m[h].number,
    decreases k,
{
    if k > 0 {
        let p = parent_of(m, h).unwrap();
        lemma_ancestor_height(m, p, (k - 1) as nat, x);
    }
}

/// One more parent step at the far end of a walk.
pub proof fn lemma_ancestor_extend(m: Map<u64, LightHeader>, h: u64, k: nat, x: u64, p: u64)
    requires
        ancestor_at(m, h, k) == Some(x),
        parent_of(m, x) == Some(p),
    ensures
        ancestor_at(m, h, k + 1) == Some(p),
    decreases k,
{
    if k > 0 {
        let q = parent_of(m, h).unwrap();
        lemma_ancestor_extend(m, q, (k - 1) as nat, x, p);
        assert(ancestor_at(m, h, k + 1) == ancestor_at(m, q, k));
    } else {
        assert(ancestor_at(m, p, 0) == Some(p));
    }
}

/// Replacing the first block by one of its ancestors that is not below the
/// second block keeps the common ancestor.
pub proof fn lemma_meet_jump_first(m: Map<u64, LightHeader>, a: u64, b: u64, k: nat, x: u64)
    requires
        index_wf(m),
        m.contains_key(b),
        ancestor_at(m, a, k) == Some(x),
        m[x].number >= m[b].number,
    ensures
        meet(m, a, b) == meet(m, x, b),
    decreases k,
{
    lemma_ancestor_height(m, a, k, x);
    if k > 0 {
        let p = parent_of(m, a).unwrap();
        lemma_meet_jump_first(m, p, b, (k - 1) as nat, x);
    }
}

/// Replacing the second block by one of its ancestors that is not below the
/// first block keeps the common ancestor.
pub proof fn lemma_meet_jump_second(m: Map<u64, LightHeader>, a: u64, b: u64, k: nat, x: u64)
    requires
        index_wf(m),
        m.contains_key(a),
        ancestor_at(m, b, k) == Some(x),
        m[x].number >= m[a].number,
    ensures
        meet(m, a, b) == meet(m, a, x),
    decreases k,
{
    lemma_ancestor_height(m, b, k, x);
    if k > 0 {
        let p = parent_of(m, b).unwrap();
        lemma_meet_jump_second(m, a, p, (k - 1) as nat, x);
    }
}

/// The common ancestor is an ancestor of both blocks.
pub proof fn lemma_meet_descends(m: Map<u64, LightHeader>, a: u64, b: u64, c: u64)
    requires
        index_wf(m),
        meet(m, a, b) == Some(c),
    ensures
        descends_from(m, a, c),
        descends_from(m, b, c),
    decreases m[a].number + m[b].number,
{
    if a == b {
        assert(ancestor_at(m, a, 0) == Some(a));
    } else if m[a].number > m[b].number {
        let p = m[a].parent;
        lemma_meet_descends(m, p, b, c);
        assert(ancestor_at(m, a, (m[a].number - m[c].number) as nat) == ancestor_at(
            m,
            p,
            (m[p].number - m[c].number) as nat,
        ));
    } else {
        let p = m[b].parent;
        lemma_meet_descends(m, a, p, c);
        assert(ancestor_at(m, b, (m[b].number - m[c].number) as nat) == ancestor_at(
            m,
            p,
            (m[p].number - m[c].number) as nat,
        ));
    }
}

} // verus!

verus! {

/// Two indexes that hold the same blocks with the same heights and parents;
/// they may differ only in jump pointers.
pub open spec fn same_lineage(m1: Map<u64, LightHeader>, m2: Map<u64, LightHeader>) -> bool {
    &&& m1.dom() == m2.dom()
    &&& forall|h: u64| #[trigger]
        m1.contains_key(h) ==> m1[h].number == m2[h].number && m1[h].parent == m2[h].parent
}

pub proof fn lemma_lineage_ancestor(m1: Map<u64, LightHeader>, m2: Map<u64, LightHeader>, h: u64, k: nat)
    requires
        same_lineage(m1, m2),
    ensures
        ancestor_at(m1, h, k) == ancestor_at(m2, h, k),
    decreases k,
{
    assert(m1.contains_key(h) == m2.contains_key(h));
    if m1.contains_key(h) {
        assert(m1.contains_key(m1[h].parent) == m2.contains_key(m2[h].parent));
    }
    if k > 0 {
        if let Some(p) = parent_of(m1, h) {
            lemma_lineage_ancestor(m1, m2, p, (k - 1) as nat);
        }
    }
}

/// Jump pointers play no part in the common ancestor.
pub proof fn lemma_lineage_meet(m1: Map<u64, LightHeader>, m2: Map<u64, LightHeader>, a: u64, b: u64)
    requires
        same_lineage(m1, m2),
    ensures
        meet(m1, a, b) == meet(m2, a, b),
    decreases m1[a].number + m1[b].number,
{
    assert(m1.contains_key(a) == m2.contains_key(a));
    assert(m1.contains_key(b) == m2.contains_key(b));
    if m1.contains_key(a) && m1.contains_key(b) && a != b {
        assert(m1.contains_key(m1[a].parent) == m2.contains_key(m2[a].parent));
        assert(m1.contains_key(m1[b].parent) == m2.contains_key(m2[b].parent));
        if m1[a].number > m1[b].number {
            if m1.contains_key(m1[a].parent) && m1[m1[a].parent].number < m1[a].number {
                lemma_lineage_meet(m1, m2, m1[a].parent, b);
            }
        } else {
            if m1.contains_key(m1[b].parent) && m1[m1[b].parent].number < m1[b].number {
                lemma_lineage_meet(m1, m2, a, m1[b].parent);
            }
        }
    }
}

/// Pointing the jump pointer of a stored block at one of its strict
/// ancestors keeps the index well formed and its lineage unchanged.
pub proof fn lemma_set_ancestor(m: Map<u64, LightHeader>, data: LightHeader)
    requires
        index_wf(m),
        m.contains_key(data.hash),
        m[data.hash].number == data.number,
        m[data.hash].parent == data.parent,
        m.contains_key(data.ancestor),
        m[data.ancestor].number < data.number,
        descends_from(m, data.hash, data.ancestor),
    ensures
        same_lineage(m, m.insert(data.hash, data)),
        index_wf(m.insert(data.hash, data)),
{
    let m2 = m.insert(data.hash, data);
    assert(m.dom() =~= m2.dom());
    assert(same_lineage(m, m2));
    assert forall|h: u64| #[trigger] m2.contains_key(h) && m2.contains_key(m2[h].ancestor) implies m2[m2[h].ancestor].number
        < m2[h].number && descends_from(m2, h, m2[h].ancestor) by {
        let x = m2[h].ancestor;
        assert(m.contains_key(h) && m.contains_key(x));
        lemma_lineage_ancestor(m, m2, h, (m[h].number - m[x].number) as nat);
    }
}

} // verus!

verus! {

/// The common ancestor does not depend on the order of the two blocks.
pub proof fn lemma_meet_symmetric(m: Map<u64, LightHeader>, a: u64, b: u64)
    requires
        index_wf(m),
    ensures
        meet(m, a, b) == meet(m, b, a),
    decreases m[a].number + m[b].number,
{
    if m.contains_key(a) && m.contains_key(b) && a != b {
        let pa = m[a].parent;
        let pb = m[b].parent;
        if m[a].number > m[b].number {
            if m.contains_key(pa) {
                lemma_meet_symmetric(m, pa, b);
            }
        } else if m[b].number > m[a].number {
            if m.contains_key(pb) {
                lemma_meet_symmetric(m, a, pb);
            }
        } else if m.contains_key(pa) && m.contains_key(pb) {
            lemma_meet_symmetric(m, pa, pb);
            assert(meet(m, a, b) == meet(m, a, pb));
            assert(meet(m, a, pb) == meet(m, pa, pb));
            assert(meet(m, b, a) == meet(m, b, pa));
            assert(meet(m, b, pa) == meet(m, pb, pa));
        } else if m.contains_key(pb) {
            assert(meet(m, a, b) == meet(m, a, pb));
        } else if m.contains_key(pa) {
            assert(meet(m, b, a) == meet(m, b, pa));
        }
    }
}

} // verus!

verus! {

/// A walk of `k + j` steps is a walk of `k` steps followed by one of `j`.
pub proof fn lemma_ancestor_split(m: Map<u64, LightHeader>, h: u64, k: nat, x: u64, j: nat)
    requires
        ancestor_at(m, h, k) == Some(x),
    ensures
        ancestor_at(m, h, k + j) == ancestor_at(m, x, j),
    decreases k,
{
    if k > 0 {
        let p = parent_of(m, h).unwrap();
        lemma_ancestor_split(m, p, (k - 1) as nat, x, j);
        assert(ancestor_at(m, h, k + j) == ancestor_at(m, p, (k - 1 + j) as nat));
    }
}

} // verus!
