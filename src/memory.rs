//! A header backend held in memory.
use vstd::prelude::*;

use std::collections::HashMap;

use crate::backend::{is_leaf, Backend, HeaderBackend};
use crate::lineage::{
    ancestor_at, descends_from, index_wf, lemma_ancestor_extend, lemma_ancestor_split,
    lemma_set_ancestor, parent_of,
};
use crate::types::{BlockId, BlockStatus, Info, LightHeader};

verus! {

broadcast use vstd::std_specs::hash::group_hash_axioms;

/// Light headers kept in hash maps: by hash, and by height on the best chain.
///
/// The first block stored is the genesis, the only block whose parent is not
/// stored; every later block extends a stored one. The chain info names the
/// latest block imported as best and the latest finalized block, both stored.
#[derive(Debug)]
pub struct MemoryBackend {
    headers: HashMap<u64, LightHeader>,
    best: HashMap<u64, u64>,
    genesis: Option<u64>,
    info: Info,
    order: Vec<u64>,
}

/// Adding a block that no stored block names as parent leaves the walks from
/// the stored blocks as they were.
proof fn lemma_fresh_ancestor(m: Map<u64, LightHeader>, data: LightHeader, h: u64, k: nat)
    requires
        !m.contains_key(data.hash),
        forall|y: u64| #[trigger] m.contains_key(y) ==> m[y].parent != data.hash,
        m.contains_key(h),
    ensures
        ancestor_at(m.insert(data.hash, data), h, k) == ancestor_at(m, h, k),
    decreases k,
{
    let m2 = m.insert(data.hash, data);
    assert(parent_of(m2, h) == parent_of(m, h));
    if k > 0 {
        if let Some(p) = parent_of(m, h) {
            lemma_fresh_ancestor(m, data, p, (k - 1) as nat);
        }
    }
}

/// Adding a child one above a stored parent, with its jump pointer at that
/// parent, keeps the index well formed when no stored block names the new
/// hash as its parent.
proof fn lemma_extend_index(m: Map<u64, LightHeader>, data: LightHeader)
    requires
        index_wf(m),
        !m.contains_key(data.hash),
        forall|y: u64| #[trigger] m.contains_key(y) ==> m[y].parent != data.hash,
        m.contains_key(data.parent),
        m[data.parent].number + 1 == data.number,
        data.ancestor == data.parent,
        forall|y: u64| #[trigger]
            m.contains_key(y) ==> m.contains_key(m[y].ancestor) || m[y].ancestor == m[y].parent,
    ensures
        index_wf(m.insert(data.hash, data)),
{
    let m2 = m.insert(data.hash, data);
    let hash = data.hash;
    let parent = data.parent;
    assert forall|y: u64| #[trigger] m2.contains_key(y) && m2.contains_key(m2[y].parent) implies m2[m2[y].parent].number + 1 == m2[y].number by {
        if y != hash {
            assert(m.contains_key(m[y].parent));
        }
    }
    assert(ancestor_at(m2, parent, 0) == Some(parent));
    assert(descends_from(m2, hash, parent));
    assert forall|h: u64| #[trigger]
        m2.contains_key(h) && m2.contains_key(m2[h].ancestor) implies m2[m2[h].ancestor].number
        < m2[h].number && descends_from(m2, h, m2[h].ancestor) by {
        if h != hash {
            let a = m[h].ancestor;
            assert(m.contains_key(h));
            assert(m.contains_key(a));
            lemma_fresh_ancestor(m, data, h, (m[h].number - m[a].number) as nat);
        }
    }
}

/// What a sequence holds after a push.
proof fn lemma_push_contains(s: Seq<u64>, x: u64)
    ensures
        forall|h: u64| #[trigger] s.push(x).contains(h) <==> (s.contains(h) || h == x),
        s.no_duplicates() && !s.contains(x) ==> s.push(x).no_duplicates(),
{
    if s.no_duplicates() && !s.contains(x) {
        assert forall|i: int, j: int| 0 <= i < j < s.push(x).len() implies s.push(x)[i] != s.push(
            x,
        )[j] by {
            if j == s.len() {
                assert(s[i] == s.push(x)[i]);
            }
        }
    }
    assert forall|h: u64| #[trigger] s.push(x).contains(h) <==> (s.contains(h) || h == x) by {
        if s.contains(h) {
            let i = choose|i: int| 0 <= i < s.len() && s[i] == h;
            assert(s.push(x)[i] == h);
        }
        if h == x {
            assert(s.push(x)[s.len() as int] == h);
        }
        if s.push(x).contains(h) {
            let i = choose|i: int| 0 <= i < s.push(x).len() && s.push(x)[i] == h;
            if i < s.len() {
                assert(s[i] == h);
            }
        }
    }
}

impl MemoryBackend {
    /// The stored index is well formed, and only the genesis lacks a stored parent.
    pub closed spec fn consistent(&self) -> bool {
        let m = self.headers@;
        &&& index_wf(m)
        &&& self.genesis is None <==> m.dom() == Set::<u64>::empty()
        &&& self.genesis is Some ==> m.contains_key(self.genesis->0) && !m.contains_key(
            m[self.genesis->0].parent,
        )
        &&& forall|h: u64| #[trigger]
            m.contains_key(h) ==> (m.contains_key(m[h].parent) || self.genesis == Some(h)) && (
            m.contains_key(m[h].ancestor) || m[h].ancestor == m[h].parent)
        &&& self.order_matches()
        &&& self.genesis is Some ==> {
            &&& self.info.genesis_hash == self.genesis->0
            &&& m.contains_key(self.info.best_hash)
            &&& m[self.info.best_hash].number == self.info.best_number
            &&& m.contains_key(self.info.finalized_hash)
            &&& m[self.info.finalized_hash].number == self.info.finalized_number
        }
    }

    /// The import order lists each stored block once.
    spec fn order_matches(&self) -> bool {
        &&& self.order@.no_duplicates()
        &&& forall|h: u64| #[trigger] self.order@.contains(h) <==> self.headers@.contains_key(h)
    }

    /// The stored genesis hash, if any block is stored.
    pub closed spec fn genesis_hash(&self) -> Option<u64> {
        self.genesis
    }

    /// An empty backend.
    pub fn new() -> (r: Self)
        ensures
            r.index() == Map::<u64, LightHeader>::empty(),
            r.best_chain() == Map::<u64, u64>::empty(),
            r.genesis_hash() is None,
            r.chain_info() == (Info {
                best_hash: 0,
                best_number: 0,
                genesis_hash: 0,
                finalized_hash: 0,
                finalized_number: 0,
            }),
            index_wf(r.index()),
            r.valid(),
    {
        let info = Info {
            best_hash: 0,
            best_number: 0,
            genesis_hash: 0,
            finalized_hash: 0,
            finalized_number: 0,
        };
        let r = MemoryBackend {
            headers: HashMap::new(),
            best: HashMap::new(),
            genesis: None,
            info,
            order: Vec::new(),
        };
        assert(r.headers@.dom() =~= Set::<u64>::empty());
        r
    }

    /// Store a new block whose jump pointer starts at its parent, and make it
    /// the best block at its height when `best` holds.
    ///
    /// Accepted only for a hash not yet stored that is not the genesis's
    /// parent, and either as the genesis (number 0, empty backend) or as a
    /// child one above a stored parent. Returns whether it was stored.
    #[verifier::rlimit(40)]
    pub fn import(&mut self, hash: u64, number: u64, parent: u64, best: bool) -> (r: bool)
        requires
            old(self).valid(),
        ensures
            final(self).valid(),
            index_wf(final(self).index()),
            r == (!old(self).index().contains_key(hash) && (match old(self).genesis_hash() {
                None => number == 0 && parent != hash,
                Some(g) => hash != old(self).index()[g].parent && old(self).index().contains_key(parent)
                    && old(self).index()[parent].number + 1 == number,
            })),
            r ==> final(self).index() == old(self).index().insert(
                hash,
                LightHeader { hash, number, parent, ancestor: parent },
            ),
            r && best ==> final(self).best_chain() == old(self).best_chain().insert(number, hash),
            r && !best ==> final(self).best_chain() == old(self).best_chain(),
            !r ==> final(self).index() == old(self).index() && final(self).best_chain()
                == old(self).best_chain(),
            final(self).genesis_hash() == if old(self).genesis_hash() is None && r {
                Some(hash)
            } else {
                old(self).genesis_hash()
            },
            final(self).chain_info() == if !r {
                old(self).chain_info()
            } else if old(self).genesis_hash() is None {
                Info {
                    best_hash: hash,
                    best_number: number,
                    genesis_hash: hash,
                    finalized_hash: hash,
                    finalized_number: number,
                }
            } else if best {
                Info { best_hash: hash, best_number: number, ..old(self).chain_info() }
            } else {
                old(self).chain_info()
            },
    {
        let ghost m = self.headers@;
        assert(index_wf(self.index()));
        if self.headers.contains_key(&hash) {
            return false;
        }
        let data = LightHeader { hash, number, parent, ancestor: parent };
        match self.genesis {
            None => {
                if number != 0 || parent == hash {
                    return false;
                }
                proof {
                    let m2 = m.insert(hash, data);
                    assert(m2.dom() =~= set![hash]);
                    assert(m2.dom() != Set::<u64>::empty());
                }
                self.headers.insert(hash, data);
                proof {
                    assert(!self.order@.contains(hash));
                }
                self.order.push(hash);
                proof {
                    lemma_push_contains(old(self).order@, hash);
                    assert(self.order@ == old(self).order@.push(hash));
                    assert forall|h: u64| #[trigger] self.order@.contains(h) <==> self.headers@.contains_key(h) by {
                        assert(old(self).order@.contains(h) <==> old(self).headers@.contains_key(h));
                    }
                }
                self.genesis = Some(hash);
                self.info = Info {
                    best_hash: hash,
                    best_number: number,
                    genesis_hash: hash,
                    finalized_hash: hash,
                    finalized_number: number,
                };
                assert(self.consistent());
            },
            Some(g) => {
                let genesis_parent = match self.headers.get(&g) {
                    Some(h) => h.parent,
                    None => return false,
                };
                if hash == genesis_parent {
                    return false;
                }
                let parent_number = match self.headers.get(&parent) {
                    Some(p) => p.number,
                    None => return false,
                };
                if parent_number == u64::MAX || parent_number + 1 != number {
                    return false;
                }
                proof {
                    assert forall|y: u64| #[trigger] m.contains_key(y) implies m[y].parent != hash by {
                        if Some(y) != self.genesis {
                            assert(m.contains_key(m[y].parent));
                        }
                    }
                    lemma_extend_index(m, data);
                    let m2 = m.insert(hash, data);
                    assert forall|h: u64| #[trigger] m2.contains_key(h) implies (m2.contains_key(
                        m2[h].parent,
                    ) || self.genesis == Some(h)) && (m2.contains_key(m2[h].ancestor)
                        || m2[h].ancestor == m2[h].parent) by {
                        if h != hash {
                            assert(m.contains_key(h));
                        }
                    }
                    assert(m2.dom().contains(hash));
                    assert(m2[self.info.best_hash] == m[self.info.best_hash]);
                    assert(m2[self.info.finalized_hash] == m[self.info.finalized_hash]);
                    assert(m2[g] == m[g]);
                }
                self.headers.insert(hash, data);
                proof {
                    assert(!self.order@.contains(hash));
                }
                self.order.push(hash);
                proof {
                    lemma_push_contains(old(self).order@, hash);
                    assert(self.order@ == old(self).order@.push(hash));
                    assert forall|h: u64| #[trigger] self.order@.contains(h) <==> self.headers@.contains_key(h) by {
                        assert(old(self).order@.contains(h) <==> old(self).headers@.contains_key(h));
                    }
                }
                assert(self.consistent());
            },
        }
        if best {
            self.best.insert(number, hash);
            self.info.best_hash = hash;
            self.info.best_number = number;
        }
        true
    }

    /// Whether stored block `hash` descends from (or is) stored block `ancestor`,
    /// found by walking parents down to the ancestor's height.
    fn descends(&self, hash: u64, ancestor: u64) -> (r: bool)
        requires
            index_wf(self.headers@),
        ensures
            r == descends_from(self.headers@, hash, ancestor),
    {
        let ghost m = self.headers@;
        let target = match self.headers.get(&hash) {
            Some(h) => *h,
            None => return false,
        };
        let ancestor_number = match self.headers.get(&ancestor) {
            Some(h) => h.number,
            None => return false,
        };
        if target.number < ancestor_number {
            return false;
        }
        let mut cur = target;
        assert(ancestor_at(m, hash, 0) == Some(hash));
        while cur.number > ancestor_number
            invariant
                m == self.headers@,
                index_wf(m),
                m.contains_key(hash),
                m[hash] == target,
                m.contains_key(ancestor),
                m[ancestor].number == ancestor_number,
                m.contains_key(cur.hash),
                m[cur.hash] == cur,
                ancestor_number <= cur.number <= target.number,
                ancestor_at(m, hash, (target.number - cur.number) as nat) == Some(cur.hash),
            decreases cur.number,
        {
            let k = Ghost((target.number - cur.number) as nat);
            let j = Ghost((cur.number - ancestor_number) as nat);
            cur = match self.headers.get(&cur.parent) {
                Some(p) => {
                    proof {
                        lemma_ancestor_extend(m, hash, k@, cur.hash, p.hash);
                    }
                    *p
                },
                None => {
                    proof {
                        lemma_ancestor_split(m, hash, k@, cur.hash, j@);
                    }
                    return false;
                },
            };
        }
        cur.hash == ancestor
    }

    /// Finalize a stored block that descends from the last finalized one.
    /// Returns whether the block was finalized.
    pub fn finalize(&mut self, hash: u64) -> (r: bool)
        requires
            old(self).valid(),
        ensures
            final(self).valid(),
            r == (old(self).genesis_hash() is Some && descends_from(
                old(self).index(),
                hash,
                old(self).chain_info().finalized_hash,
            )),
            final(self).index() == old(self).index(),
            final(self).best_chain() == old(self).best_chain(),
            final(self).genesis_hash() == old(self).genesis_hash(),
            final(self).chain_info() == if r {
                Info {
                    finalized_hash: hash,
                    finalized_number: old(self).index()[hash].number,
                    ..old(self).chain_info()
                }
            } else {
                old(self).chain_info()
            },
    {
        if self.genesis.is_none() {
            return false;
        }
        let target_number = match self.headers.get(&hash) {
            Some(h) => h.number,
            None => return false,
        };
        if !self.descends(hash, self.info.finalized_hash) {
            return false;
        }
        self.info.finalized_hash = hash;
        self.info.finalized_number = target_number;
        true
    }
}

impl HeaderBackend for MemoryBackend {
    closed spec fn valid(&self) -> bool {
        self.consistent()
    }

    closed spec fn index(&self) -> Map<u64, LightHeader> {
        self.headers@
    }

    closed spec fn best_chain(&self) -> Map<u64, u64> {
        self.best@
    }

    closed spec fn chain_info(&self) -> Info {
        self.info
    }

    fn info(&self) -> (r: Info) {
        self.info
    }

    fn light_header(&self, id: BlockId) -> (r: Option<LightHeader>) {
        let hash = match id {
            BlockId::Hash(h) => h,
            BlockId::Number(n) => match self.best.get(&n) {
                Some(h) => *h,
                None => return None,
            },
        };
        match self.headers.get(&hash) {
            Some(h) => Some(*h),
            None => None,
        }
    }

    #[verifier::rlimit(40)]
    fn set_light_header(&mut self, data: LightHeader) {
        proof {
            lemma_set_ancestor(self.headers@, data);
        }
        let ghost m = self.headers@;
        self.headers.insert(data.hash, data);
        proof {
            let m2 = self.headers@;
            assert(m2.dom() =~= m.dom());
            assert forall|h: u64| #[trigger] m2.contains_key(h) implies m2[h].number == m[h].number
                && m2[h].parent == m[h].parent && (m2.contains_key(m2[h].ancestor)
                || m2[h].ancestor == m2[h].parent) by {
                assert(m.contains_key(h));
            }
            assert(self.genesis is Some ==> m2.contains_key(self.info.best_hash));
            assert(self.genesis is Some ==> m2.contains_key(self.info.finalized_hash));
        }
    }

    fn number(&self, hash: u64) -> (r: Option<u64>) {
        match self.headers.get(&hash) {
            Some(h) => Some(h.number),
            None => None,
        }
    }

    fn hash(&self, number: u64) -> (r: Option<u64>) {
        match self.best.get(&number) {
            Some(h) => Some(*h),
            None => None,
        }
    }

    fn status(&self, id: BlockId) -> (r: BlockStatus) {
        match self.light_header(id) {
            Some(_) => BlockStatus::InChain,
            None => BlockStatus::Unknown,
        }
    }
}

} // verus!

verus! {

/// A block at position `i` of a duplicate-free sequence is not among the
/// positions before it.
proof fn lemma_not_before(o: Seq<u64>, i: int)
    requires
        o.no_duplicates(),
        0 <= i < o.len(),
    ensures
        !o.take(i).contains(o[i]),
        o.take(i + 1) == o.take(i).push(o[i]),
{
    if o.take(i).contains(o[i]) {
        let j = choose|j: int| 0 <= j < o.take(i).len() && o.take(i)[j] == o[i];
        assert(o[j] == o[i]);
    }
    assert(o.take(i + 1) =~= o.take(i).push(o[i]));
}

/// What a sequence holds after an insertion.
proof fn lemma_insert_contains(s: Seq<u64>, pos: int, x: u64)
    requires
        0 <= pos <= s.len(),
    ensures
        forall|h: u64| #[trigger] s.insert(pos, x).contains(h) <==> (s.contains(h) || h == x),
        s.no_duplicates() && !s.contains(x) ==> s.insert(pos, x).no_duplicates(),
{
    s.insert_ensures(pos, x);
    let t = s.insert(pos, x);
    assert forall|h: u64| #[trigger] t.contains(h) <==> (s.contains(h) || h == x) by {
        if s.contains(h) {
            let j = choose|j: int| 0 <= j < s.len() && s[j] == h;
            if j < pos {
                assert(t[j] == h);
            } else {
                assert(t[j + 1] == h);
            }
        }
        if h == x {
            assert(t[pos] == h);
        }
        if t.contains(h) {
            let k = choose|k: int| 0 <= k < t.len() && t[k] == h;
            if k < pos {
                assert(s[k] == h);
            } else if k > pos {
                assert(s[k - 1] == h);
            }
        }
    }
    if s.no_duplicates() && !s.contains(x) {
        assert forall|a: int, b: int| 0 <= a < b < t.len() implies t[a] != t[b] by {
            if a < pos && b > pos {
                assert(t[b] == s[b - 1]);
            } else if a > pos {
                assert(t[a] == s[a - 1] && t[b] == s[b - 1]);
            } else if a == pos {
                assert(t[b] == s[b - 1]);
            } else if b == pos {
                assert(t[a] == s[a]);
            }
        }
    }
}

impl MemoryBackend {
    /// Whether some stored block names `h` as its parent.
    fn has_child(&self, h: u64) -> (r: bool)
        requires
            self.order_matches(),
        ensures
            !r <==> forall|y: u64| #[trigger] self.headers@.contains_key(y) ==> self.headers@[y].parent != h,
    {
        let ghost m = self.headers@;
        let ghost o = self.order@;
        let mut i: usize = 0;
        while i < self.order.len()
            invariant
                self.order_matches(),
                m == self.headers@,
                o == self.order@,
                i <= o.len(),
                forall|j: int| 0 <= j < i ==> m[#[trigger] o[j]].parent != h,
            decreases o.len() - i,
        {
            let y = self.order[i];
            proof {
                assert(o.contains(y));
            }
            match self.headers.get(&y) {
                Some(hdr) => {
                    if hdr.parent == h {
                        return true;
                    }
                },
                None => return true,
            }
            i = i + 1;
        }
        proof {
            assert forall|y: u64| #[trigger] m.contains_key(y) implies m[y].parent != h by {
                assert(o.contains(y));
                let j = choose|j: int| 0 <= j < o.len() && o[j] == y;
            }
        }
        false
    }
}

impl Backend for MemoryBackend {
    fn last_finalized(&self) -> (r: u64) {
        self.info.finalized_hash
    }

    fn leaves(&self) -> (r: Vec<u64>) {
        let ghost m = self.headers@;
        let ghost o = self.order@;
        let mut r: Vec<u64> = Vec::new();
        let mut nums: Vec<u64> = Vec::new();
        let mut i: usize = 0;
        while i < self.order.len()
            invariant
                self.order_matches(),
                m == self.headers@,
                o == self.order@,
                i <= o.len(),
                r.len() == nums.len(),
                forall|k: int| 0 <= k < r.len() ==> m.contains_key(#[trigger] r[k]) && nums[k] == m[r[k]].number,
                forall|a: int, b: int| 0 <= a < b < nums.len() ==> nums[a] >= nums[b],
                r@.no_duplicates(),
                forall|h: u64| #[trigger] r@.contains(h) <==> (o.take(i as int).contains(h) && is_leaf(m, h)),
            decreases o.len() - i,
        {
            let h = self.order[i];
            proof {
                assert(o.contains(h));
                lemma_not_before(o, i as int);
                lemma_push_contains(o.take(i as int), h);
            }
            let number = match self.headers.get(&h) {
                Some(hdr) => hdr.number,
                None => return r,
            };
            if !self.has_child(h) {
                let mut pos: usize = 0;
                while pos < nums.len() && nums[pos] >= number
                    invariant
                        pos <= nums.len(),
                        forall|k: int| 0 <= k < pos ==> nums[k] >= number,
                    decreases nums.len() - pos,
                {
                    pos = pos + 1;
                }
                proof {
                    r@.insert_ensures(pos as int, h);
                    nums@.insert_ensures(pos as int, number);
                    lemma_insert_contains(r@, pos as int, h);
                }
                let ghost old_nums = nums@;
                r.insert(pos, h);
                nums.insert(pos, number);
                proof {
                    assert forall|a: int, b: int| 0 <= a < b < nums.len() implies nums[a] >= nums[b] by {
                        if a < pos && b > pos {
                            assert(nums[b] == old_nums[b - 1]);
                            assert(old_nums[a] >= old_nums[b - 1]);
                        } else if a > pos {
                            assert(nums[a] == old_nums[a - 1] && nums[b] == old_nums[b - 1]);
                        } else if a == pos {
                            assert(nums[b] == old_nums[b - 1]);
                            assert(old_nums[pos as int] < number);
                            assert(old_nums[pos as int] >= old_nums[b - 1]);
                        }
                    }
                }
            }
            i = i + 1;
        }
        proof {
            assert(o.take(o.len() as int) =~= o);
        }
        r
    }

    fn children(&self, parent_hash: u64) -> (r: Vec<u64>) {
        let ghost m = self.headers@;
        let ghost o = self.order@;
        let mut r: Vec<u64> = Vec::new();
        let mut i: usize = 0;
        while i < self.order.len()
            invariant
                self.order_matches(),
                m == self.headers@,
                o == self.order@,
                i <= o.len(),
                r@.no_duplicates(),
                forall|h: u64| #[trigger] r@.contains(h) <==> (o.take(i as int).contains(h)
                    && m.contains_key(h) && m[h].parent == parent_hash),
            decreases o.len() - i,
        {
            let h = self.order[i];
            proof {
                assert(o.contains(h));
                lemma_not_before(o, i as int);
                lemma_push_contains(o.take(i as int), h);
            }
            let parent = match self.headers.get(&h) {
                Some(hdr) => hdr.parent,
                None => return r,
            };
            if parent == parent_hash {
                proof {
                    lemma_push_contains(r@, h);
                }
                r.push(h);
            }
            i = i + 1;
        }
        proof {
            assert(o.take(o.len() as int) =~= o);
        }
        r
    }
}

} // verus!
