use substrate_client::backend::{Backend, HeaderBackend};
use substrate_client::lca::lca;
use substrate_client::memory::MemoryBackend;
use substrate_client::route::tree_route;
use substrate_client::types::{BlockId, BlockStatus, Error, Info, LightHeader, RouteEntry};

const G: u64 = 100;
const C1: u64 = 101;
const C2: u64 = 102;
const D1: u64 = 201;

/// G(0) -> C1(1) -> C2(2) on the best chain, and a fork C1 -> D1(2).
fn fork_chain() -> MemoryBackend {
    let mut b = MemoryBackend::new();
    assert!(b.import(G, 0, 0, true));
    assert!(b.import(C1, 1, G, true));
    assert!(b.import(C2, 2, C1, true));
    assert!(b.import(D1, 2, C1, false));
    b
}

fn entry(number: u64, hash: u64) -> RouteEntry {
    RouteEntry { number, hash }
}

/// A long chain 1..=n over genesis 1000 with a fork branching at `fork_at`.
fn long_chain(n: u64, fork_at: u64, fork_len: u64) -> MemoryBackend {
    let mut b = MemoryBackend::new();
    assert!(b.import(1000, 0, 0, true));
    for i in 1..=n {
        assert!(b.import(1000 + i, i, 1000 + i - 1, true));
    }
    let mut parent = 1000 + fork_at;
    for j in 1..=fork_len {
        let h = 5000 + j;
        assert!(b.import(h, fork_at + j, parent, false));
        parent = h;
    }
    b
}

#[test]
fn route_to_self_is_single_block() {
    let b = fork_chain();
    for h in [G, C1, C2, D1] {
        let r = tree_route(&b, BlockId::Hash(h), BlockId::Hash(h)).unwrap();
        assert!(r.retracted().is_empty());
        assert!(r.enacted().is_empty());
        assert_eq!(r.common_block().hash, h);
    }
}

#[test]
fn route_across_fork() {
    let mut b = fork_chain();
    let r = tree_route(&b, BlockId::Hash(C2), BlockId::Hash(D1)).unwrap();
    assert_eq!(r.retracted(), &[entry(2, C2)][..]);
    assert_eq!(*r.common_block(), entry(1, C1));
    assert_eq!(r.enacted(), &[entry(2, D1)][..]);
    assert_eq!(lca(&mut b, BlockId::Hash(C2), BlockId::Hash(D1)), Ok(C1));
}

#[test]
fn route_back_reverses_route_forth() {
    let b = long_chain(6, 2, 3);
    let forth = tree_route(&b, BlockId::Hash(1006), BlockId::Hash(5003)).unwrap();
    let back = tree_route(&b, BlockId::Hash(5003), BlockId::Hash(1006)).unwrap();
    assert_eq!(
        forth.retracted(),
        &[entry(6, 1006), entry(5, 1005), entry(4, 1004), entry(3, 1003)][..]
    );
    assert_eq!(*forth.common_block(), entry(2, 1002));
    assert_eq!(forth.enacted(), &[entry(3, 5001), entry(4, 5002), entry(5, 5003)][..]);
    let mut rev: Vec<RouteEntry> = back.enacted().to_vec();
    rev.reverse();
    assert_eq!(forth.retracted(), &rev[..]);
    let mut rev2: Vec<RouteEntry> = back.retracted().to_vec();
    rev2.reverse();
    assert_eq!(forth.enacted(), &rev2[..]);
    assert_eq!(forth.common_block(), back.common_block());
}

#[test]
fn route_to_descendant_retracts_nothing() {
    let b = long_chain(4, 0, 0);
    let r = tree_route(&b, BlockId::Hash(1001), BlockId::Number(3)).unwrap();
    assert!(r.retracted().is_empty());
    assert_eq!(*r.common_block(), entry(1, 1001));
    assert_eq!(r.enacted(), &[entry(2, 1002), entry(3, 1003)][..]);
}

#[test]
fn lca_is_symmetric() {
    let mut b = long_chain(8, 3, 4);
    let pairs = [(1008, 5004), (1002, 5001), (5002, 1007), (1000, 5004), (1005, 1005)];
    for (x, y) in pairs {
        let l = lca(&mut b, BlockId::Hash(x), BlockId::Hash(y));
        let r = lca(&mut b, BlockId::Hash(y), BlockId::Hash(x));
        assert_eq!(l, r);
    }
    assert_eq!(lca(&mut b, BlockId::Hash(1008), BlockId::Hash(5004)), Ok(1003));
}

#[test]
fn lca_on_straight_line() {
    let mut b = fork_chain();
    // G -> C1 -> C2 is a straight line.
    assert_eq!(lca(&mut b, BlockId::Hash(G), BlockId::Hash(C2)), Ok(G));
    assert_eq!(lca(&mut b, BlockId::Hash(C1), BlockId::Hash(C2)), Ok(C1));
    assert_eq!(lca(&mut b, BlockId::Hash(C2), BlockId::Hash(C1)), Ok(C1));
}

#[test]
fn lca_repeated_calls_agree() {
    let mut b = long_chain(30, 10, 12);
    let first = lca(&mut b, BlockId::Hash(1030), BlockId::Hash(5012));
    assert_eq!(first, Ok(1010));
    for _ in 0..5 {
        assert_eq!(lca(&mut b, BlockId::Hash(1030), BlockId::Hash(5012)), first);
        assert_eq!(lca(&mut b, BlockId::Hash(5012), BlockId::Hash(1030)), first);
        assert_eq!(lca(&mut b, BlockId::Hash(1030), BlockId::Hash(1030)), Ok(1030));
        assert_eq!(lca(&mut b, BlockId::Hash(1025), BlockId::Hash(1030)), Ok(1025));
    }
    // The jump pointer of the higher block now targets the ancestor found.
    let h = b.light_header(BlockId::Hash(1030)).unwrap();
    assert_eq!(h.parent, 1029);
    assert_eq!(h.ancestor, 1025);
    assert_eq!(lca(&mut b, BlockId::Hash(1030), BlockId::Hash(1015)), Ok(1015));
    assert_eq!(lca(&mut b, BlockId::Hash(1030), BlockId::Hash(5003)), Ok(1010));
}

#[test]
fn unknown_blocks_fail() {
    let mut b = fork_chain();
    let missing = BlockId::Hash(999);
    assert_eq!(lca(&mut b, missing, BlockId::Hash(C1)), Err(Error::UnknownBlock(missing)));
    assert_eq!(lca(&mut b, BlockId::Hash(C1), missing), Err(Error::UnknownBlock(missing)));
    assert_eq!(
        tree_route(&b, missing, BlockId::Hash(C1)).unwrap_err(),
        Error::UnknownBlock(missing)
    );
    assert_eq!(
        tree_route(&b, BlockId::Hash(C1), missing).unwrap_err(),
        Error::UnknownBlock(missing)
    );
    assert_eq!(
        tree_route(&b, BlockId::Number(7), BlockId::Hash(C1)).unwrap_err(),
        Error::UnknownBlock(BlockId::Number(7))
    );
    assert_eq!(b.status(missing), BlockStatus::Unknown);
    assert_eq!(b.status(BlockId::Hash(D1)), BlockStatus::InChain);
}

#[test]
fn backend_lookups() {
    let b = fork_chain();
    assert_eq!(b.hash(2), Some(C2));
    assert_eq!(b.hash(3), None);
    assert_eq!(b.number(D1), Some(2));
    assert_eq!(b.number(7), None);
    assert_eq!(b.parent(BlockId::Hash(D1)), Some(BlockId::Hash(C1)));
    assert_eq!(b.parent(BlockId::Hash(7)), None);
    assert_eq!(b.block_hash_from_id(&BlockId::Number(1)), Some(C1));
    assert_eq!(b.block_hash_from_id(&BlockId::Hash(7)), Some(7));
    assert_eq!(b.block_number_from_id(&BlockId::Hash(C2)), Some(2));
    assert_eq!(b.block_number_from_id(&BlockId::Number(9)), Some(9));
    assert_eq!(b.expect_block_hash_from_id(&BlockId::Number(0)), Ok(G));
    assert_eq!(
        b.expect_block_hash_from_id(&BlockId::Number(5)),
        Err(Error::UnknownBlock(BlockId::Number(5)))
    );
    assert_eq!(b.expect_block_number_from_id(&BlockId::Hash(D1)), Ok(2));
    assert_eq!(
        b.expect_block_number_from_id(&BlockId::Hash(8)),
        Err(Error::UnknownBlock(BlockId::Hash(8)))
    );
    assert_eq!(
        b.expect_header(BlockId::Number(1)),
        Ok(LightHeader { hash: C1, number: 1, parent: G, ancestor: G })
    );
    assert_eq!(b.expect_header(BlockId::Hash(8)), Err(Error::UnknownBlock(BlockId::Hash(8))));
}

#[test]
fn import_rules() {
    let mut b = MemoryBackend::new();
    assert!(!b.import(G, 1, 0, true));
    assert!(!b.import(G, 0, G, true));
    assert!(b.import(G, 0, 0, true));
    assert!(!b.import(G, 0, 0, true));
    assert!(!b.import(0, 1, G, true));
    assert!(!b.import(C1, 2, G, true));
    assert!(!b.import(C1, 1, 55, true));
    assert!(b.import(C1, 1, G, false));
    assert_eq!(b.hash(1), None);
    assert_eq!(b.number(C1), Some(1));
    assert!(b.import(C2, 2, C1, true));
    assert_eq!(b.hash(2), Some(C2));
}

#[test]
fn set_light_header_moves_jump_pointer() {
    let mut b = long_chain(5, 0, 0);
    b.set_light_header(LightHeader { hash: 1005, number: 5, parent: 1004, ancestor: 1001 });
    let h = b.light_header(BlockId::Number(5)).unwrap();
    assert_eq!(h.ancestor, 1001);
    assert_eq!(h.parent, 1004);
    assert_eq!(lca(&mut b, BlockId::Number(5), BlockId::Number(3)), Ok(1003));
}

#[test]
fn chain_info_tracks_best_and_finalized() {
    let mut b = MemoryBackend::new();
    assert_eq!(
        b.info(),
        Info { best_hash: 0, best_number: 0, genesis_hash: 0, finalized_hash: 0, finalized_number: 0 }
    );
    assert!(!b.finalize(G));
    let mut b = fork_chain();
    assert_eq!(
        b.info(),
        Info { best_hash: C2, best_number: 2, genesis_hash: G, finalized_hash: G, finalized_number: 0 }
    );
    assert!(b.finalize(C1));
    assert_eq!(b.info().finalized_hash, C1);
    assert_eq!(b.info().finalized_number, 1);
    // Finality never moves back or sideways.
    assert!(!b.finalize(G));
    assert!(!b.finalize(999));
    assert!(b.finalize(D1));
    assert!(!b.finalize(C2));
    assert_eq!(b.info().finalized_hash, D1);
    assert_eq!(b.info().best_hash, C2);
    assert!(b.import(301, 3, D1, false));
    assert_eq!(b.info().best_hash, C2);
    assert!(b.import(302, 3, C2, true));
    assert_eq!(b.info().best_hash, 302);
    assert_eq!(b.info().best_number, 3);
    assert!(!b.finalize(302));
    assert!(b.finalize(301));
}

#[test]
fn empty_backend_knows_no_block() {
    let mut b = MemoryBackend::new();
    assert_eq!(
        lca(&mut b, BlockId::Number(0), BlockId::Number(0)),
        Err(Error::UnknownBlock(BlockId::Number(0)))
    );
    assert_eq!(
        tree_route(&b, BlockId::Hash(1), BlockId::Hash(1)).unwrap_err(),
        Error::UnknownBlock(BlockId::Hash(1))
    );
    assert_eq!(b.status(BlockId::Number(0)), BlockStatus::Unknown);
}

#[test]
fn genesis_is_its_own_common_ancestor() {
    let mut b = fork_chain();
    for _ in 0..3 {
        assert_eq!(lca(&mut b, BlockId::Hash(G), BlockId::Hash(G)), Ok(G));
        assert_eq!(lca(&mut b, BlockId::Number(0), BlockId::Hash(D1)), Ok(G));
    }
    let r = tree_route(&b, BlockId::Hash(D1), BlockId::Number(0)).unwrap();
    assert_eq!(r.retracted(), &[entry(2, D1), entry(1, C1)][..]);
    assert_eq!(*r.common_block(), entry(0, G));
    assert!(r.enacted().is_empty());
}

#[test]
fn tree_shape_queries() {
    let mut b = fork_chain();
    assert_eq!(b.children(C1), vec![C2, D1]);
    assert_eq!(b.children(G), vec![C1]);
    assert!(b.children(C2).is_empty());
    assert!(b.children(999).is_empty());
    assert_eq!(b.leaves(), vec![C2, D1]);
    assert!(b.import(301, 3, D1, false));
    assert_eq!(b.leaves(), vec![301, C2]);
    assert!(b.import(401, 2, C1, false));
    assert_eq!(b.leaves(), vec![301, C2, 401]);
    assert_eq!(b.last_finalized(), G);
    assert!(b.finalize(D1));
    assert_eq!(b.last_finalized(), D1);
    let empty = MemoryBackend::new();
    assert!(empty.leaves().is_empty());
}
