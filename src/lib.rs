//! Chain navigation for a block tree: an index of light block headers, the
//! lowest common ancestor of two blocks, and the tree route between them.

pub mod types;
pub mod lineage;
pub mod backend;
pub mod route;
pub mod lca;
pub mod memory;
pub mod offchain;
pub mod extrinsic;
