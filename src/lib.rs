//! A disjoint-set forest over dense integer ids, with path-halving lookups
//! and a `split` operation that breaks a class apart and retires its leader.

pub mod forest;
pub mod id;
pub mod unionfind;

pub use id::Id;
pub use unionfind::{StaleReference, UnionFind};
