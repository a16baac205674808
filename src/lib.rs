//! Certified collections: ordered key/value containers whose whole content
//! is summarised by one root hash, with witnesses (pruned hash trees) that
//! show part of the data to a verifier who holds only that hash.
//!
//! - `hashtree`: the hash-tree algebra, its hashing and pruning.
//! - `tree`: the sorted, label-keyed store and the balanced hash tree over it.
//! - `map`, `seq`, `paged`: the collections built on it.
//! - `group`, `builder`: several certified leaves under one root hash, and
//!   witnesses that reveal some of them.

pub mod as_hash_tree;
pub mod builder;
pub mod group;
pub mod hashtree;
pub mod label;
pub mod map;
pub mod paged;
pub mod seq;
pub mod shape;
pub mod tree;

pub use as_hash_tree::AsHashTree;
pub use builder::GroupBuilder;
pub use group::{Group, GroupLeaf, GroupNode, GroupNodeInner, Ray};
pub use hashtree::{HashBytes, HashTree};
pub use label::{Label, Prefix};
pub use map::CertifiedMap;
pub use paged::{Paged, PagedKey};
pub use seq::CertifiedSeq;
