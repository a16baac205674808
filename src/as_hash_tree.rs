use crate::hashtree::{tree_hash, HashBytes, HashTree, TreeModel};
use vstd::prelude::*;

verus! {

/// A certified value: it can show itself as a hash tree, and its root hash is
/// the hash that tree reconstructs to.
pub trait AsHashTree {
    spec fn tree(&self) -> TreeModel;

    fn as_hash_tree(&self) -> (r: HashTree)
        ensures
            r@ == self.tree(),
    ;

    fn root_hash(&self) -> (r: HashBytes)
        ensures
            r@ == tree_hash(self.tree()),
    ;
}

impl AsHashTree for u8 {
    open spec fn tree(&self) -> TreeModel {
        TreeModel::Leaf(seq![*self])
    }

    fn as_hash_tree(&self) -> (r: HashTree) {
        let mut v: Vec<u8> = Vec::new();
        v.push(*self);
        assert(v@ =~= seq![*self]);
        HashTree::Leaf(v)
    }

    fn root_hash(&self) -> (r: HashBytes) {
        self.as_hash_tree().reconstruct()
    }
}

impl AsHashTree for i8 {
    open spec fn tree(&self) -> TreeModel {
        TreeModel::Leaf(seq![*self as u8])
    }

    fn as_hash_tree(&self) -> (r: HashTree) {
        let mut v: Vec<u8> = Vec::new();
        v.push(*self as u8);
        assert(v@ =~= seq![*self as u8]);
        HashTree::Leaf(v)
    }

    fn root_hash(&self) -> (r: HashBytes) {
        self.as_hash_tree().reconstruct()
    }
}

impl AsHashTree for u32 {
    open spec fn tree(&self) -> TreeModel {
        TreeModel::Leaf(crate::label::be32(*self))
    }

    fn as_hash_tree(&self) -> (r: HashTree) {
        HashTree::Leaf(crate::label::be32_bytes(*self))
    }

    fn root_hash(&self) -> (r: HashBytes) {
        self.as_hash_tree().reconstruct()
    }
}

impl AsHashTree for i32 {
    open spec fn tree(&self) -> TreeModel {
        TreeModel::Leaf(crate::label::be32(*self as u32))
    }

    fn as_hash_tree(&self) -> (r: HashTree) {
        HashTree::Leaf(crate::label::be32_bytes(*self as u32))
    }

    fn root_hash(&self) -> (r: HashBytes) {
        self.as_hash_tree().reconstruct()
    }
}

impl AsHashTree for u64 {
    open spec fn tree(&self) -> TreeModel {
        TreeModel::Leaf(crate::label::be64(*self))
    }

    fn as_hash_tree(&self) -> (r: HashTree) {
        HashTree::Leaf(crate::label::be64_bytes(*self))
    }

    fn root_hash(&self) -> (r: HashBytes) {
        self.as_hash_tree().reconstruct()
    }
}

impl AsHashTree for Vec<u8> {
    open spec fn tree(&self) -> TreeModel {
        TreeModel::Leaf(self@)
    }

    fn as_hash_tree(&self) -> (r: HashTree) {
        HashTree::Leaf(crate::hashtree::copy_bytes(self))
    }

    fn root_hash(&self) -> (r: HashBytes) {
        self.as_hash_tree().reconstruct()
    }
}

impl AsHashTree for String {
    open spec fn tree(&self) -> TreeModel {
        TreeModel::Leaf(vstd::utf8::encode_utf8(self@))
    }

    fn as_hash_tree(&self) -> (r: HashTree) {
        HashTree::Leaf(crate::label::Label::as_label(self))
    }

    fn root_hash(&self) -> (r: HashBytes) {
        self.as_hash_tree().reconstruct()
    }
}

} // verus!
