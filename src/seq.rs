use crate::as_hash_tree::AsHashTree;
use crate::hashtree::{HashBytes, HashTree, TreeModel};
use crate::label::{be64, be64_bytes};
use crate::shape::{build_shape, models, shape};
use vstd::prelude::*;

verus! {

/// An append-only certified sequence. Item `i` is labeled in the hash tree by
/// the eight big-endian bytes of `i`, so label order is index order.
pub struct CertifiedSeq<V> {
    items: Vec<V>,
}

/// The hash-tree items of a sequence: each value under the label of its index.
pub open spec fn seq_items<V: AsHashTree>(s: Seq<V>) -> Seq<TreeModel> {
    Seq::new(s.len(), |i: int| TreeModel::Labeled(be64(i as u64), Box::new(s[i].tree())))
}

/// The hash tree of a sequence of values.
pub open spec fn seq_tree<V: AsHashTree>(s: Seq<V>) -> TreeModel {
    shape(seq_items(s), 0, s.len() as int)
}

impl<V: AsHashTree> CertifiedSeq<V> {
    /// The values, in order.
    pub closed spec fn view(&self) -> Seq<V> {
        self.items@
    }

    pub fn new() -> (r: Self)
        ensures
            r@ == Seq::<V>::empty(),
    {
        CertifiedSeq { items: Vec::new() }
    }

    pub fn len(&self) -> (r: usize)
        ensures
            r == self@.len(),
    {
        self.items.len()
    }

    pub fn is_empty(&self) -> (r: bool)
        ensures
            r == (self@.len() == 0),
    {
        self.items.len() == 0
    }

    /// Adds `value` at the end.
    pub fn append(&mut self, value: V)
        ensures
            final(self)@ == old(self)@.push(value),
    {
        self.items.push(value);
    }

    /// The value at position `i`, if any.
    pub fn get(&self, i: usize) -> (r: Option<&V>)
        ensures
            r == (if i < self@.len() {
                Some(&self@[i as int])
            } else {
                None
            }),
    {
        if i < self.items.len() {
            Some(&self.items[i])
        } else {
            None
        }
    }
}

impl<V: AsHashTree> Default for CertifiedSeq<V> {
    fn default() -> (r: Self)
        ensures
            r@ == Seq::<V>::empty(),
    {
        CertifiedSeq::new()
    }
}

impl<V: AsHashTree> AsHashTree for CertifiedSeq<V> {
    open spec fn tree(&self) -> TreeModel {
        seq_tree(self@)
    }

    fn as_hash_tree(&self) -> (r: HashTree) {
        let mut items: Vec<HashTree> = Vec::new();
        let mut i: usize = 0;
        while i < self.items.len()
            invariant
                i <= self.items@.len(),
                items@.len() == i,
                models(items@) == seq_items(self@).subrange(0, i as int),
            decreases self.items@.len() - i,
        {
            let t = HashTree::Labeled(be64_bytes(i as u64), Box::new(self.items[i].as_hash_tree()));
            assert(t@ == seq_items(self@)[i as int]);
            let ghost before = items@;
            items.push(t);
            i = i + 1;
            assert forall|k: int| 0 <= k < i implies models(items@)[k] == seq_items(self@)[k] by {
                if k < i - 1 {
                    assert(models(before)[k] == seq_items(self@)[k]);
                    assert(items@[k] == before[k]);
                }
            }
            assert(models(items@) =~= seq_items(self@).subrange(0, i as int));
        }
        assert(seq_items(self@).subrange(0, i as int) =~= seq_items(self@));
        build_shape(&items, 0, items.len())
    }

    fn root_hash(&self) -> (r: HashBytes) {
        self.as_hash_tree().reconstruct()
    }
}

} // verus!
