use crate::as_hash_tree::AsHashTree;
use crate::hashtree::{prunes, shows, HashTree, TreeModel};
use crate::label::{
    compare_bytes, lemma_lex_asym, lemma_lex_irrefl, lemma_lex_total, lemma_lex_trans, lex_lt,
    Label, Prefix,
};
use crate::shape::{build_shape, models, range_witness, shape, witness_range};
use vstd::prelude::*;

verus! {

/// One entry of a [`BalancedTree`]: a key, its label and its value.
pub struct Node<K, V> {
    pub label: Vec<u8>,
    pub key: K,
    pub value: V,
}

/// An authenticated sorted key/value store. Entries are kept in ascending
/// order of their labels, and the hash tree over them is the balanced
/// [`shape`] of that sequence, so it depends on the contents alone and not on
/// the order in which they were inserted.
pub struct BalancedTree<K, V> {
    nodes: Vec<Node<K, V>>,
    contents: Ghost<Map<Seq<u8>, V>>,
}

/// Labels strictly ascending.
pub open spec fn sorted_labels(s: Seq<Seq<u8>>) -> bool {
    forall|i: int, j: int| 0 <= i < j < s.len() ==> lex_lt(#[trigger] s[i], #[trigger] s[j])
}

/// Two strictly ascending label sequences with the same elements are equal.
pub proof fn lemma_sorted_unique(a: Seq<Seq<u8>>, b: Seq<Seq<u8>>)
    requires
        sorted_labels(a),
        sorted_labels(b),
        forall|x: Seq<u8>| a.contains(x) <==> b.contains(x),
    ensures
        a == b,
    decreases a.len(),
{
    if a.len() == 0 {
        if b.len() > 0 {
            assert(b.contains(b[0]));
        }
        assert(a =~= b);
    } else {
        assert(a.contains(a[0]));
        let j = choose|j: int| 0 <= j < b.len() && b[j] == a[0];
        assert(b.contains(b[0]));
        let k = choose|k: int| 0 <= k < a.len() && a[k] == b[0];
        if j > 0 {
            assert(lex_lt(b[0], b[j]));
            if k > 0 {
                assert(lex_lt(a[0], a[k]));
                lemma_lex_asym(a[0], b[0]);
            } else {
                lemma_lex_irrefl(a[0]);
            }
        }
        assert(b[0] == a[0]);
        let a1 = a.drop_first();
        let b1 = b.drop_first();
        assert forall|x: Seq<u8>| a1.contains(x) <==> b1.contains(x) by {
            if a1.contains(x) {
                let i = choose|i: int| 0 <= i < a1.len() && a1[i] == x;
                assert(a[i + 1] == x);
                assert(lex_lt(a[0], x));
                lemma_lex_irrefl(x);
                assert(b.contains(x));
                let i2 = choose|i2: int| 0 <= i2 < b.len() && b[i2] == x;
                assert(i2 != 0);
                assert(b1[i2 - 1] == x);
            }
            if b1.contains(x) {
                let i = choose|i: int| 0 <= i < b1.len() && b1[i] == x;
                assert(b[i + 1] == x);
                assert(lex_lt(b[0], x));
                lemma_lex_irrefl(x);
                assert(a.contains(x));
                let i2 = choose|i2: int| 0 <= i2 < a.len() && a[i2] == x;
                assert(i2 != 0);
                assert(a1[i2 - 1] == x);
            }
        }
        lemma_sorted_unique(a1, b1);
        assert(a =~= seq![a[0]] + a1);
        assert(b =~= seq![b[0]] + b1);
    }
}

impl<K: Label, V: AsHashTree> BalancedTree<K, V> {
    /// The labels of the entries, in order.
    pub closed spec fn labels(&self) -> Seq<Seq<u8>> {
        self.nodes@.map_values(|n: Node<K, V>| n.label@)
    }

    /// The entries, in ascending order of their labels.
    pub closed spec fn entries(&self) -> Seq<Node<K, V>> {
        self.nodes@
    }

    /// What the tree holds: each label mapped to its value.
    pub closed spec fn view(&self) -> Map<Seq<u8>, V> {
        self.contents@
    }

    pub closed spec fn wf(&self) -> bool {
        &&& sorted_labels(self.labels())
        &&& forall|i: int|
            0 <= i < self.nodes@.len() ==> (#[trigger] self.nodes@[i]).label@
                == self.nodes@[i].key.label()
        &&& forall|i: int|
            0 <= i < self.nodes@.len() ==> self.contents@.contains_key(#[trigger] self.labels()[i])
                && self.contents@[self.labels()[i]] == self.nodes@[i].value
        &&& forall|l: Seq<u8>| #[trigger]
            self.contents@.contains_key(l) ==> self.labels().contains(l)
    }

    /// The hash tree over the entries.
    pub closed spec fn spec_tree(&self) -> TreeModel {
        shape(self.items(), 0, self.nodes@.len() as int)
    }

    /// The item that each entry contributes: its label over its value's tree.
    pub closed spec fn items(&self) -> Seq<TreeModel> {
        self.nodes@.map_values(
            |n: Node<K, V>| TreeModel::Labeled(n.label@, Box::new(n.value.tree())),
        )
    }

    proof fn lemma_distinct(&self)
        requires
            self.wf(),
        ensures
            forall|i: int, j: int|
                0 <= i < self.nodes@.len() && 0 <= j < self.nodes@.len() && i != j ==> self.labels()[i]
                    != self.labels()[j],
    {
        assert forall|i: int, j: int|
            0 <= i < self.nodes@.len() && 0 <= j < self.nodes@.len() && i != j implies self.labels()[i]
                != self.labels()[j] by {
            lemma_lex_irrefl(self.labels()[i]);
            if i < j {
                assert(lex_lt(self.labels()[i], self.labels()[j]));
            } else {
                assert(lex_lt(self.labels()[j], self.labels()[i]));
            }
        }
    }

    /// An empty tree.
    pub fn new() -> (r: Self)
        ensures
            r.wf(),
            r@ == Map::<Seq<u8>, V>::empty(),
    {
        let r = BalancedTree { nodes: Vec::new(), contents: Ghost(Map::empty()) };
        assert(r.labels() =~= Seq::<Seq<u8>>::empty());
        r
    }

    pub fn len(&self) -> (r: usize)
        requires
            self.wf(),
        ensures
            r == self@.len(),
            r == self.entries().len(),
    {
        proof {
            self.lemma_distinct();
            assert(self.contents@.dom() =~= self.labels().to_set());
            self.labels().unique_seq_to_set();
        }
        self.nodes.len()
    }

    pub fn is_empty(&self) -> (r: bool)
        requires
            self.wf(),
        ensures
            r == (self@.len() == 0),
    {
        self.len() == 0
    }

    /// The position of `l` among the labels: the number of labels below it,
    /// and whether it is one of them.
    fn find(&self, l: &Vec<u8>) -> (r: (bool, usize))
        requires
            self.wf(),
        ensures
            r.1 <= self.nodes@.len(),
            forall|j: int| 0 <= j < r.1 ==> lex_lt(#[trigger] self.labels()[j], l@),
            forall|j: int| r.1 <= j < self.nodes@.len() ==> !lex_lt(#[trigger] self.labels()[j], l@),
            r.0 ==> r.1 < self.nodes@.len() && self.labels()[r.1 as int] == l@,
            r.0 <==> self@.contains_key(l@),
            !r.0 ==> forall|j: int|
                r.1 <= j < self.nodes@.len() ==> lex_lt(l@, #[trigger] self.labels()[j]),
    {
        let n = self.nodes.len();
        let mut lo: usize = 0;
        let mut hi: usize = n;
        while lo < hi
            invariant
                self.wf(),
                n == self.nodes@.len(),
                lo <= hi <= n,
                forall|j: int| 0 <= j < lo ==> lex_lt(#[trigger] self.labels()[j], l@),
                forall|j: int| hi <= j < n ==> !lex_lt(#[trigger] self.labels()[j], l@),
            decreases hi - lo,
        {
            let mid = lo + (hi - lo) / 2;
            let c = compare_bytes(self.nodes[mid].label.as_slice(), l.as_slice());
            assert(self.labels()[mid as int] == self.nodes@[mid as int].label@);
            if c < 0 {
                assert forall|j: int| 0 <= j < mid + 1 implies lex_lt(
                    #[trigger] self.labels()[j],
                    l@,
                ) by {
                    if j < mid {
                        lemma_lex_trans(self.labels()[j], self.labels()[mid as int], l@);
                    }
                }
                lo = mid + 1;
            } else {
                assert forall|j: int| mid <= j < n implies !lex_lt(
                    #[trigger] self.labels()[j],
                    l@,
                ) by {
                    if j > mid && lex_lt(self.labels()[j], l@) {
                        lemma_lex_trans(self.labels()[mid as int], self.labels()[j], l@);
                    }
                }
                hi = mid;
            }
        }
        let found = lo < n && compare_bytes(self.nodes[lo].label.as_slice(), l.as_slice()) == 0;
        proof {
            if lo < n {
                assert(self.labels()[lo as int] == self.nodes@[lo as int].label@);
            }
            if !found {
                assert forall|j: int| lo <= j < n implies lex_lt(l@, #[trigger] self.labels()[j]) by {
                    lemma_lex_total(self.labels()[lo as int], l@);
                    if j > lo {
                        lemma_lex_trans(l@, self.labels()[lo as int], self.labels()[j]);
                    }
                }
                if self@.contains_key(l@) {
                    let k = choose|k: int| 0 <= k < n && self.labels()[k] == l@;
                    lemma_lex_irrefl(l@);
                    assert(lex_lt(self.labels()[k], l@) || lex_lt(l@, self.labels()[k]));
                }
            }
        }
        (found, lo)
    }

    /// The value under `key`'s label, if any.
    pub fn get(&self, key: &K) -> (r: Option<&V>)
        requires
            self.wf(),
        ensures
            r == (if self@.contains_key(key.label()) {
                Some(&self@[key.label()])
            } else {
                None
            }),
    {
        let l = key.as_label();
        self.get_label(&l)
    }

    /// The value under the label `l`, if any.
    pub fn get_label(&self, l: &Vec<u8>) -> (r: Option<&V>)
        requires
            self.wf(),
        ensures
            r == (if self@.contains_key(l@) {
                Some(&self@[l@])
            } else {
                None
            }),
    {
        let (found, i) = self.find(l);
        if found {
            Some(&self.nodes[i].value)
        } else {
            None
        }
    }

    /// Inserts `value` under `key`, returning the value it replaces.
    pub fn insert(&mut self, key: K, value: V) -> (r: Option<V>)
        requires
            old(self).wf(),
        ensures
            final(self).wf(),
            final(self)@ == old(self)@.insert(key.label(), value),
            r == (if old(self)@.contains_key(key.label()) {
                Some(old(self)@[key.label()])
            } else {
                None
            }),
    {
        let l = key.as_label();
        let (found, i) = self.find(&l);
        let ghost old_labels = self.labels();
        let ghost lv = l@;
        proof {
            self.lemma_distinct();
        }
        if found {
            let old_node = self.nodes.remove(i);
            self.nodes.insert(i, Node { label: l, key, value });
            self.contents = Ghost(self.contents@.insert(lv, value));
            assert(self.labels() =~= old_labels);
            Some(old_node.value)
        } else {
            self.nodes.insert(i, Node { label: l, key, value });
            self.contents = Ghost(self.contents@.insert(lv, value));
            assert(self.labels() =~= old_labels.insert(i as int, lv));
            assert forall|a: int, b: int|
                0 <= a < b < self.labels().len() implies lex_lt(
                #[trigger] self.labels()[a],
                #[trigger] self.labels()[b],
            ) by {
                if a < i && b > i {
                    lemma_lex_trans(old_labels[a], lv, old_labels[b - 1]);
                }
            }
            assert forall|l2: Seq<u8>| #[trigger]
                self.contents@.contains_key(l2) implies self.labels().contains(l2) by {
                if l2 == lv {
                    assert(self.labels()[i as int] == lv);
                } else {
                    let k = choose|k: int| 0 <= k < old_labels.len() && old_labels[k] == l2;
                    if k < i {
                        assert(self.labels()[k] == l2);
                    } else {
                        assert(self.labels()[k + 1] == l2);
                    }
                }
            }
            assert forall|j: int| 0 <= j < self.nodes@.len() implies self.contents@.contains_key(
                #[trigger] self.labels()[j],
            ) && self.contents@[self.labels()[j]] == self.nodes@[j].value by {
                if j < i {
                    lemma_lex_irrefl(lv);
                } else if j > i {
                    lemma_lex_irrefl(lv);
                }
            }
            None
        }
    }

    /// Removes the entry under `key`'s label and returns its key and value.
    pub fn delete(&mut self, key: &K) -> (r: Option<(K, V)>)
        requires
            old(self).wf(),
        ensures
            final(self).wf(),
            final(self)@ == old(self)@.remove(key.label()),
            match r {
                Some(kv) => old(self)@.contains_key(key.label()) && kv.1 == old(self)@[key.label()]
                    && kv.0.label() == key.label(),
                None => !old(self)@.contains_key(key.label()),
            },
    {
        let l = key.as_label();
        let (found, i) = self.find(&l);
        if !found {
            assert(self@.remove(l@) =~= self@);
            return None;
        }
        let ghost old_labels = self.labels();
        let ghost old_nodes = self.nodes@;
        let ghost lv = l@;
        proof {
            self.lemma_distinct();
        }
        let node = self.nodes.remove(i);
        self.contents = Ghost(self.contents@.remove(lv));
        assert(self.labels() =~= old_labels.remove(i as int));
        assert forall|a: int, b: int|
            0 <= a < b < self.labels().len() implies lex_lt(
            #[trigger] self.labels()[a],
            #[trigger] self.labels()[b],
        ) by {
            if a < i && b >= i {
                assert(lex_lt(old_labels[a], old_labels[b + 1]));
            } else if a >= i {
                assert(lex_lt(old_labels[a + 1], old_labels[b + 1]));
            } else {
                assert(lex_lt(old_labels[a], old_labels[b]));
            }
        }
        assert forall|l2: Seq<u8>| #[trigger]
            self.contents@.contains_key(l2) implies self.labels().contains(l2) by {
            let k = choose|k: int| 0 <= k < old_labels.len() && old_labels[k] == l2;
            if k < i {
                assert(self.labels()[k] == l2);
            } else {
                assert(self.labels()[k - 1] == l2);
            }
        }
        assert forall|j: int| 0 <= j < self.nodes@.len() implies self.contents@.contains_key(
            #[trigger] self.labels()[j],
        ) && self.contents@[self.labels()[j]] == self.nodes@[j].value by {
            if j < i {
                assert(self.labels()[j] == old_labels[j]);
                assert(self.nodes@[j] == old_nodes[j]);
            } else {
                assert(self.labels()[j] == old_labels[j + 1]);
                assert(self.nodes@[j] == old_nodes[j + 1]);
            }
        }
        Some((node.key, node.value))
    }

    /// The position of the entry under `key`'s label, if there is one.
    pub fn index_of(&self, key: &K) -> (r: Option<usize>)
        requires
            self.wf(),
        ensures
            match r {
                Some(i) => i < self.entries().len() && self@.contains_key(key.label())
                    && self.entries()[i as int].key.label() == key.label()
                    && self.entries()[i as int].label@ == key.label()
                    && self@[key.label()] == self.entries()[i as int].value,
                None => !self@.contains_key(key.label()),
            },
    {
        let l = key.as_label();
        let (found, i) = self.find(&l);
        if found {
            assert(self.labels()[i as int] == self.nodes@[i as int].label@);
            Some(i)
        } else {
            None
        }
    }

    /// Each entry stands in the view under its key's label.
    pub proof fn lemma_entry(&self, i: int)
        requires
            self.wf(),
            0 <= i < self.entries().len(),
        ensures
            self.entries()[i].label@ == self.entries()[i].key.label(),
            self@.contains_key(self.entries()[i].key.label()),
            self@[self.entries()[i].key.label()] == self.entries()[i].value,
    {
        assert(self.labels()[i] == self.nodes@[i].label@);
    }

    /// The contents are finite: they are the labels of the entries.
    pub proof fn lemma_finite(&self)
        requires
            self.wf(),
        ensures
            self@.dom().finite(),
            self@.dom() == self.labels().to_set(),
    {
        assert(self.contents@.dom() =~= self.labels().to_set());
    }

    /// Each label in the view is the label of an entry, at a position.
    pub proof fn lemma_covers(&self)
        requires
            self.wf(),
        ensures
            forall|l: Seq<u8>| #[trigger]
                self@.contains_key(l) ==> exists|i: int|
                    0 <= i < self.entries().len() && #[trigger] self.entries()[i].key.label() == l,
    {
        assert forall|l: Seq<u8>| #[trigger] self@.contains_key(l) implies exists|i: int|
            0 <= i < self.entries().len() && #[trigger] self.entries()[i].key.label() == l by {
            let i = self.lemma_label_has_entry(l);
        }
    }

    /// The entries' keys ascend in label order.
    pub proof fn lemma_sorted(&self)
        requires
            self.wf(),
        ensures
            forall|i: int, j: int|
                0 <= i < j < self.entries().len() ==> lex_lt(
                    (#[trigger] self.entries()[i]).key.label(),
                    (#[trigger] self.entries()[j]).key.label(),
                ),
    {
        assert forall|i: int, j: int| 0 <= i < j < self.entries().len() implies lex_lt(
            (#[trigger] self.entries()[i]).key.label(),
            (#[trigger] self.entries()[j]).key.label(),
        ) by {
            assert(self.labels()[i] == self.nodes@[i].label@);
            assert(self.labels()[j] == self.nodes@[j].label@);
        }
    }

    /// Each label in the view is the label of some entry's key.
    pub proof fn lemma_label_has_entry(&self, l: Seq<u8>) -> (i: int)
        requires
            self.wf(),
            self@.contains_key(l),
        ensures
            0 <= i < self.entries().len(),
            self.entries()[i].key.label() == l,
    {
        let i = choose|i: int| 0 <= i < self.labels().len() && self.labels()[i] == l;
        assert(self.labels()[i] == self.nodes@[i].label@);
        i
    }

    /// The key of the entry at position `i`.
    pub fn key_at(&self, i: usize) -> (r: &K)
        requires
            self.wf(),
            i < self.entries().len(),
        ensures
            *r == self.entries()[i as int].key,
    {
        &self.nodes[i].key
    }

    /// The value of the entry at position `i`.
    pub fn value_at(&self, i: usize) -> (r: &V)
        requires
            self.wf(),
            i < self.entries().len(),
        ensures
            *r == self.entries()[i as int].value,
            self@.contains_key(self.entries()[i as int].key.label()),
            *r == self@[self.entries()[i as int].key.label()],
    {
        proof {
            assert(self.labels()[i as int] == self.nodes@[i as int].label@);
        }
        &self.nodes[i].value
    }

    /// Replaces the value of the entry at position `i`, returning the old one.
    pub fn replace_at(&mut self, i: usize, value: V) -> (r: V)
        requires
            old(self).wf(),
            i < old(self).entries().len(),
        ensures
            final(self).wf(),
            r == old(self).entries()[i as int].value,
            final(self)@ == old(self)@.insert(old(self).entries()[i as int].key.label(), value),
            final(self).entries() == old(self).entries().update(
                i as int,
                Node {
                    label: old(self).entries()[i as int].label,
                    key: old(self).entries()[i as int].key,
                    value,
                },
            ),
    {
        let ghost old_labels = self.labels();
        let ghost lv = self.labels()[i as int];
        proof {
            self.lemma_distinct();
        }
        let node = self.nodes.remove(i);
        let Node { label, key, value: old_value } = node;
        self.nodes.insert(i, Node { label, key, value });
        self.contents = Ghost(self.contents@.insert(lv, value));
        assert(self.labels() =~= old_labels);
        old_value
    }

    /// The position of the last entry whose key has `prefix` as its head: the
    /// one with the largest label among them.
    pub fn max_index_with_prefix<P: Label>(&self, prefix: &P) -> (r: Option<usize>) where
        K: Prefix<P>,

        requires
            self.wf(),
        ensures
            match r {
                Some(i) => i < self.entries().len() && self.entries()[i as int].key.has_prefix(prefix)
                    && forall|j: int|
                    0 <= j < self.entries().len() && j != i && (
                    #[trigger] self.entries()[j]).key.has_prefix(prefix) ==> lex_lt(
                        self.entries()[j].label@,
                        self.entries()[i as int].label@,
                    ),
                None => forall|j: int|
                    0 <= j < self.entries().len() ==> !(
                    #[trigger] self.entries()[j]).key.has_prefix(prefix),
            },
    {
        let mut i: usize = self.nodes.len();
        while i > 0
            invariant
                self.wf(),
                i <= self.nodes@.len(),
                forall|j: int|
                    i <= j < self.nodes@.len() ==> !(#[trigger] self.nodes@[j]).key.has_prefix(
                        prefix,
                    ),
            decreases i,
        {
            if self.nodes[i - 1].key.is_prefix(prefix) {
                proof {
                    assert forall|j: int|
                        0 <= j < self.nodes@.len() && j != i - 1 && (
                        #[trigger] self.nodes@[j]).key.has_prefix(prefix) implies lex_lt(
                        self.nodes@[j].label@,
                        self.nodes@[i - 1].label@,
                    ) by {
                        assert(self.labels()[j] == self.nodes@[j].label@);
                        assert(self.labels()[i - 1] == self.nodes@[i - 1].label@);
                    }
                }
                return Some(i - 1);
            }
            i = i - 1;
        }
        None
    }

    /// The items of the hash tree, one for each entry.
    fn build_items(&self) -> (r: Vec<HashTree>)
        requires
            self.wf(),
        ensures
            models(r@) == self.items(),
    {
        let mut items: Vec<HashTree> = Vec::new();
        let mut i: usize = 0;
        while i < self.nodes.len()
            invariant
                i <= self.nodes@.len(),
                items@.len() == i,
                models(items@) == self.items().subrange(0, i as int),
            decreases self.nodes@.len() - i,
        {
            let node = &self.nodes[i];
            let t = HashTree::Labeled(
                crate::hashtree::copy_bytes(&node.label),
                Box::new(node.value.as_hash_tree()),
            );
            assert(t@ == TreeModel::Labeled(node.label@, Box::new(node.value.tree())));
            let ghost before = items@;
            items.push(t);
            i = i + 1;
            assert forall|k: int| 0 <= k < i implies models(items@)[k] == self.items()[k] by {
                if k < i - 1 {
                    assert(models(before)[k] == self.items()[k]);
                    assert(items@[k] == before[k]);
                }
            }
            assert(models(items@) =~= self.items().subrange(0, i as int));
        }
        assert(self.items().subrange(0, i as int) =~= self.items());
        items
    }

    /// The full hash tree over the entries.
    pub fn as_hash_tree(&self) -> (r: HashTree)
        requires
            self.wf(),
        ensures
            r@ == self.spec_tree(),
    {
        let items = self.build_items();
        assert(models(items@).len() == items@.len());
        build_shape(&items, 0, items.len())
    }

    /// A witness for `key`: the hash tree with everything pruned but the path
    /// to the entry where `key`'s label stands or would stand.
    pub fn witness(&self, key: &K) -> (r: HashTree)
        requires
            self.wf(),
        ensures
            prunes(r@, self.spec_tree()),
            self@.contains_key(key.label()) ==> shows(
                r@,
                TreeModel::Labeled(key.label(), Box::new(self@[key.label()].tree())),
            ),
            !self@.contains_key(key.label()) ==> exists|i: int| #[trigger]
                self.gap_shown(r@, key.label(), i),
            r@ == self.witness_model(key.label()),
    {
        let l = key.as_label();
        self.witness_label(&l)
    }

    /// `w` shows the entries on both sides of position `i`, and `l` falls
    /// between them: no entry under `l` can be hidden in `w`.
    pub open spec fn gap_shown(&self, w: TreeModel, l: Seq<u8>, i: int) -> bool {
        let n = self.entries().len() as int;
        &&& 0 <= i <= n
        &&& i > 0 ==> lex_lt(self.entries()[i - 1].label@, l) && shows(w, self.items()[i - 1])
        &&& i < n ==> lex_lt(l, self.entries()[i].label@) && shows(w, self.items()[i])
        &&& i == 0 ==> forall|j: int| 0 <= j < n ==> lex_lt(l, #[trigger] self.entries()[j].label@)
        &&& i == n ==> forall|j: int| 0 <= j < n ==> lex_lt(#[trigger] self.entries()[j].label@, l)
    }

    /// `i` is the number of entries whose label is below `l`.
    pub open spec fn is_insertion_point(&self, l: Seq<u8>, i: int) -> bool {
        &&& 0 <= i <= self.entries().len()
        &&& forall|j: int| 0 <= j < i ==> lex_lt(#[trigger] self.entries()[j].label@, l)
        &&& forall|j: int|
            i <= j < self.entries().len() ==> !lex_lt(#[trigger] self.entries()[j].label@, l)
    }

    /// The position where `l` stands or would stand.
    pub open spec fn insertion_point(&self, l: Seq<u8>) -> int {
        choose|i: int| self.is_insertion_point(l, i)
    }

    /// The witness for the label `l`: the entry under `l` is shown or, when
    /// there is none, the entries just below and just above it; the rest of
    /// the tree is pruned.
    pub open spec fn witness_model(&self, l: Seq<u8>) -> TreeModel {
        let i = self.insertion_point(l);
        let a = if self@.contains_key(l) || i == 0 {
            i
        } else {
            i - 1
        };
        range_witness(self.items(), 0, self.entries().len() as int, a, i)
    }

    proof fn lemma_insertion_point(&self, l: Seq<u8>, i: int)
        requires
            self.is_insertion_point(l, i),
        ensures
            self.insertion_point(l) == i,
    {
        let k = self.insertion_point(l);
        assert(self.is_insertion_point(l, k));
        if k < i {
            assert(lex_lt(self.entries()[k].label@, l));
        } else if k > i {
            assert(lex_lt(self.entries()[i].label@, l));
        }
    }

    /// A witness for the label `l`: the hash tree with everything pruned but
    /// the entry under `l`, or, when there is none, the entries just below and
    /// just above `l`, which show a verifier that nothing stands between them.
    pub fn witness_label(&self, l: &Vec<u8>) -> (r: HashTree)
        requires
            self.wf(),
        ensures
            prunes(r@, self.spec_tree()),
            self@.contains_key(l@) ==> shows(
                r@,
                TreeModel::Labeled(l@, Box::new(self@[l@].tree())),
            ),
            !self@.contains_key(l@) ==> exists|i: int| #[trigger] self.gap_shown(r@, l@, i),
            r@ == self.witness_model(l@),
    {
        let (found, i) = self.find(l);
        proof {
            assert forall|j: int| 0 <= j < self.entries().len() implies self.labels()[j]
                == (#[trigger] self.entries()[j]).label@ by {}
            self.lemma_insertion_point(l@, i as int);
        }
        let items = self.build_items();
        assert(models(items@).len() == items@.len());
        let a = if found || i == 0 {
            i
        } else {
            i - 1
        };
        let r = witness_range(&items, 0, items.len(), a, i);
        proof {
            if found {
                assert(models(items@)[i as int] == items@[i as int]@);
                assert(self.labels()[i as int] == self.nodes@[i as int].label@);
                assert(shows(r@, items@[i as int]@));
            } else {
                let n = self.nodes@.len() as int;
                if i > 0 {
                    assert(models(items@)[i - 1] == items@[i - 1]@);
                    assert(shows(r@, items@[i - 1]@));
                    assert(self.labels()[i - 1] == self.nodes@[i - 1].label@);
                }
                if i < n {
                    assert(models(items@)[i as int] == items@[i as int]@);
                    assert(shows(r@, items@[i as int]@));
                    assert(self.labels()[i as int] == self.nodes@[i as int].label@);
                }
                assert forall|j: int| 0 <= j < n && i == 0 implies lex_lt(l@, #[trigger] self.nodes@[j].label@) by {
                    assert(self.labels()[j] == self.nodes@[j].label@);
                }
                assert forall|j: int| 0 <= j < n && i == n implies lex_lt(#[trigger] self.nodes@[j].label@, l@) by {
                    assert(self.labels()[j] == self.nodes@[j].label@);
                }
                assert(0 <= i <= n);
                let k = i as int;
                assert(self.gap_shown(r@, l@, k));
            }
        }
        r
    }

    /// Trees with the same contents have the same hash tree, however they
    /// were built.
    pub proof fn lemma_same_contents_same_tree(a: &Self, b: &Self)
        requires
            a.wf(),
            b.wf(),
            a@ == b@,
        ensures
            a.spec_tree() == b.spec_tree(),
    {
        assert forall|x: Seq<u8>| a.labels().contains(x) <==> b.labels().contains(x) by {
            if a.labels().contains(x) {
                let k = choose|k: int| 0 <= k < a.labels().len() && a.labels()[k] == x;
                assert(a@.contains_key(a.labels()[k]));
            }
            if b.labels().contains(x) {
                let k = choose|k: int| 0 <= k < b.labels().len() && b.labels()[k] == x;
                assert(b@.contains_key(b.labels()[k]));
            }
        }
        lemma_sorted_unique(a.labels(), b.labels());
        assert(a.nodes@.len() == a.labels().len());
        assert forall|i: int| 0 <= i < a.items().len() implies a.items()[i] == b.items()[i] by {
            assert(a.labels()[i] == b.labels()[i]);
        }
        assert(a.items() =~= b.items());
    }
}

} // verus!
