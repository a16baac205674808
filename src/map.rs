use crate::as_hash_tree::AsHashTree;
use crate::hashtree::{prunes, shows, tree_hash, HashBytes, HashTree, TreeModel};
use crate::label::{lex_lt, Label, Prefix};
use crate::seq::CertifiedSeq;
use crate::tree::BalancedTree;
use vstd::prelude::*;

verus! {

/// A certified map: keys are ordered and named in the hash tree by their
/// labels, and each value brings its own hash tree.
pub struct CertifiedMap<K: Label, V: AsHashTree> {
    pub(crate) inner: BalancedTree<K, V>,
}

impl<K: Label, V: AsHashTree> CertifiedMap<K, V> {
    #[verifier::type_invariant]
    pub open(crate) spec fn wf(&self) -> bool {
        self.inner.wf()
    }

    /// Moves the tree out, leaving an empty one in its place.
    pub(crate) fn take_inner(&mut self) -> (r: BalancedTree<K, V>)
        ensures
            r.wf(),
            r@ == old(self)@,
            r.spec_tree() == old(self).tree(),
            final(self)@ == Map::<Seq<u8>, V>::empty(),
    {
        proof {
            use_type_invariant(&*self);
            self.inner.lemma_finite();
        }
        let mut t = BalancedTree::new();
        std::mem::swap(&mut self.inner, &mut t);
        t
    }

    /// What the map holds: each key's label mapped to its value.
    pub open(crate) spec fn view(&self) -> Map<Seq<u8>, V> {
        self.inner@
    }

    pub fn new() -> (r: Self)
        ensures
            r@ == Map::<Seq<u8>, V>::empty(),
            r@.dom().finite(),
    {
        CertifiedMap { inner: BalancedTree::new() }
    }

    /// Returns `true` if the map holds no entries.
    pub fn is_empty(&self) -> (r: bool)
        ensures
            self@.dom().finite(),
            r == (self@.len() == 0),
    {
        proof {
            use_type_invariant(self);
            self.inner.lemma_finite();
        }
        self.inner.is_empty()
    }

    /// The number of entries.
    pub fn len(&self) -> (r: usize)
        ensures
            self@.dom().finite(),
            r == self@.len(),
    {
        proof {
            use_type_invariant(self);
            self.inner.lemma_finite();
        }
        self.inner.len()
    }

    /// Removes every entry.
    pub fn clear(&mut self)
        ensures
            final(self)@ == Map::<Seq<u8>, V>::empty(),
            final(self)@.dom().finite(),
    {
        self.inner = BalancedTree::new();
    }

    /// Inserts `value` under `key`; returns the value that was there before.
    pub fn insert(&mut self, key: K, value: V) -> (r: Option<V>)
        ensures
            old(self)@.dom().finite(),
            final(self)@.dom().finite(),
            final(self)@ == old(self)@.insert(key.label(), value),
            r == (if old(self)@.contains_key(key.label()) {
                Some(old(self)@[key.label()])
            } else {
                None
            }),
    {
        proof {
            use_type_invariant(&*self);
            self.inner.lemma_finite();
        }
        let mut t = self.take_inner();
        let r = t.insert(key, value);
        proof {
            t.lemma_finite();
        }
        self.inner = t;
        r
    }

    /// Removes the entry under `key` and returns its value.
    pub fn remove(&mut self, key: &K) -> (r: Option<V>)
        ensures
            old(self)@.dom().finite(),
            final(self)@.dom().finite(),
            final(self)@ == old(self)@.remove(key.label()),
            r == (if old(self)@.contains_key(key.label()) {
                Some(old(self)@[key.label()])
            } else {
                None
            }),
    {
        proof {
            use_type_invariant(&*self);
            self.inner.lemma_finite();
        }
        let mut t = self.take_inner();
        let r = t.delete(key);
        proof {
            t.lemma_finite();
        }
        self.inner = t;
        match r {
            Some(kv) => Some(kv.1),
            None => None,
        }
    }

    /// Removes the entry under `key` and returns its key and value.
    pub fn remove_entry(&mut self, key: &K) -> (r: Option<(K, V)>)
        ensures
            old(self)@.dom().finite(),
            final(self)@.dom().finite(),
            final(self)@ == old(self)@.remove(key.label()),
            match r {
                Some(kv) => old(self)@.contains_key(key.label()) && kv.1 == old(self)@[key.label()]
                    && kv.0.label() == key.label(),
                None => !old(self)@.contains_key(key.label()),
            },
    {
        proof {
            use_type_invariant(&*self);
            self.inner.lemma_finite();
        }
        let mut t = self.take_inner();
        let r = t.delete(key);
        proof {
            t.lemma_finite();
        }
        self.inner = t;
        r
    }

    /// Inserts `default` under `key` unless the key is present; returns whether
    /// it did.
    pub fn entry(&mut self, key: K, default: V) -> (r: bool)
        ensures
            old(self)@.dom().finite(),
            final(self)@.dom().finite(),
            r == !old(self)@.contains_key(key.label()),
            final(self)@ == (if r {
                old(self)@.insert(key.label(), default)
            } else {
                old(self)@
            }),
    {
        proof {
            use_type_invariant(&*self);
            self.inner.lemma_finite();
        }
        match self.inner.index_of(&key) {
            Some(_) => false,
            None => {
                let mut t = self.take_inner();
                t.insert(key, default);
                proof {
                    t.lemma_finite();
                }
                self.inner = t;
                true
            },
        }
    }

    /// The value under `key`, if any.
    pub fn get(&self, key: &K) -> (r: Option<&V>)
        ensures
            self@.dom().finite(),
            r == (if self@.contains_key(key.label()) {
                Some(&self@[key.label()])
            } else {
                None
            }),
    {
        proof {
            use_type_invariant(self);
            self.inner.lemma_finite();
        }
        self.inner.get(key)
    }

    /// The entries in ascending order of their labels.
    pub fn iter(&self) -> (r: Vec<(&K, &V)>)
        ensures
            self@.dom().finite(),
            r@.len() == self@.len(),
            forall|l: Seq<u8>| #[trigger]
                self@.contains_key(l) ==> exists|i: int|
                    0 <= i < r@.len() && #[trigger] r@[i].0.label() == l,
            r@.len() == self.keys().len(),
            forall|i: int| 0 <= i < r@.len() ==> *(#[trigger] r@[i]).0 == self.keys()[i],
            forall|i: int, j: int|
                0 <= i < j < r@.len() ==> lex_lt(
                    (#[trigger] r@[i]).0.label(),
                    (#[trigger] r@[j]).0.label(),
                ),
            forall|i: int|
                0 <= i < r@.len() ==> self@.contains_key((#[trigger] r@[i]).0.label())
                    && *r@[i].1 == self@[r@[i].0.label()],
    {
        proof {
            use_type_invariant(self);
            self.inner.lemma_finite();
        }
        let n = self.inner.len();
        let mut r: Vec<(&K, &V)> = Vec::new();
        let mut i: usize = 0;
        while i < n
            invariant
                self.inner.wf(),
                n == self.inner.entries().len(),
                i <= n,
                r@.len() == i,
                forall|j: int|
                    0 <= j < r@.len() ==> self@.contains_key((#[trigger] r@[j]).0.label())
                        && *r@[j].1 == self@[r@[j].0.label()],
                forall|j: int| 0 <= j < r@.len() ==> *(#[trigger] r@[j]).0 == self.keys()[j],
            decreases n - i,
        {
            let k = self.inner.key_at(i);
            let v = self.inner.value_at(i);
            r.push((k, v));
            i = i + 1;
        }
        proof {
            self.inner.lemma_sorted();
            self.inner.lemma_covers();
            assert forall|l: Seq<u8>| #[trigger] self@.contains_key(l) implies exists|i: int|
                0 <= i < r@.len() && #[trigger] r@[i].0.label() == l by {
                let i = choose|i: int|
                    0 <= i < self.inner.entries().len() && #[trigger] self.inner.entries()[i].key.label() == l;
                assert(self.keys()[i] == self.inner.entries()[i].key);
                assert(*r@[i].0 == self.keys()[i]);
            }
            assert forall|a: int, b: int| 0 <= a < b < r@.len() implies lex_lt(
                (#[trigger] r@[a]).0.label(),
                (#[trigger] r@[b]).0.label(),
            ) by {
                assert(self.keys()[a] == self.inner.entries()[a].key);
                assert(self.keys()[b] == self.inner.entries()[b].key);
            }
        }
        r
    }

    /// The keys, in ascending order of their labels.
    pub closed spec fn keys(&self) -> Seq<K> {
        self.inner.entries().map_values(|n: crate::tree::Node<K, V>| n.key)
    }

    /// The entry with the largest label among those whose key has `prefix`
    /// as its head.
    pub fn max_entry_with_prefix<P: Label>(&self, prefix: &P) -> (r: Option<(&K, &V)>) where
        K: Prefix<P>,

        ensures
            match r {
                Some(kv) => kv.0.has_prefix(prefix) && self@.contains_key(kv.0.label()) && *kv.1
                    == self@[kv.0.label()] && self.keys().contains(*kv.0) && forall|i: int|
                    0 <= i < self.keys().len() && (#[trigger] self.keys()[i]).has_prefix(prefix)
                        ==> self.keys()[i] == *kv.0 || lex_lt(self.keys()[i].label(), kv.0.label()),
                None => forall|i: int|
                    0 <= i < self.keys().len() ==> !(#[trigger] self.keys()[i]).has_prefix(prefix),
            },
    {
        proof {
            use_type_invariant(self);
            self.inner.lemma_finite();
        }
        match self.inner.max_index_with_prefix(prefix) {
            Some(i) => {
                let k = self.inner.key_at(i);
                let v = self.inner.value_at(i);
                proof {
                    assert(self.keys()[i as int] == *k);
                    assert forall|j: int|
                        0 <= j < self.keys().len() && (#[trigger] self.keys()[j]).has_prefix(
                            prefix,
                        ) implies self.keys()[j] == *k || lex_lt(self.keys()[j].label(), k.label()) by {
                        assert(self.keys()[j] == self.inner.entries()[j].key);
                        if j != i {
                            self.inner.lemma_entry(j);
                            self.inner.lemma_entry(i as int);
                        }
                    }
                }
                Some((k, v))
            },
            None => {
                proof {
                    assert forall|j: int| 0 <= j < self.keys().len() implies !(
                    #[trigger] self.keys()[j]).has_prefix(prefix) by {
                        assert(self.keys()[j] == self.inner.entries()[j].key);
                    }
                }
                None
            },
        }
    }

    /// `w` shows the entries on both sides of position `i` in label order,
    /// and `l` falls between them.
    pub open(crate) spec fn gap_shown(&self, w: TreeModel, l: Seq<u8>, i: int) -> bool {
        self.inner.gap_shown(w, l, i)
    }

    /// The witness for the label `l`: the entry under `l`, or the entries on
    /// both sides of where it would stand, with the rest of the tree pruned.
    pub open(crate) spec fn witness_model(&self, l: Seq<u8>) -> TreeModel {
        self.inner.witness_model(l)
    }

    /// A witness for `key`: everything pruned but the path to its entry, or,
    /// when it is absent, to the entries on both sides of where it would be.
    pub fn witness(&self, key: &K) -> (r: HashTree)
        ensures
            prunes(r@, self.tree()),
            self@.contains_key(key.label()) ==> shows(
                r@,
                TreeModel::Labeled(key.label(), Box::new(self@[key.label()].tree())),
            ),
            !self@.contains_key(key.label()) ==> exists|i: int| #[trigger]
                self.gap_shown(r@, key.label(), i),
            r@ == self.witness_model(key.label()),
    {
        proof {
            use_type_invariant(self);
            self.inner.lemma_finite();
        }
        let r = self.inner.witness(key);
        proof {
            if !self@.contains_key(key.label()) {
                let i = choose|i: int| #[trigger] self.inner.gap_shown(r@, key.label(), i);
                assert(self.gap_shown(r@, key.label(), i));
            }
        }
        r
    }

    /// Maps with the same contents have the same hash tree, and so the same
    /// root hash, whatever order their entries were inserted in.
    pub proof fn lemma_order_independence(a: &Self, b: &Self)
        requires
            a.wf(),
            b.wf(),
            a@ == b@,
        ensures
            a.tree() == b.tree(),
            tree_hash(a.tree()) == tree_hash(b.tree()),
    {
        BalancedTree::lemma_same_contents_same_tree(&a.inner, &b.inner);
    }
}

/// Inserts under distinct keys commute, so any order of a set of insertions
/// with distinct keys gives the same contents, and by
/// `lemma_order_independence` the same root hash.
pub proof fn lemma_insert_commutes<V>(m: Map<Seq<u8>, V>, k1: Seq<u8>, v1: V, k2: Seq<u8>, v2: V)
    requires
        k1 != k2,
    ensures
        m.insert(k1, v1).insert(k2, v2) == m.insert(k2, v2).insert(k1, v1),
{
    assert(m.insert(k1, v1).insert(k2, v2) =~= m.insert(k2, v2).insert(k1, v1));
}

/// After `insert(k, v)`, `get(k)` finds `v`; a `remove(k)` after that hands
/// `v` back and leaves `k` absent.
pub proof fn lemma_round_trip<V>(m: Map<Seq<u8>, V>, l: Seq<u8>, v: V)
    ensures
        m.insert(l, v).contains_key(l),
        m.insert(l, v)[l] == v,
        !m.insert(l, v).remove(l).contains_key(l),
        m.insert(l, v).remove(l) == m.remove(l),
{
    assert(m.insert(l, v).remove(l) =~= m.remove(l));
}

impl<K: Label, W: AsHashTree> CertifiedMap<K, CertifiedSeq<W>> {
    /// Appends `value` to the sequence under `key`, starting a new sequence
    /// when there is none.
    pub fn append_deep(&mut self, key: K, value: W)
        ensures
            old(self)@.dom().finite(),
            final(self)@.dom().finite(),
            final(self)@.dom() == old(self)@.dom().insert(key.label()),
            forall|l: Seq<u8>|
                l != key.label() && #[trigger] old(self)@.contains_key(l) ==> final(self)@[l]
                    == old(self)@[l],
            final(self)@[key.label()]@ == (if old(self)@.contains_key(key.label()) {
                old(self)@[key.label()]@.push(value)
            } else {
                seq![value]
            }),
    {
        proof {
            use_type_invariant(&*self);
            self.inner.lemma_finite();
        }
        let mut t = self.take_inner();
        match t.index_of(&key) {
            Some(i) => {
                let mut s = t.replace_at(i, CertifiedSeq::new());
                s.append(value);
                t.replace_at(i, s);
            },
            None => {
                let mut s = CertifiedSeq::new();
                s.append(value);
                assert(s@ =~= seq![value]);
                t.insert(key, s);
            },
        }
        proof {
            t.lemma_finite();
        }
        self.inner = t;
    }

    /// The length of the sequence under `key`, or zero.
    pub fn len_deep(&self, key: &K) -> (r: usize)
        ensures
            r == (if self@.contains_key(key.label()) {
                self@[key.label()]@.len()
            } else {
                0
            }),
    {
        proof {
            use_type_invariant(self);
            self.inner.lemma_finite();
        }
        match self.inner.get(key) {
            Some(s) => s.len(),
            None => 0,
        }
    }
}

impl<K: Label, V: AsHashTree> Default for CertifiedMap<K, V> {
    fn default() -> (r: Self)
        ensures
            r@ == Map::<Seq<u8>, V>::empty(),
    {
        CertifiedMap::new()
    }
}

impl<K: Label, V: AsHashTree> AsHashTree for CertifiedMap<K, V> {
    open(crate) spec fn tree(&self) -> TreeModel {
        self.inner.spec_tree()
    }

    fn as_hash_tree(&self) -> (r: HashTree) {
        proof {
            use_type_invariant(self);
            self.inner.lemma_finite();
        }
        self.inner.as_hash_tree()
    }

    fn root_hash(&self) -> (r: HashBytes) {
        self.as_hash_tree().reconstruct()
    }
}

} // verus!
