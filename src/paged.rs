use crate::as_hash_tree::AsHashTree;
use crate::hashtree::{prunes, shows, HashBytes, HashTree, TreeModel};
use crate::label::{
    be32, be32_bytes, compare_bytes, lemma_lex_common_prefix, lex_lt, lex_lt_from, Label, Prefix,
};
use crate::map::CertifiedMap;
use crate::seq::{seq_tree, CertifiedSeq};
use crate::tree::BalancedTree;
use vstd::prelude::*;

verus! {

/// The key of one page: a logical key and a page number. Its label is the
/// key's label followed by the page number's four big-endian bytes, so the
/// pages of one key sort together and in page order.
pub struct PagedKey<K> {
    pub key: K,
    pub page: u32,
}

impl<K: Label> Label for PagedKey<K> {
    open spec fn label(&self) -> Seq<u8> {
        self.key.label() + be32(self.page)
    }

    fn as_label(&self) -> (r: Vec<u8>) {
        let mut r = self.key.as_label();
        let mut p = be32_bytes(self.page);
        r.append(&mut p);
        r
    }
}

impl<K: Label> Prefix<K> for PagedKey<K> {
    open spec fn has_prefix(&self, prefix: &K) -> bool {
        self.key.label() == prefix.label()
    }

    fn is_prefix(&self, prefix: &K) -> (r: bool) {
        let a = self.key.as_label();
        let b = prefix.as_label();
        compare_bytes(a.as_slice(), b.as_slice()) == 0
    }
}

/// `be32` is one-to-one.
pub proof fn lemma_be32_injective(x: u32, y: u32)
    requires
        be32(x) == be32(y),
    ensures
        x == y,
{
    assert(be32(x)[0] == be32(y)[0]);
    assert(be32(x)[1] == be32(y)[1]);
    assert(be32(x)[2] == be32(y)[2]);
    assert(be32(x)[3] == be32(y)[3]);
    assert(x == y) by (bit_vector)
        requires
            (x >> 24u32) as u8 == (y >> 24u32) as u8,
            ((x >> 16u32) & 0xffu32) as u8 == ((y >> 16u32) & 0xffu32) as u8,
            ((x >> 8u32) & 0xffu32) as u8 == ((y >> 8u32) & 0xffu32) as u8,
            (x & 0xffu32) as u8 == (y & 0xffu32) as u8,
    ;
}

/// `be32` orders numbers as `lex_lt` orders their bytes.
pub proof fn lemma_be32_order(x: u32, y: u32)
    requires
        lex_lt(be32(x), be32(y)),
    ensures
        x < y,
{
    let a = be32(x);
    let b = be32(y);
    assert(lex_lt_from(a, b, 4) == false);
    assert(lex_lt_from(a, b, 3) == (if a[3] != b[3] {
        a[3] < b[3]
    } else {
        lex_lt_from(a, b, 4)
    }));
    assert(lex_lt_from(a, b, 2) == (if a[2] != b[2] {
        a[2] < b[2]
    } else {
        lex_lt_from(a, b, 3)
    }));
    assert(lex_lt_from(a, b, 1) == (if a[1] != b[1] {
        a[1] < b[1]
    } else {
        lex_lt_from(a, b, 2)
    }));
    assert(lex_lt_from(a, b, 0) == (if a[0] != b[0] {
        a[0] < b[0]
    } else {
        lex_lt_from(a, b, 1)
    }));
    assert(x < y) by (bit_vector)
        requires
            ((x >> 24u32) as u8) < ((y >> 24u32) as u8) || (((x >> 24u32) as u8) == ((y
                >> 24u32) as u8) && ((((x >> 16u32) & 0xffu32) as u8) < (((y >> 16u32)
                & 0xffu32) as u8) || ((((x >> 16u32) & 0xffu32) as u8) == (((y >> 16u32)
                & 0xffu32) as u8) && ((((x >> 8u32) & 0xffu32) as u8) < (((y >> 8u32)
                & 0xffu32) as u8) || ((((x >> 8u32) & 0xffu32) as u8) == (((y >> 8u32)
                & 0xffu32) as u8) && ((x & 0xffu32) as u8) < ((y & 0xffu32) as u8)))))),
    ;
}

/// A page label names one key and one page.
pub proof fn lemma_page_label_injective(a: Seq<u8>, x: u32, b: Seq<u8>, y: u32)
    requires
        a + be32(x) == b + be32(y),
    ensures
        a == b,
        x == y,
{
    let s = a + be32(x);
    let t = b + be32(y);
    assert(be32(x).len() == 4 && be32(y).len() == 4);
    assert(s.len() == t.len());
    assert(a.len() == b.len());
    assert(a =~= s.subrange(0, a.len() as int));
    assert(b =~= t.subrange(0, a.len() as int));
    assert(be32(x) =~= s.subrange(a.len() as int, s.len() as int));
    assert(be32(y) =~= t.subrange(a.len() as int, s.len() as int));
    lemma_be32_injective(x, y);
}

/// The pages of a map keyed by page labels: (key label, page number) to the
/// page's items.
pub open spec fn pages_view<V: AsHashTree>(m: Map<Seq<u8>, CertifiedSeq<V>>) -> Map<
    (Seq<u8>, u32),
    Seq<V>,
> {
    Map::new(|kp: (Seq<u8>, u32)| m.contains_key(kp.0 + be32(kp.1)), |kp: (Seq<u8>, u32)| m[kp.0 + be32(kp.1)]@)
}

/// Every page holds between one and `cap` items, and every page but the
/// first follows a full page of the same key.
pub open spec fn pages_ok<V>(v: Map<(Seq<u8>, u32), Seq<V>>, cap: nat) -> bool {
    forall|kl: Seq<u8>, p: u32| #[trigger]
        v.contains_key((kl, p)) ==> 1 <= v[(kl, p)].len() <= cap && (p > 0 ==> v.contains_key(
            (kl, (p - 1) as u32),
        ) && v[(kl, (p - 1) as u32)].len() == cap)
}

/// Page `m` is the last page of the key labeled `kl`.
pub open spec fn is_last_page<V>(v: Map<(Seq<u8>, u32), Seq<V>>, kl: Seq<u8>, m: u32) -> bool {
    v.contains_key((kl, m)) && (m < u32::MAX ==> !v.contains_key((kl, (m + 1) as u32)))
}

proof fn lemma_pages_view_insert<V: AsHashTree>(
    m: Map<Seq<u8>, CertifiedSeq<V>>,
    kl: Seq<u8>,
    p: u32,
    s: CertifiedSeq<V>,
)
    ensures
        pages_view(m.insert(kl + be32(p), s)) == pages_view(m).insert((kl, p), s@),
{
    let a = pages_view(m.insert(kl + be32(p), s));
    let b = pages_view(m).insert((kl, p), s@);
    assert forall|kp: (Seq<u8>, u32)| a.contains_key(kp) <==> b.contains_key(kp) by {
        if kp.0 + be32(kp.1) == kl + be32(p) {
            lemma_page_label_injective(kp.0, kp.1, kl, p);
        }
    }
    assert forall|kp: (Seq<u8>, u32)| a.contains_key(kp) implies a[kp] == b[kp] by {
        if kp.0 + be32(kp.1) == kl + be32(p) {
            lemma_page_label_injective(kp.0, kp.1, kl, p);
        }
    }
    assert(a =~= b);
}

/// The pages of a key run from 0 up to its last page without a gap.
proof fn lemma_pages_contiguous<V>(v: Map<(Seq<u8>, u32), Seq<V>>, cap: nat, kl: Seq<u8>, p: u32, q: u32)
    requires
        pages_ok(v, cap),
        v.contains_key((kl, p)),
        q <= p,
    ensures
        v.contains_key((kl, q)),
    decreases p - q,
{
    if q < p {
        assert(v.contains_key((kl, (p - 1) as u32)));
        lemma_pages_contiguous(v, cap, kl, (p - 1) as u32, q);
    }
}

/// A key has at most one last page.
proof fn lemma_last_page_unique<V>(v: Map<(Seq<u8>, u32), Seq<V>>, cap: nat, kl: Seq<u8>, m1: u32, m2: u32)
    requires
        pages_ok(v, cap),
        is_last_page(v, kl, m1),
        is_last_page(v, kl, m2),
    ensures
        m1 == m2,
{
    if m1 < m2 {
        lemma_pages_contiguous(v, cap, kl, m2, (m1 + 1) as u32);
    } else if m2 < m1 {
        lemma_pages_contiguous(v, cap, kl, m1, (m2 + 1) as u32);
    }
}

proof fn lemma_ok_new_key<V>(v: Map<(Seq<u8>, u32), Seq<V>>, kl: Seq<u8>, s: Seq<V>, cap: nat)
    requires
        pages_ok(v, cap),
        cap >= 1,
        s.len() == 1,
        forall|m: u32| !v.contains_key((kl, m)),
    ensures
        pages_ok(v.insert((kl, 0), s), cap),
{
    let nv = v.insert((kl, 0), s);
    assert forall|kl_other: Seq<u8>, pg: u32| #[trigger]
        nv.contains_key((kl_other, pg)) implies 1 <= nv[(kl_other, pg)].len() <= cap && (pg > 0
        ==> nv.contains_key((kl_other, (pg - 1) as u32)) && nv[(kl_other, (pg - 1) as u32)].len() == cap) by {
        if (kl_other, pg) != (kl, 0u32) {
            assert(v.contains_key((kl_other, pg)));
            if pg > 0 {
                assert(v.contains_key((kl_other, (pg - 1) as u32)));
            }
        }
    }
}

proof fn lemma_ok_append<V>(v: Map<(Seq<u8>, u32), Seq<V>>, kl: Seq<u8>, m: u32, s: Seq<V>, cap: nat)
    requires
        pages_ok(v, cap),
        is_last_page(v, kl, m),
        s.len() == v[(kl, m)].len() + 1,
        s.len() <= cap,
    ensures
        pages_ok(v.insert((kl, m), s), cap),
{
    let nv = v.insert((kl, m), s);
    assert forall|kl_other: Seq<u8>, pg: u32| #[trigger]
        nv.contains_key((kl_other, pg)) implies 1 <= nv[(kl_other, pg)].len() <= cap && (pg > 0
        ==> nv.contains_key((kl_other, (pg - 1) as u32)) && nv[(kl_other, (pg - 1) as u32)].len() == cap) by {
        assert(v.contains_key((kl_other, pg)));
        if pg > 0 {
            assert(v.contains_key((kl_other, (pg - 1) as u32)));
            if (kl_other, (pg - 1) as u32) == (kl, m) {
                assert((pg - 1 + 1) as u32 == pg);
            }
        }
    }
}

proof fn lemma_ok_new_page<V>(v: Map<(Seq<u8>, u32), Seq<V>>, kl: Seq<u8>, m: u32, s: Seq<V>, cap: nat)
    requires
        pages_ok(v, cap),
        is_last_page(v, kl, m),
        m < u32::MAX,
        v[(kl, m)].len() >= cap,
        s.len() == 1,
        cap >= 1,
    ensures
        pages_ok(v.insert((kl, (m + 1) as u32), s), cap),
{
    let nv = v.insert((kl, (m + 1) as u32), s);
    assert(v.contains_key((kl, m)));
    assert forall|kl_other: Seq<u8>, pg: u32| #[trigger]
        nv.contains_key((kl_other, pg)) implies 1 <= nv[(kl_other, pg)].len() <= cap && (pg > 0
        ==> nv.contains_key((kl_other, (pg - 1) as u32)) && nv[(kl_other, (pg - 1) as u32)].len() == cap) by {
        if (kl_other, pg) == (kl, (m + 1) as u32) {
            assert((pg - 1) as u32 == m);
        } else {
            assert(v.contains_key((kl_other, pg)));
            if pg > 0 {
                assert(v.contains_key((kl_other, (pg - 1) as u32)));
                if (kl_other, (pg - 1) as u32) == (kl, (m + 1) as u32) {
                    assert(v.contains_key((kl, (m + 1) as u32)));
                }
            }
        }
    }
}

/// A sequence of items split into pages of at most `S` items under each key.
/// Only the last page of a key may have room left.
pub struct Paged<K: Label, V: AsHashTree, const S: usize> {
    pub(crate) data: CertifiedMap<PagedKey<K>, CertifiedSeq<V>>,
}

/// Finds the entry of the last page of `key`.
fn last_page_index<K: Label, V: AsHashTree>(
    t: &BalancedTree<PagedKey<K>, CertifiedSeq<V>>,
    key: &K,
) -> (r: Option<usize>)
    requires
        t.wf(),
    ensures
        match r {
            Some(i) => i < t.entries().len() && t.entries()[i as int].key.key.label() == key.label()
                && is_last_page(pages_view(t@), key.label(), t.entries()[i as int].key.page)
                && t.entries()[i as int].key.label() == key.label() + be32(
                t.entries()[i as int].key.page,
            ) && t@[key.label() + be32(t.entries()[i as int].key.page)]
                == t.entries()[i as int].value,
            None => forall|m: u32| !pages_view(t@).contains_key((key.label(), m)),
        },
{
    let r = t.max_index_with_prefix(key);
    let ghost kl = key.label();
    proof {
        match r {
            Some(i) => {
                let i = i as int;
                t.lemma_entry(i);
                let p = t.entries()[i].key.page;
                if p < u32::MAX && pages_view(t@).contains_key((kl, (p + 1) as u32)) {
                    let q = (p + 1) as u32;
                    let j = t.lemma_label_has_entry(kl + be32(q));
                    let kj = t.entries()[j].key;
                    lemma_page_label_injective(kj.key.label(), kj.page, kl, q);
                    t.lemma_entry(j);
                    assert(lex_lt(kl + be32(q), kl + be32(p)));
                    lemma_lex_common_prefix(kl, be32(q), be32(p));
                    lemma_be32_order(q, p);
                }
            },
            None => {
                assert forall|m: u32| !pages_view(t@).contains_key((kl, m)) by {
                    if pages_view(t@).contains_key((kl, m)) {
                        let j = t.lemma_label_has_entry(kl + be32(m));
                        let kj = t.entries()[j].key;
                        lemma_page_label_injective(kj.key.label(), kj.page, kl, m);
                    }
                }
            },
        }
    }
    r
}

impl<K: Label, V: AsHashTree, const S: usize> Paged<K, V, S> {
    #[verifier::type_invariant]
    closed spec fn inv(&self) -> bool {
        &&& S > 0
        &&& pages_ok(self@, S as nat)
    }

    /// The pages: (key label, page number) to the page's items.
    pub closed spec fn view(&self) -> Map<(Seq<u8>, u32), Seq<V>> {
        pages_view(self.data@)
    }

    /// An empty paged collection. A page holds at least one item.
    pub fn new() -> (r: Self)
        requires
            S > 0,
        ensures
            r@ == Map::<(Seq<u8>, u32), Seq<V>>::empty(),
            pages_ok(r@, S as nat),
    {
        let r = Paged { data: CertifiedMap::new() };
        assert(r@ =~= Map::<(Seq<u8>, u32), Seq<V>>::empty());
        r
    }

    /// Adds `item` to the last page of `key` if it has room, else to a new
    /// page after it; the first item of a key goes to page 0. Returns `false`,
    /// and changes nothing, only when the key's page `u32::MAX` is full.
    pub fn insert(&mut self, key: K, item: V) -> (r: bool)
        ensures
            pages_ok(final(self)@, S as nat),
            (forall|m: u32| !old(self)@.contains_key((key.label(), m))) ==> r && final(self)@
                == old(self)@.insert((key.label(), 0), seq![item]),
            forall|m: u32|
                is_last_page(old(self)@, key.label(), m) ==> if old(self)@[(
                key.label(),
                m,
                )].len() < S {
                    r && final(self)@ == old(self)@.insert(
                        (key.label(), m),
                        old(self)@[(key.label(), m)].push(item),
                    )
                } else if m < u32::MAX {
                    r && final(self)@ == old(self)@.insert((key.label(), (m + 1) as u32), seq![item])
                } else {
                    !r && final(self)@ == old(self)@
                },
    {
        proof {
            use_type_invariant(&*self);
        }
        let ghost v = self@;
        let ghost kl = key.label();
        let mut d = CertifiedMap::new();
        std::mem::swap(&mut self.data, &mut d);
        assert(self@ =~= Map::<(Seq<u8>, u32), Seq<V>>::empty());
        let mut t = d.take_inner();
        assert(pages_view(t@) == v);
        let ok = match last_page_index(&t, &key) {
            None => {
                let mut s = CertifiedSeq::new();
                s.append(item);
                assert(s@ =~= seq![item]);
                let ghost m0 = t@;
                t.insert(PagedKey { key, page: 0 }, s);
                proof {
                    lemma_pages_view_insert(m0, kl, 0, s);
                    lemma_ok_new_key(v, kl, s@, S as nat);
                }
                true
            },
            Some(i) => {
                let page = t.key_at(i).page;
                let len = t.value_at(i).len();
                let ghost m0 = t@;
                proof {
                    assert(v.contains_key((kl, page)));
                    assert(v[(kl, page)] == m0[kl + be32(page)]@);
                    assert forall|m: u32| is_last_page(v, kl, m) implies m == page by {
                        lemma_last_page_unique(v, S as nat, kl, m, page);
                    }
                }
                if len < S {
                    let mut s = t.replace_at(i, CertifiedSeq::new());
                    s.append(item);
                    t.replace_at(i, s);
                    proof {
                        assert(t@ =~= m0.insert(kl + be32(page), s));
                        lemma_pages_view_insert(m0, kl, page, s);
                        lemma_ok_append(v, kl, page, s@, S as nat);
                    }
                    true
                } else if page < u32::MAX {
                    let mut s = CertifiedSeq::new();
                    s.append(item);
                    assert(s@ =~= seq![item]);
                    t.insert(PagedKey { key, page: page + 1 }, s);
                    proof {
                        lemma_pages_view_insert(m0, kl, (page + 1) as u32, s);
                        lemma_ok_new_page(v, kl, page, s@, S as nat);
                    }
                    true
                } else {
                    false
                }
            },
        };
        self.data = CertifiedMap { inner: t };
        ok
    }

    /// The number of the last page of `key`, if it has any.
    pub fn get_last_page_number(&self, key: &K) -> (r: Option<usize>)
        ensures
            pages_ok(self@, S as nat),
            match r {
                Some(m) => m <= u32::MAX && is_last_page(self@, key.label(), m as u32),
                None => forall|m: u32| !self@.contains_key((key.label(), m)),
            },
    {
        proof {
            use_type_invariant(self);
            use_type_invariant(&self.data);
        }
        match last_page_index(&self.data.inner, key) {
            Some(i) => Some(self.data.inner.key_at(i).page as usize),
            None => None,
        }
    }

    /// `w` shows the pages on both sides of position `i` in label order, and
    /// the label `l` falls between them.
    pub closed spec fn gap_shown(&self, w: TreeModel, l: Seq<u8>, i: int) -> bool {
        self.data.gap_shown(w, l, i)
    }

    /// The witness for page `p` of the key labeled `kl`: that page, or the
    /// pages on both sides of where it would stand, with the rest pruned.
    pub open(crate) spec fn page_witness(&self, kl: Seq<u8>, p: u32) -> TreeModel {
        self.data.witness_model(kl + be32(p))
    }

    /// A witness of the page after the last page of `key` (page 0 when it has
    /// none): it shows a verifier that no later page exists.
    pub fn witness_last_page_number(&self, key: &K) -> (r: HashTree)
        ensures
            prunes(r@, self.tree()),
            pages_ok(self@, S as nat),
            (forall|m: u32| !self@.contains_key((key.label(), m))) ==> r@ == self.page_witness(
                key.label(),
                0,
            ),
            forall|m: u32|
                is_last_page(self@, key.label(), m) ==> r@ == self.page_witness(
                    key.label(),
                    if m < u32::MAX {
                        (m + 1) as u32
                    } else {
                        m
                    },
                ),
            (forall|m: u32| !self@.contains_key((key.label(), m))) ==> exists|i: int| #[trigger]
                self.gap_shown(r@, key.label() + be32(0), i),
            forall|m: u32|
                is_last_page(self@, key.label(), m) && m < u32::MAX ==> exists|i: int| #[trigger]
                    self.gap_shown(r@, key.label() + be32((m + 1) as u32), i),
    {
        proof {
            use_type_invariant(self);
            use_type_invariant(&self.data);
        }
        let ghost mut last: Option<u32> = None;
        let page: u32 = match last_page_index(&self.data.inner, key) {
            Some(i) => {
                let p = self.data.inner.key_at(i).page;
                proof {
                    last = Some(p);
                }
                if p < u32::MAX {
                    p + 1
                } else {
                    p
                }
            },
            None => 0,
        };
        let r = self.data.inner.witness_label(&page_label(key, page));
        proof {
            let kl = key.label();
            let l = kl + be32(page);
            if !self.data@.contains_key(l) {
                let i = choose|i: int| #[trigger] self.data.inner.gap_shown(r@, l, i);
                assert(self.data.gap_shown(r@, l, i));
                assert(self.gap_shown(r@, l, i));
            }
            match last {
                Some(p) => {
                    assert forall|m: u32| is_last_page(self@, kl, m) implies m == p by {
                        lemma_last_page_unique(self@, S as nat, kl, m, p);
                    }
                    if p < u32::MAX {
                        assert(!self@.contains_key((kl, page)));
                    }
                },
                None => {
                    assert(!self@.contains_key((kl, 0u32)));
                },
            }
        }
        r
    }

    /// The page `page` of `key`, if it exists.
    pub fn get(&self, key: &K, page: usize) -> (r: Option<&CertifiedSeq<V>>)
        ensures
            pages_ok(self@, S as nat),
            match r {
                Some(s) => page <= u32::MAX && self@.contains_key((key.label(), page as u32))
                    && s@ == self@[(key.label(), page as u32)],
                None => page > u32::MAX || !self@.contains_key((key.label(), page as u32)),
            },
    {
        proof {
            use_type_invariant(self);
            use_type_invariant(&self.data);
        }
        if page > 0xffff_ffffusize {
            return None;
        }
        self.data.inner.get_label(&page_label(key, page as u32))
    }

    /// A witness for page `page` of `key`. Page numbers are 32-bit: a larger
    /// `page` is taken modulo 2^32.
    pub fn witness(&self, key: &K, page: usize) -> (r: HashTree)
        ensures
            prunes(r@, self.tree()),
            r@ == self.page_witness(key.label(), page as u32),
            self@.contains_key((key.label(), page as u32)) ==> shows(
                r@,
                TreeModel::Labeled(
                    key.label() + be32(page as u32),
                    Box::new(seq_tree(self@[(key.label(), page as u32)])),
                ),
            ),
    {
        proof {
            use_type_invariant(self);
            use_type_invariant(&self.data);
        }
        self.data.inner.witness_label(&page_label(key, page as u32))
    }
}

/// The label of page `page` of `key`.
fn page_label<K: Label>(key: &K, page: u32) -> (r: Vec<u8>)
    ensures
        r@ == key.label() + be32(page),
{
    let mut r = key.as_label();
    let mut p = be32_bytes(page);
    r.append(&mut p);
    r
}

impl<K: Label, V: AsHashTree, const S: usize> AsHashTree for Paged<K, V, S> {
    closed spec fn tree(&self) -> TreeModel {
        self.data.tree()
    }

    fn as_hash_tree(&self) -> (r: HashTree) {
        self.data.as_hash_tree()
    }

    fn root_hash(&self) -> (r: HashBytes) {
        self.data.root_hash()
    }
}

} // verus!
