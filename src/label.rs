use vstd::prelude::*;

verus! {

/// Lexicographic "less than" on byte strings, comparing from position `i` on.
pub open spec fn lex_lt_from(a: Seq<u8>, b: Seq<u8>, i: nat) -> bool
    decreases a.len() - i,
{
    if i >= a.len() {
        i < b.len()
    } else if i >= b.len() {
        false
    } else if a[i as int] != b[i as int] {
        a[i as int] < b[i as int]
    } else {
        lex_lt_from(a, b, i + 1)
    }
}

/// Lexicographic "less than" on byte strings: the order of labels.
pub open spec fn lex_lt(a: Seq<u8>, b: Seq<u8>) -> bool {
    lex_lt_from(a, b, 0)
}

pub proof fn lemma_lex_irrefl_from(a: Seq<u8>, i: nat)
    ensures
        !lex_lt_from(a, a, i),
    decreases a.len() - i,
{
    if i < a.len() {
        lemma_lex_irrefl_from(a, i + 1);
    }
}

pub proof fn lemma_lex_trans_from(a: Seq<u8>, b: Seq<u8>, c: Seq<u8>, i: nat)
    requires
        lex_lt_from(a, b, i),
        lex_lt_from(b, c, i),
    ensures
        lex_lt_from(a, c, i),
    decreases a.len() - i,
{
    if i < a.len() && i < b.len() && i < c.len() && a[i as int] == b[i as int] && b[i as int]
        == c[i as int] {
        lemma_lex_trans_from(a, b, c, i + 1);
    }
}

pub proof fn lemma_lex_total_from(a: Seq<u8>, b: Seq<u8>, i: nat)
    requires
        i <= a.len(),
        i <= b.len(),
    ensures
        lex_lt_from(a, b, i) || lex_lt_from(b, a, i) || (a.len() == b.len() && forall|j: int|
            i <= j < a.len() ==> a[j] == b[j]),
    decreases a.len() - i,
{
    if i < a.len() && i < b.len() && a[i as int] == b[i as int] {
        lemma_lex_total_from(a, b, i + 1);
    }
}

/// `lex_lt` is irreflexive.
pub proof fn lemma_lex_irrefl(a: Seq<u8>)
    ensures
        !lex_lt(a, a),
{
    lemma_lex_irrefl_from(a, 0);
}

/// `lex_lt` is transitive.
pub proof fn lemma_lex_trans(a: Seq<u8>, b: Seq<u8>, c: Seq<u8>)
    requires
        lex_lt(a, b),
        lex_lt(b, c),
    ensures
        lex_lt(a, c),
{
    lemma_lex_trans_from(a, b, c, 0);
}

/// `lex_lt` is total on distinct byte strings.
pub proof fn lemma_lex_total(a: Seq<u8>, b: Seq<u8>)
    ensures
        lex_lt(a, b) || lex_lt(b, a) || a == b,
{
    lemma_lex_total_from(a, b, 0);
    if !lex_lt(a, b) && !lex_lt(b, a) {
        assert(a =~= b);
    }
}

/// `lex_lt` is asymmetric.
pub proof fn lemma_lex_asym(a: Seq<u8>, b: Seq<u8>)
    ensures
        !(lex_lt(a, b) && lex_lt(b, a)),
{
    if lex_lt(a, b) && lex_lt(b, a) {
        lemma_lex_trans(a, b, a);
        lemma_lex_irrefl(a);
    }
}

/// Two byte strings that share a prefix compare as what follows it does.
pub proof fn lemma_lex_common_prefix(p: Seq<u8>, x: Seq<u8>, y: Seq<u8>)
    ensures
        lex_lt(p + x, p + y) == lex_lt(x, y),
{
    lemma_lex_shift(p, x, y, p.len());
}

proof fn lemma_lex_shift(p: Seq<u8>, x: Seq<u8>, y: Seq<u8>, i: nat)
    requires
        i <= p.len(),
    ensures
        lex_lt_from(p + x, p + y, (p.len() - i) as nat) == lex_lt_from(x, y, 0),
    decreases i,
{
    let a = p + x;
    let b = p + y;
    if i == 0 {
        lemma_lex_suffix(p, x, y, 0);
    } else {
        lemma_lex_shift(p, x, y, (i - 1) as nat);
    }
}

proof fn lemma_lex_suffix(p: Seq<u8>, x: Seq<u8>, y: Seq<u8>, j: nat)
    ensures
        lex_lt_from(p + x, p + y, p.len() + j) == lex_lt_from(x, y, j),
    decreases x.len() - j,
{
    let a = p + x;
    let b = p + y;
    if j < x.len() && j < y.len() {
        assert(a[(p.len() + j) as int] == x[j as int]);
        assert(b[(p.len() + j) as int] == y[j as int]);
        if x[j as int] == y[j as int] {
            lemma_lex_suffix(p, x, y, j + 1);
        }
    } else if j < x.len() {
        assert(a[(p.len() + j) as int] == x[j as int]);
    }
}

/// Three-way comparison of byte strings: negative, zero or positive as `a`
/// is below, equal to or above `b` in `lex_lt`.
pub fn compare_bytes(a: &[u8], b: &[u8]) -> (r: i8)
    ensures
        r < 0 <==> lex_lt(a@, b@),
        r == 0 <==> a@ == b@,
        r > 0 <==> lex_lt(b@, a@),
{
    proof {
        lemma_lex_irrefl(a@);
        lemma_lex_asym(a@, b@);
    }
    let mut i: usize = 0;
    while i < a.len() && i < b.len()
        invariant
            i <= a@.len(),
            i <= b@.len(),
            forall|j: int| 0 <= j < i ==> a@[j] == b@[j],
            lex_lt(a@, b@) == lex_lt_from(a@, b@, i as nat),
            lex_lt(b@, a@) == lex_lt_from(b@, a@, i as nat),
        decreases a@.len() - i,
    {
        if a[i] < b[i] {
            return -1;
        }
        if a[i] > b[i] {
            return 1;
        }
        i = i + 1;
    }
    if a.len() == b.len() {
        assert(a@ =~= b@);
        0
    } else if i == a.len() {
        -1
    } else {
        1
    }
}

/// A key that has a byte-string label: the label names it in hash trees and
/// orders it in the balanced tree.
pub trait Label {
    spec fn label(&self) -> Seq<u8>;

    fn as_label(&self) -> (r: Vec<u8>)
        ensures
            r@ == self.label(),
    ;
}

/// A composite key of which a value of type `T` is the head.
pub trait Prefix<T: Label>: Label {
    spec fn has_prefix(&self, prefix: &T) -> bool;

    fn is_prefix(&self, prefix: &T) -> (r: bool)
        ensures
            r == self.has_prefix(prefix),
    ;
}

/// The four bytes of `x`, most significant first.
pub open spec fn be32(x: u32) -> Seq<u8> {
    seq![(x >> 24u32) as u8, ((x >> 16u32) & 0xffu32) as u8, ((x >> 8u32) & 0xffu32) as u8, (x & 0xffu32) as u8]
}

/// The eight bytes of `x`, most significant first.
pub open spec fn be64(x: u64) -> Seq<u8> {
    seq![
        (x >> 56u64) as u8,
        ((x >> 48u64) & 0xffu64) as u8,
        ((x >> 40u64) & 0xffu64) as u8,
        ((x >> 32u64) & 0xffu64) as u8,
        ((x >> 24u64) & 0xffu64) as u8,
        ((x >> 16u64) & 0xffu64) as u8,
        ((x >> 8u64) & 0xffu64) as u8,
        (x & 0xffu64) as u8,
    ]
}

pub fn be32_bytes(x: u32) -> (r: Vec<u8>)
    ensures
        r@ == be32(x),
{
    let mut r: Vec<u8> = Vec::new();
    r.push((x >> 24u32) as u8);
    r.push(((x >> 16u32) & 0xffu32) as u8);
    r.push(((x >> 8u32) & 0xffu32) as u8);
    r.push((x & 0xffu32) as u8);
    assert(r@ =~= be32(x));
    r
}

pub fn be64_bytes(x: u64) -> (r: Vec<u8>)
    ensures
        r@ == be64(x),
{
    let mut r: Vec<u8> = Vec::new();
    r.push((x >> 56u64) as u8);
    r.push(((x >> 48u64) & 0xffu64) as u8);
    r.push(((x >> 40u64) & 0xffu64) as u8);
    r.push(((x >> 32u64) & 0xffu64) as u8);
    r.push(((x >> 24u64) & 0xffu64) as u8);
    r.push(((x >> 16u64) & 0xffu64) as u8);
    r.push(((x >> 8u64) & 0xffu64) as u8);
    r.push((x & 0xffu64) as u8);
    assert(r@ =~= be64(x));
    r
}

impl Label for String {
    open spec fn label(&self) -> Seq<u8> {
        vstd::utf8::encode_utf8(self@)
    }

    fn as_label(&self) -> (r: Vec<u8>) {
        let b = self.as_str().as_bytes();
        let mut r: Vec<u8> = Vec::new();
        let mut i: usize = 0;
        while i < b.len()
            invariant
                i <= b@.len(),
                r@ == b@.subrange(0, i as int),
            decreases b@.len() - i,
        {
            r.push(b[i]);
            i = i + 1;
            assert(r@ =~= b@.subrange(0, i as int));
        }
        assert(r@ =~= b@);
        r
    }
}

impl Label for Vec<u8> {
    open spec fn label(&self) -> Seq<u8> {
        self@
    }

    fn as_label(&self) -> (r: Vec<u8>) {
        crate::hashtree::copy_bytes(self)
    }
}

impl Label for u32 {
    open spec fn label(&self) -> Seq<u8> {
        be32(*self)
    }

    fn as_label(&self) -> (r: Vec<u8>) {
        be32_bytes(*self)
    }
}

impl Label for i32 {
    open spec fn label(&self) -> Seq<u8> {
        be32(*self as u32)
    }

    fn as_label(&self) -> (r: Vec<u8>) {
        be32_bytes(*self as u32)
    }
}

impl Label for u64 {
    open spec fn label(&self) -> Seq<u8> {
        be64(*self)
    }

    fn as_label(&self) -> (r: Vec<u8>) {
        be64_bytes(*self)
    }
}

} // verus!
