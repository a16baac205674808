use crate::as_hash_tree::AsHashTree;
use crate::group::{same_shape, tags_below, Group, GroupNode, GroupNodeInner};
use crate::hashtree::copy_bytes;
use crate::label::{compare_bytes, lemma_lex_irrefl, lex_lt, Label};
use vstd::prelude::*;

verus! {

/// Builds a [`Group`] from leaves registered under paths of names.
pub struct GroupBuilder<L: AsHashTree> {
    root: GroupBuilderNode,
    data: Vec<L>,
}

/// A directory of the builder, or a registered leaf.
pub enum GroupBuilderNode {
    Directory(DirList),
    Leaf(usize),
}

/// The entries of a directory, in ascending order of their names.
pub enum DirList {
    Nil,
    Cons(Vec<u8>, Box<GroupBuilderNode>, Box<DirList>),
}

/// Whether a leaf can be registered at `path[d..]` below `n`: the path must
/// end in a name that is free, and pass only through directories.
pub open spec fn node_accepts(n: GroupBuilderNode, path: Seq<Seq<u8>>, d: int) -> bool
    decreases n,
{
    match n {
        GroupBuilderNode::Leaf(_) => false,
        GroupBuilderNode::Directory(l) => 0 <= d < path.len() && list_accepts(l, path, d),
    }
}

pub open spec fn list_accepts(l: DirList, path: Seq<Seq<u8>>, d: int) -> bool
    decreases l,
{
    match l {
        DirList::Nil => true,
        DirList::Cons(name, child, rest) => if name@ == path[d] {
            node_accepts(*child, path, d + 1)
        } else {
            list_accepts(*rest, path, d)
        },
    }
}

/// Names ascend in every directory and no directory below the top is empty.
pub open spec fn node_wf(n: GroupBuilderNode) -> bool
    decreases n,
{
    match n {
        GroupBuilderNode::Leaf(_) => true,
        GroupBuilderNode::Directory(l) => list_wf(l),
    }
}

pub open spec fn list_wf(l: DirList) -> bool
    decreases l,
{
    match l {
        DirList::Nil => true,
        DirList::Cons(name, child, rest) => node_wf(*child) && list_wf(*rest) && (*child
            is Directory ==> child->Directory_0 is Cons) && match *rest {
            DirList::Cons(next, _, _) => lex_lt(name@, next@),
            DirList::Nil => true,
        },
    }
}

/// Every leaf below `n` has a tag below `k`.
pub open spec fn node_tags_below(n: GroupBuilderNode, k: nat) -> bool
    decreases n,
{
    match n {
        GroupBuilderNode::Leaf(t) => t < k,
        GroupBuilderNode::Directory(l) => list_tags_below(l, k),
    }
}

pub open spec fn list_tags_below(l: DirList, k: nat) -> bool
    decreases l,
{
    match l {
        DirList::Nil => true,
        DirList::Cons(_, child, rest) => node_tags_below(*child, k) && list_tags_below(*rest, k),
    }
}

proof fn lemma_node_tags_grow(n: GroupBuilderNode, k: nat, k2: nat)
    requires
        node_tags_below(n, k),
        k <= k2,
    ensures
        node_tags_below(n, k2),
    decreases n, 1int,
{
    if let GroupBuilderNode::Directory(l) = n {
        lemma_list_tags_grow(l, k, k2);
    }
}

proof fn lemma_list_tags_grow(l: DirList, k: nat, k2: nat)
    requires
        list_tags_below(l, k),
        k <= k2,
    ensures
        list_tags_below(l, k2),
    decreases l, 0int,
{
    if let DirList::Cons(_, child, rest) = l {
        lemma_node_tags_grow(*child, k, k2);
        lemma_list_tags_grow(*rest, k, k2);
    }
}

/// Folding nodes whose tags are below `k` gives a node whose tags are below `k`.
proof fn lemma_fold_tags(s: Seq<GroupNode>, k: nat)
    requires
        s.len() >= 1,
        forall|i: int| 0 <= i < s.len() ==> tags_below(#[trigger] s[i], k),
    ensures
        tags_below(fold_all(s), k),
    decreases s.len(),
{
    if s.len() > 1 {
        let r = pair_round(s);
        assert forall|i: int| 0 <= i < r.len() implies tags_below(#[trigger] r[i], k) by {
            if 2 * i + 1 < s.len() {
                assert(tags_below(s[2 * i], k) && tags_below(s[2 * i + 1], k));
            }
        }
        lemma_fold_tags(r, k);
    }
}

proof fn lemma_build_tags(n: GroupBuilderNode, k: nat)
    requires
        node_wf(n),
        n is Directory ==> n->Directory_0 is Cons,
        node_tags_below(n, k),
    ensures
        tags_below(spec_build(n), k),
    decreases n, 1int,
{
    if let GroupBuilderNode::Directory(l) = n {
        lemma_children_tags(l, k);
        lemma_fold_tags(labeled_children(l), k);
    }
}

proof fn lemma_children_tags(l: DirList, k: nat)
    requires
        list_wf(l),
        list_tags_below(l, k),
    ensures
        forall|i: int|
            0 <= i < labeled_children(l).len() ==> tags_below(#[trigger] labeled_children(l)[i], k),
        l is Cons ==> labeled_children(l).len() >= 1,
    decreases l, 0int,
{
    if let DirList::Cons(name, child, rest) = l {
        lemma_build_tags(*child, k);
        lemma_children_tags(*rest, k);
        let head = GroupNode {
            id: 0,
            data: GroupNodeInner::Labeled(name, Box::new(spec_build(*child))),
        };
        assert(tags_below(head, k));
        assert forall|i: int|
            0 <= i < labeled_children(l).len() implies tags_below(#[trigger] labeled_children(l)[i], k) by {
            if i > 0 {
                assert(labeled_children(l)[i] == labeled_children(*rest)[i - 1]);
            }
        }
    }
}

/// All names in `l` are above `lo`.
pub open spec fn list_above(l: DirList, lo: Seq<u8>) -> bool {
    match l {
        DirList::Nil => true,
        DirList::Cons(name, _, _) => lex_lt(lo, name@),
    }
}

/// The leaf tags registered below `n`, by path.
pub open spec fn node_paths(n: GroupBuilderNode) -> Map<Seq<Seq<u8>>, usize>
    decreases n,
{
    match n {
        GroupBuilderNode::Leaf(t) => map![Seq::<Seq<u8>>::empty() => t],
        GroupBuilderNode::Directory(l) => list_paths(l),
    }
}

pub open spec fn list_paths(l: DirList) -> Map<Seq<Seq<u8>>, usize>
    decreases l,
{
    match l {
        DirList::Nil => Map::empty(),
        DirList::Cons(name, child, rest) => list_paths(*rest).union_prefer_right(
            under(name@, node_paths(*child)),
        ),
    }
}

/// The paths of `m`, each with `name` in front.
pub open spec fn under(name: Seq<u8>, m: Map<Seq<Seq<u8>>, usize>) -> Map<Seq<Seq<u8>>, usize> {
    Map::new(
        |p: Seq<Seq<u8>>| p.len() >= 1 && p[0] == name && m.contains_key(p.drop_first()),
        |p: Seq<Seq<u8>>| m[p.drop_first()],
    )
}

/// The Group shape that a builder node becomes.
pub open spec fn spec_build(n: GroupBuilderNode) -> GroupNode
    decreases n,
{
    match n {
        GroupBuilderNode::Leaf(t) => GroupNode { id: 0, data: GroupNodeInner::Leaf(t) },
        GroupBuilderNode::Directory(l) => fold_all(labeled_children(l)),
    }
}

/// Each entry of a directory as a labeled node.
pub open spec fn labeled_children(l: DirList) -> Seq<GroupNode>
    decreases l,
{
    match l {
        DirList::Nil => Seq::empty(),
        DirList::Cons(name, child, rest) => seq![
            GroupNode { id: 0, data: GroupNodeInner::Labeled(name, Box::new(spec_build(*child))) },
        ] + labeled_children(*rest),
    }
}

pub open spec fn fork_of(a: GroupNode, b: GroupNode) -> GroupNode {
    GroupNode { id: 0, data: GroupNodeInner::Fork(Box::new(a), Box::new(b)) }
}

/// One round of pairing: adjacent siblings, front to front, become forks; an
/// odd one out stays at the end.
pub open spec fn pair_round(s: Seq<GroupNode>) -> Seq<GroupNode> {
    Seq::new(
        ((s.len() + 1) / 2) as nat,
        |i: int|
            if 2 * i + 1 < s.len() {
                fork_of(s[2 * i], s[2 * i + 1])
            } else {
                s[2 * i]
            },
    )
}

/// Pairing rounds until one node is left.
pub open spec fn fold_all(s: Seq<GroupNode>) -> GroupNode
    decreases s.len(),
{
    if s.len() <= 1 {
        s[0]
    } else {
        fold_all(pair_round(s))
    }
}

/// One of two paths leads through the other, or they are the same.
pub open spec fn conflicts(p: Seq<Seq<u8>>, q: Seq<Seq<u8>>) -> bool {
    p.is_prefix_of(q) || q.is_prefix_of(p)
}

/// A leaf can be registered at `q` beside the leaves registered at the paths
/// of `paths`: `q` is not empty and conflicts with none of them.
pub open spec fn path_free(paths: Map<Seq<Seq<u8>>, usize>, q: Seq<Seq<u8>>) -> bool {
    q.len() >= 1 && forall|p: Seq<Seq<u8>>| #[trigger] paths.contains_key(p) ==> !conflicts(p, q)
}

proof fn lemma_list_heads(l: DirList, lo: Seq<u8>)
    requires
        list_wf(l),
        list_above(l, lo),
    ensures
        forall|p: Seq<Seq<u8>>| #[trigger]
            list_paths(l).contains_key(p) ==> p.len() >= 1 && lex_lt(lo, p[0]),
    decreases l,
{
    if let DirList::Cons(name, child, rest) = l {
        if let DirList::Cons(next, _, _) = *rest {
            lemma_list_heads(*rest, name@);
        }
        assert forall|p: Seq<Seq<u8>>| #[trigger]
            list_paths(l).contains_key(p) implies p.len() >= 1 && lex_lt(lo, p[0]) by {
            if list_paths(*rest).contains_key(p) && !under(name@, node_paths(*child)).contains_key(
                p,
            ) {
                crate::label::lemma_lex_trans(lo, name@, p[0]);
            }
        }
    }
}

proof fn lemma_node_nonempty(n: GroupBuilderNode)
    requires
        node_wf(n),
        n is Directory ==> n->Directory_0 is Cons,
    ensures
        exists|p: Seq<Seq<u8>>| #[trigger] node_paths(n).contains_key(p),
    decreases n,
{
    match n {
        GroupBuilderNode::Leaf(t) => {
            assert(node_paths(n).contains_key(Seq::<Seq<u8>>::empty()));
        },
        GroupBuilderNode::Directory(l) => {
            if let DirList::Cons(name, child, rest) = l {
                lemma_node_nonempty(*child);
                let p = choose|p: Seq<Seq<u8>>| #[trigger] node_paths(*child).contains_key(p);
                let q = seq![name@] + p;
                assert(q.drop_first() =~= p);
                assert(under(name@, node_paths(*child)).contains_key(q));
                assert(node_paths(n).contains_key(q));
            }
        },
    }
}

proof fn lemma_conflicts_under(name: Seq<u8>, p: Seq<Seq<u8>>, q: Seq<Seq<u8>>)
    requires
        q.len() >= 1,
        q[0] == name,
    ensures
        conflicts(seq![name] + p, q) == conflicts(p, q.drop_first()),
{
    let a = seq![name] + p;
    assert(a.drop_first() =~= p);
    if a.is_prefix_of(q) {
        assert(p =~= q.drop_first().subrange(0, p.len() as int));
    }
    if p.is_prefix_of(q.drop_first()) {
        assert(a =~= q.subrange(0, a.len() as int));
    }
    if q.is_prefix_of(a) {
        assert(q.drop_first() =~= p.subrange(0, q.drop_first().len() as int));
    }
    if q.drop_first().is_prefix_of(p) {
        assert(q.drop_first() =~= p.subrange(0, q.len() - 1));
        assert forall|i: int| 0 <= i < q.len() implies a[i] == q[i] by {
            if i > 0 {
                assert(a[i] == p[i - 1]);
                assert(q.drop_first()[i - 1] == q[i]);
            }
        }
        assert(q =~= a.subrange(0, q.len() as int));
    }
}

/// Walking down the directories accepts a path exactly when it conflicts
/// with no registered path.
proof fn lemma_accepts_free(n: GroupBuilderNode, path: Seq<Seq<u8>>, d: int)
    requires
        node_wf(n),
        0 <= d <= path.len(),
    ensures
        node_accepts(n, path, d) == (d < path.len() && forall|p: Seq<Seq<u8>>| #[trigger]
            node_paths(n).contains_key(p) ==> !conflicts(p, path.subrange(d, path.len() as int))),
    decreases n, 1int,
{
    let q = path.subrange(d, path.len() as int);
    match n {
        GroupBuilderNode::Leaf(t) => {
            assert(node_paths(n).contains_key(Seq::<Seq<u8>>::empty()));
            assert(Seq::<Seq<u8>>::empty() =~= q.subrange(0, 0));
            assert(Seq::<Seq<u8>>::empty().is_prefix_of(q));
            assert(conflicts(Seq::<Seq<u8>>::empty(), q));
            assert(!node_accepts(n, path, d));
            assert(!(forall|p: Seq<Seq<u8>>| #[trigger]
                node_paths(n).contains_key(p) ==> !conflicts(p, q)));
        },
        GroupBuilderNode::Directory(l) => {
            if d < path.len() {
                lemma_list_accepts_free(l, path, d);
                assert(node_paths(n) == list_paths(l));
                assert(node_accepts(n, path, d) == list_accepts(l, path, d));
            }
        },
    }
}

proof fn lemma_list_accepts_free(l: DirList, path: Seq<Seq<u8>>, d: int)
    requires
        list_wf(l),
        0 <= d < path.len(),
    ensures
        list_accepts(l, path, d) == forall|p: Seq<Seq<u8>>| #[trigger]
            list_paths(l).contains_key(p) ==> !conflicts(p, path.subrange(d, path.len() as int)),
    decreases l, 0int,
{
    let q = path.subrange(d, path.len() as int);
    if let DirList::Cons(name, child, rest) = l {
        let cp = node_paths(*child);
        let rp = list_paths(*rest);
        let u = under(name@, cp);
        lemma_accepts_free(*child, path, d + 1);
        lemma_list_accepts_free(*rest, path, d);
        if let DirList::Cons(next, _, _) = *rest {
            lemma_list_heads(*rest, name@);
        }
        assert(q[0] == path[d]);
        assert(q.drop_first() =~= path.subrange(d + 1, path.len() as int));
        // Paths under another name never conflict with `q`.
        assert forall|p: Seq<Seq<u8>>| #[trigger]
            list_paths(l).contains_key(p) && p.len() >= 1 && p[0] != q[0] implies !conflicts(p, q) by {
            if p.is_prefix_of(q) {
                assert(p[0] == q.subrange(0, p.len() as int)[0]);
            }
            if q.is_prefix_of(p) {
                assert(q[0] == p.subrange(0, q.len() as int)[0]);
            }
        }
        assert forall|p: Seq<Seq<u8>>| #[trigger] u.contains_key(p) implies p.len() >= 1 && p[0]
            == name@ && p =~= seq![name@] + p.drop_first() by {}
        assert forall|p: Seq<Seq<u8>>| #[trigger] rp.contains_key(p) implies p.len() >= 1 && p[0]
            != name@ by {
            lemma_lex_irrefl(name@);
        }
        if name@ == path[d] {
            assert forall|sub: Seq<Seq<u8>>| #[trigger] cp.contains_key(sub) implies u.contains_key(
                seq![name@] + sub,
            ) by {
                assert((seq![name@] + sub).drop_first() =~= sub);
            }
            assert forall|sub: Seq<Seq<u8>>| #[trigger] cp.contains_key(sub) implies conflicts(
                seq![name@] + sub,
                q,
            ) == conflicts(sub, q.drop_first()) by {
                lemma_conflicts_under(name@, sub, q);
            }
            if d + 1 == path.len() {
                lemma_node_nonempty(*child);
                let sub = choose|sub: Seq<Seq<u8>>| #[trigger] cp.contains_key(sub);
                assert(Seq::<Seq<u8>>::empty().is_prefix_of(sub));
                assert(q.drop_first() =~= Seq::<Seq<u8>>::empty());
                assert(list_paths(l).contains_key(seq![name@] + sub));
            }
            if !list_accepts(l, path, d) && d + 1 < path.len() {
                let sub = choose|sub: Seq<Seq<u8>>|
                    #[trigger] cp.contains_key(sub) && conflicts(sub, path.subrange(d + 1, path.len() as int));
                assert(list_paths(l).contains_key(seq![name@] + sub));
            }
            if list_accepts(l, path, d) {
                assert forall|p: Seq<Seq<u8>>| #[trigger]
                    list_paths(l).contains_key(p) implies !conflicts(p, q) by {
                    if u.contains_key(p) {
                        lemma_conflicts_under(name@, p.drop_first(), q);
                    }
                }
            }
        } else {
            assert forall|p: Seq<Seq<u8>>| #[trigger] rp.contains_key(p) implies list_paths(
                l,
            ).contains_key(p) by {}
        }
    }
}

/// Two builder nodes with the same names, structure and tags.
pub open spec fn node_same(a: GroupBuilderNode, b: GroupBuilderNode) -> bool
    decreases a,
{
    match a {
        GroupBuilderNode::Leaf(t) => match b {
            GroupBuilderNode::Leaf(u) => t == u,
            _ => false,
        },
        GroupBuilderNode::Directory(la) => match b {
            GroupBuilderNode::Directory(lb) => list_same(la, lb),
            _ => false,
        },
    }
}

pub open spec fn list_same(a: DirList, b: DirList) -> bool
    decreases a,
{
    match a {
        DirList::Nil => b is Nil,
        DirList::Cons(na, ca, ra) => match b {
            DirList::Cons(nb, cb, rb) => na@ == nb@ && node_same(*ca, *cb) && list_same(*ra, *rb),
            DirList::Nil => false,
        },
    }
}

/// Every path of a directory starts with the name of its first entry or a
/// later one.
proof fn lemma_list_first(l: DirList)
    requires
        list_wf(l),
    ensures
        forall|p: Seq<Seq<u8>>| #[trigger]
            list_paths(l).contains_key(p) ==> p.len() >= 1 && (l is Cons ==> (p[0]
                == l->Cons_0@ || lex_lt(l->Cons_0@, p[0]))),
{
    if let DirList::Cons(name, child, rest) = l {
        if let DirList::Cons(_, _, _) = *rest {
            lemma_list_heads(*rest, name@);
        }
        assert forall|p: Seq<Seq<u8>>| #[trigger] list_paths(l).contains_key(p) implies p.len() >= 1
            && (p[0] == name@ || lex_lt(name@, p[0])) by {
            if !under(name@, node_paths(*child)).contains_key(p) {
                assert(list_paths(*rest).contains_key(p));
            }
        }
    }
}

/// Builder trees with the same registered paths are the same tree.
proof fn lemma_node_unique(a: GroupBuilderNode, b: GroupBuilderNode)
    requires
        node_wf(a),
        node_wf(b),
        node_paths(a) == node_paths(b),
    ensures
        node_same(a, b),
    decreases a, 1int,
{
    match a {
        GroupBuilderNode::Leaf(t) => {
            assert(node_paths(a).contains_key(Seq::<Seq<u8>>::empty()));
            assert(node_paths(a)[Seq::<Seq<u8>>::empty()] == t);
            if let GroupBuilderNode::Leaf(u) = b {
                assert(node_paths(b)[Seq::<Seq<u8>>::empty()] == u);
            }
            if let GroupBuilderNode::Directory(lb) = b {
                lemma_list_first(lb);
                assert(list_paths(lb).contains_key(Seq::<Seq<u8>>::empty()));
            }
        },
        GroupBuilderNode::Directory(la) => {
            match b {
                GroupBuilderNode::Leaf(u) => {
                    assert(node_paths(b).contains_key(Seq::<Seq<u8>>::empty()));
                    lemma_list_first(la);
                    assert(list_paths(la).contains_key(Seq::<Seq<u8>>::empty()));
                },
                GroupBuilderNode::Directory(lb) => {
                    lemma_list_unique(la, lb);
                },
            }
        },
    }
}

proof fn lemma_list_unique(a: DirList, b: DirList)
    requires
        list_wf(a),
        list_wf(b),
        list_paths(a) == list_paths(b),
    ensures
        list_same(a, b),
    decreases a, 0int,
{
    let pa = list_paths(a);
    lemma_list_first(a);
    lemma_list_first(b);
    match a {
        DirList::Nil => {
            if let DirList::Cons(nb, cb, rb) = b {
                lemma_node_nonempty(*cb);
                let q = choose|q: Seq<Seq<u8>>| #[trigger] node_paths(*cb).contains_key(q);
                assert((seq![nb@] + q).drop_first() =~= q);
                assert(list_paths(b).contains_key(seq![nb@] + q));
            }
        },
        DirList::Cons(na, ca, ra) => {
            match b {
                DirList::Nil => {
                    lemma_node_nonempty(*ca);
                    let q = choose|q: Seq<Seq<u8>>| #[trigger] node_paths(*ca).contains_key(q);
                    assert((seq![na@] + q).drop_first() =~= q);
                    assert(pa.contains_key(seq![na@] + q));
                },
                DirList::Cons(nb, cb, rb) => {
                    lemma_node_nonempty(*ca);
                    lemma_node_nonempty(*cb);
                    let qa = choose|q: Seq<Seq<u8>>| #[trigger] node_paths(*ca).contains_key(q);
                    let qb = choose|q: Seq<Seq<u8>>| #[trigger] node_paths(*cb).contains_key(q);
                    assert((seq![na@] + qa).drop_first() =~= qa);
                    assert((seq![nb@] + qb).drop_first() =~= qb);
                    assert(pa.contains_key(seq![na@] + qa));
                    assert(pa.contains_key(seq![nb@] + qb));
                    assert((seq![na@] + qa)[0] == na@);
                    assert((seq![nb@] + qb)[0] == nb@);
                    if na@ != nb@ {
                        crate::label::lemma_lex_asym(na@, nb@);
                    }
                    assert(na@ == nb@);
                    let n = na@;
                    if let DirList::Cons(_, _, _) = *ra {
                        lemma_list_heads(*ra, n);
                    }
                    if let DirList::Cons(_, _, _) = *rb {
                        lemma_list_heads(*rb, n);
                    }
                    assert forall|p: Seq<Seq<u8>>| #[trigger] list_paths(*ra).contains_key(p) implies p.len()
                        >= 1 && p[0] != n by {
                        lemma_lex_irrefl(n);
                    }
                    assert forall|p: Seq<Seq<u8>>| #[trigger] list_paths(*rb).contains_key(p) implies p.len()
                        >= 1 && p[0] != n by {
                        lemma_lex_irrefl(n);
                    }
                    // The children hold the same paths.
                    assert forall|q: Seq<Seq<u8>>|
                        #[trigger] node_paths(*ca).contains_key(q) <==> node_paths(*cb).contains_key(q) by {
                        let p = seq![n] + q;
                        assert(p.drop_first() =~= q);
                        assert(p[0] == n);
                        assert(!list_paths(*ra).contains_key(p));
                        assert(!list_paths(*rb).contains_key(p));
                        assert(under(n, node_paths(*ca)).contains_key(p) == node_paths(*ca).contains_key(q));
                        assert(under(n, node_paths(*cb)).contains_key(p) == node_paths(*cb).contains_key(q));
                        assert(pa.contains_key(p) == under(n, node_paths(*ca)).contains_key(p));
                        assert(list_paths(b).contains_key(p) == under(n, node_paths(*cb)).contains_key(p));
                    }
                    assert forall|q: Seq<Seq<u8>>| #[trigger]
                        node_paths(*ca).contains_key(q) implies node_paths(*ca)[q] == node_paths(*cb)[q] by {
                        let p = seq![n] + q;
                        assert(p.drop_first() =~= q);
                        assert(p[0] == n);
                        assert(!list_paths(*rb).contains_key(p));
                        assert(under(n, node_paths(*ca)).contains_key(p));
                        assert(under(n, node_paths(*cb)).contains_key(p));
                        assert(pa[p] == node_paths(*ca)[q]);
                        assert(list_paths(b)[p] == node_paths(*cb)[q]);
                    }
                    assert(node_paths(*ca) =~= node_paths(*cb));
                    // So do the rest of the entries.
                    assert forall|p: Seq<Seq<u8>>|
                        #[trigger] list_paths(*ra).contains_key(p) <==> list_paths(*rb).contains_key(p) by {
                        if list_paths(*ra).contains_key(p) {
                            assert(!under(n, node_paths(*ca)).contains_key(p));
                            assert(pa.contains_key(p));
                        }
                        if list_paths(*rb).contains_key(p) {
                            assert(!under(n, node_paths(*cb)).contains_key(p));
                            assert(list_paths(b).contains_key(p));
                        }
                    }
                    assert forall|p: Seq<Seq<u8>>| #[trigger]
                        list_paths(*ra).contains_key(p) implies list_paths(*ra)[p] == list_paths(*rb)[p] by {
                        assert(!under(n, node_paths(*ca)).contains_key(p));
                        assert(!under(n, node_paths(*cb)).contains_key(p));
                        assert(pa[p] == list_paths(*ra)[p]);
                        assert(list_paths(b)[p] == list_paths(*rb)[p]);
                    }
                    assert(list_paths(*ra) =~= list_paths(*rb));
                    lemma_node_unique(*ca, *cb);
                    lemma_list_unique(*ra, *rb);
                },
            }
        },
    }
}

/// Folding pairwise alike nodes gives alike nodes.
proof fn lemma_fold_same(a: Seq<GroupNode>, b: Seq<GroupNode>)
    requires
        a.len() == b.len(),
        a.len() >= 1,
        forall|i: int| 0 <= i < a.len() ==> same_shape(#[trigger] a[i], b[i]),
    ensures
        same_shape(fold_all(a), fold_all(b)),
    decreases a.len(),
{
    if a.len() > 1 {
        let ra = pair_round(a);
        let rb = pair_round(b);
        assert forall|i: int| 0 <= i < ra.len() implies same_shape(#[trigger] ra[i], rb[i]) by {
            if 2 * i + 1 < a.len() {
                assert(same_shape(a[2 * i], b[2 * i]) && same_shape(a[2 * i + 1], b[2 * i + 1]));
            } else {
                assert(same_shape(a[2 * i], b[2 * i]));
            }
        }
        lemma_fold_same(ra, rb);
    }
}

proof fn lemma_build_same(a: GroupBuilderNode, b: GroupBuilderNode)
    requires
        node_same(a, b),
        node_wf(a),
        a is Directory ==> a->Directory_0 is Cons,
    ensures
        same_shape(spec_build(a), spec_build(b)),
    decreases a, 1int,
{
    if let GroupBuilderNode::Directory(la) = a {
        if let GroupBuilderNode::Directory(lb) = b {
            lemma_children_same(la, lb);
            lemma_fold_same(labeled_children(la), labeled_children(lb));
        }
    }
}

proof fn lemma_children_same(a: DirList, b: DirList)
    requires
        list_same(a, b),
        list_wf(a),
    ensures
        labeled_children(a).len() == labeled_children(b).len(),
        forall|i: int|
            0 <= i < labeled_children(a).len() ==> same_shape(
                #[trigger] labeled_children(a)[i],
                labeled_children(b)[i],
            ),
        a is Cons ==> labeled_children(a).len() >= 1,
    decreases a, 0int,
{
    if let DirList::Cons(na, ca, ra) = a {
        if let DirList::Cons(nb, cb, rb) = b {
            lemma_build_same(*ca, *cb);
            lemma_children_same(*ra, *rb);
            assert forall|i: int| 0 <= i < labeled_children(a).len() implies same_shape(
                #[trigger] labeled_children(a)[i],
                labeled_children(b)[i],
            ) by {
                if i > 0 {
                    assert(labeled_children(a)[i] == labeled_children(*ra)[i - 1]);
                    assert(labeled_children(b)[i] == labeled_children(*rb)[i - 1]);
                }
            }
        }
    }
}

/// The byte strings of a path.
pub open spec fn segs(path: Seq<Vec<u8>>) -> Seq<Seq<u8>> {
    path.map_values(|v: Vec<u8>| v@)
}

proof fn lemma_under_insert(name: Seq<u8>, m: Map<Seq<Seq<u8>>, usize>, x: Seq<Seq<u8>>, t: usize)
    ensures
        under(name, m.insert(x, t)) == under(name, m).insert(seq![name] + x, t),
{
    let a = under(name, m.insert(x, t));
    let b = under(name, m).insert(seq![name] + x, t);
    assert((seq![name] + x).drop_first() =~= x);
    assert forall|p: Seq<Seq<u8>>| a.contains_key(p) <==> b.contains_key(p) by {
        if p.len() >= 1 && p[0] == name && p.drop_first() == x {
            assert(p =~= seq![name] + x);
        }
    }
    assert forall|p: Seq<Seq<u8>>| a.contains_key(p) implies a[p] == b[p] by {
        if p.len() >= 1 && p[0] == name && p.drop_first() == x {
            assert(p =~= seq![name] + x);
        }
    }
    assert(a =~= b);
}

proof fn lemma_full_path(path: Seq<Seq<u8>>, d: int)
    requires
        0 <= d < path.len(),
    ensures
        path.subrange(d, path.len() as int) == seq![path[d]] + path.subrange(d + 1, path.len() as int),
{
    assert(path.subrange(d, path.len() as int) =~= seq![path[d]] + path.subrange(d + 1, path.len() as int));
}

/// A node holding only a leaf tagged `t` at `path[d..]`.
fn new_chain(path: &Vec<Vec<u8>>, d: usize, t: usize) -> (r: GroupBuilderNode)
    requires
        d <= path@.len(),
    ensures
        node_wf(r),
        node_tags_below(r, t as nat + 1),
        node_paths(r) == map![path@.map_values(|v: Vec<u8>| v@).subrange(d as int, path@.len() as int) => t],
        r is Directory ==> r->Directory_0 is Cons,
    decreases path@.len() - d,
{
    let ghost segs = path@.map_values(|v: Vec<u8>| v@);
    if d >= path.len() {
        assert(segs.subrange(d as int, path@.len() as int) =~= Seq::<Seq<u8>>::empty());
        GroupBuilderNode::Leaf(t)
    } else {
        let child = new_chain(path, d + 1, t);
        let name = copy_bytes(&path[d]);
        let l = DirList::Cons(name, Box::new(child), Box::new(DirList::Nil));
        assert(list_wf(DirList::Nil));
        assert(list_wf(l));
        assert(list_tags_below(DirList::Nil, t as nat + 1));
        assert(list_tags_below(l, t as nat + 1));
        let r = GroupBuilderNode::Directory(l);
        let ghost rest = segs.subrange(d + 1, path@.len() as int);
        let ghost full = segs.subrange(d as int, path@.len() as int);
        assert(full.drop_first() =~= rest);
        assert(full[0] == segs[d as int]);
        assert(list_paths(DirList::Nil) == Map::<Seq<Seq<u8>>, usize>::empty());
        assert(node_paths(r) =~= map![full => t]) by {
            assert forall|p: Seq<Seq<u8>>| #[trigger] node_paths(r).contains_key(p) <==> p == full by {
                if p == full {
                    assert(p.drop_first() == rest);
                }
                if node_paths(r).contains_key(p) {
                    assert(p.drop_first() == rest);
                    assert(p =~= seq![p[0]] + p.drop_first());
                    assert(full =~= seq![full[0]] + full.drop_first());
                }
            }
        }
        r
    }
}

/// Registers the leaf tagged `t` at `path[d..]` in the directory `l`.
fn list_insert(l: DirList, path: &Vec<Vec<u8>>, d: usize, t: usize) -> (r: DirList)
    requires
        list_wf(l),
        d < path@.len(),
        list_accepts(l, segs(path@), d as int),
        list_tags_below(l, t as nat + 1),
    ensures
        list_wf(r),
        list_tags_below(r, t as nat + 1),
        r is Cons,
        list_paths(r) == list_paths(l).insert(segs(path@).subrange(d as int, path@.len() as int), t),
        forall|lo: Seq<u8>|
            list_above(l, lo) && lex_lt(lo, segs(path@)[d as int]) ==> #[trigger] list_above(r, lo),
    decreases l,
{
    let path_len = path.len();
    let ghost sg = segs(path@);
    let ghost full = sg.subrange(d as int, path@.len() as int);
    let ghost tail = sg.subrange(d + 1, path@.len() as int);
    proof {
        lemma_full_path(sg, d as int);
        assert(sg[d as int] == path@[d as int]@);
    }
    match l {
        DirList::Nil => {
            let child = new_chain(path, d + 1, t);
            let name = copy_bytes(&path[d]);
            let r = DirList::Cons(name, Box::new(child), Box::new(DirList::Nil));
            assert(list_wf(DirList::Nil));
            assert(list_tags_below(DirList::Nil, t as nat + 1));
            assert(list_tags_below(r, t as nat + 1));
            assert(list_paths(r) == list_paths(DirList::Nil).union_prefer_right(
                under(sg[d as int], map![tail => t]),
            ));
            proof {
                lemma_under_insert(sg[d as int], Map::empty(), tail, t);
                assert(Map::<Seq<Seq<u8>>, usize>::empty().insert(tail, t) =~= map![tail => t]);
                assert(under(sg[d as int], Map::<Seq<Seq<u8>>, usize>::empty()) =~= Map::<
                    Seq<Seq<u8>>,
                    usize,
                >::empty());
                assert(list_paths(r) =~= Map::<Seq<Seq<u8>>, usize>::empty().insert(full, t));
            }
            r
        },
        DirList::Cons(name, child, rest) => {
            let c = compare_bytes(name.as_slice(), path[d].as_slice());
            if c == 0 {
                let ghost old_child = *child;
                let new_child = (*child).insert(path, d + 1, t);
                let r = DirList::Cons(name, Box::new(new_child), rest);
                proof {
                    lemma_under_insert(name@, node_paths(old_child), tail, t);
                    assert(list_paths(r) =~= list_paths(
                        DirList::Cons(name, Box::new(old_child), rest),
                    ).insert(full, t));
                }
                r
            } else if c > 0 {
                let new_child = new_chain(path, d + 1, t);
                let seg = copy_bytes(&path[d]);
                let old_l = DirList::Cons(name, child, rest);
                let ghost old_lg = old_l;
                let r = DirList::Cons(seg, Box::new(new_child), Box::new(old_l));
                proof {
                    lemma_under_insert(sg[d as int], Map::empty(), tail, t);
                    assert(Map::<Seq<Seq<u8>>, usize>::empty().insert(tail, t) =~= map![tail => t]);
                    assert(under(sg[d as int], Map::<Seq<Seq<u8>>, usize>::empty()) =~= Map::<
                        Seq<Seq<u8>>,
                        usize,
                    >::empty());
                    assert(list_paths(r) =~= list_paths(old_lg).insert(full, t));
                }
                r
            } else {
                let ghost old_rest = *rest;
                let new_rest = list_insert(*rest, path, d, t);
                let ghost u = under(name@, node_paths(*child));
                let r = DirList::Cons(name, child, Box::new(new_rest));
                proof {
                    assert(!u.contains_key(full));
                    assert(list_above(new_rest, name@));
                    assert(list_paths(r) =~= list_paths(DirList::Cons(name, child, Box::new(old_rest))).insert(
                        full,
                        t,
                    ));
                }
                r
            }
        },
    }
}


/// Folds `v` into one node by rounds of pairing adjacent nodes.
fn fold_forks(v: Vec<GroupNode>) -> (r: GroupNode)
    requires
        v@.len() >= 1,
    ensures
        r == fold_all(v@),
{
    let mut cur = v;
    while cur.len() > 1
        invariant
            cur@.len() >= 1,
            fold_all(cur@) == fold_all(v@),
        decreases cur@.len(),
    {
        let ghost orig = cur@;
        let ghost round = pair_round(orig);
        let mut next: Vec<GroupNode> = Vec::new();
        while cur.len() > 1
            invariant
                orig.len() > 1,
                round == pair_round(orig),
                2 * next@.len() <= orig.len(),
                cur@ == orig.subrange(2 * next@.len() as int, orig.len() as int),
                next@ == round.subrange(0, next@.len() as int),
            decreases cur@.len(),
        {
            let ghost k = next@.len() as int;
            let a = cur.remove(0);
            let b = cur.remove(0);
            next.push(GroupNode { id: 0, data: GroupNodeInner::Fork(Box::new(a), Box::new(b)) });
            assert(round[k] == fork_of(orig[2 * k], orig[2 * k + 1]));
            assert(next@ =~= round.subrange(0, next@.len() as int));
            assert(cur@ =~= orig.subrange(2 * next@.len() as int, orig.len() as int));
        }
        if cur.len() == 1 {
            let ghost k = next@.len() as int;
            let last = cur.remove(0);
            next.push(last);
            assert(round[k] == orig[2 * k]);
            assert(next@ =~= round.subrange(0, next@.len() as int));
        }
        assert(next@ =~= round);
        cur = next;
    }
    cur.remove(0)
}

/// Turns each entry of `l` into a labeled node, appended to `out`.
fn list_build(l: DirList, out: &mut Vec<GroupNode>)
    requires
        list_wf(l),
    ensures
        final(out)@ == old(out)@ + labeled_children(l),
    decreases l,
{
    match l {
        DirList::Nil => {
            assert(old(out)@ + labeled_children(l) =~= old(out)@);
        },
        DirList::Cons(name, child, rest) => {
            let ghost old_out = out@;
            let ghost rest_g = *rest;
            let node = (*child).build();
            out.push(GroupNode { id: 0, data: GroupNodeInner::Labeled(name, Box::new(node)) });
            list_build(*rest, out);
            assert(out@ =~= old_out + labeled_children(DirList::Cons(name, child, Box::new(rest_g))));
        },
    }
}


impl GroupBuilderNode {
    /// Registers the leaf tagged `t` at `path[d..]` below this node.
    pub fn insert(self, path: &Vec<Vec<u8>>, d: usize, t: usize) -> (r: GroupBuilderNode)
        requires
            node_wf(self),
            node_accepts(self, segs(path@), d as int),
            node_tags_below(self, t as nat + 1),
        ensures
            node_wf(r),
            node_tags_below(r, t as nat + 1),
            r is Directory && r->Directory_0 is Cons,
            node_paths(r) == node_paths(self).insert(segs(path@).subrange(d as int, path@.len() as int), t),
        decreases self,
    {
        match self {
            GroupBuilderNode::Directory(l) => {
                assert(list_tags_below(l, t as nat + 1));
                GroupBuilderNode::Directory(list_insert(l, path, d, t))
            },
            GroupBuilderNode::Leaf(_) => {
                proof {
                    assert(false);
                }
                GroupBuilderNode::Leaf(0)
            },
        }
    }

    /// The Group shape of this node: each directory level folded into forks.
    pub fn build(self) -> (r: GroupNode)
        requires
            node_wf(self),
            self is Directory ==> self->Directory_0 is Cons,
        ensures
            r == spec_build(self),
        decreases self,
    {
        match self {
            GroupBuilderNode::Leaf(t) => GroupNode { id: 0, data: GroupNodeInner::Leaf(t) },
            GroupBuilderNode::Directory(l) => {
                let mut v: Vec<GroupNode> = Vec::new();
                list_build(l, &mut v);
                assert(v@ =~= labeled_children(l));
                fold_forks(v)
            },
        }
    }
}

/// The byte strings of a path of names.
fn path_labels(path: &Vec<String>) -> (r: Vec<Vec<u8>>)
    ensures
        segs(r@) == path@.map_values(|s: String| s.label()),
{
    let mut r: Vec<Vec<u8>> = Vec::new();
    let mut i: usize = 0;
    while i < path.len()
        invariant
            i <= path@.len(),
            r@.len() == i,
            segs(r@) == path@.map_values(|s: String| s.label()).subrange(0, i as int),
        decreases path@.len() - i,
    {
        let ghost before = r@;
        r.push(path[i].as_label());
        i = i + 1;
        assert(segs(r@) =~= path@.map_values(|s: String| s.label()).subrange(0, i as int)) by {
            assert forall|k: int| 0 <= k < i implies segs(r@)[k] == path@.map_values(
                |s: String| s.label(),
            )[k] by {
                assert(segs(r@)[k] == r@[k]@);
                if k < i - 1 {
                    assert(r@[k] == before[k]);
                    assert(segs(before)[k] == before[k]@);
                }
            }
        }
    }
    assert(path@.map_values(|s: String| s.label()).subrange(0, i as int) =~= path@.map_values(
        |s: String| s.label(),
    ));
    r
}

impl<L: AsHashTree> GroupBuilder<L> {
    #[verifier::type_invariant]
    pub closed spec fn inv(&self) -> bool {
        &&& self.root is Directory
        &&& node_wf(self.root)
        &&& node_tags_below(self.root, self.data@.len())
    }

    /// The tag of each registered leaf, by path.
    pub closed spec fn paths(&self) -> Map<Seq<Seq<u8>>, usize> {
        node_paths(self.root)
    }

    /// The registered leaves, by tag.
    pub closed spec fn leaves(&self) -> Seq<L> {
        self.data@
    }

    /// Whether any leaf is registered.
    pub closed spec fn has_leaves(&self) -> bool {
        self.root->Directory_0 is Cons
    }

    /// The shape that `build` gives the group.
    pub closed spec fn spec_shape(&self) -> GroupNode {
        spec_build(self.root)
    }

    /// The shape a builder gives its group depends only on the paths
    /// registered in it, not on the order of the `insert` calls.
    pub proof fn lemma_shape_from_paths(a: &Self, b: &Self)
        requires
            a.inv(),
            b.inv(),
            a.has_leaves(),
            a.paths() == b.paths(),
        ensures
            same_shape(a.spec_shape(), b.spec_shape()),
    {
        lemma_node_unique(a.root, b.root);
        lemma_build_same(a.root, b.root);
    }

    pub fn new() -> (r: Self)
        ensures
            r.paths() == Map::<Seq<Seq<u8>>, usize>::empty(),
            r.leaves() == Seq::<L>::empty(),
            !r.has_leaves(),
    {
        let r = GroupBuilder { root: GroupBuilderNode::Directory(DirList::Nil), data: Vec::new() };
        assert(r.paths() =~= Map::<Seq<Seq<u8>>, usize>::empty());
        r
    }

    /// Registers `data` at `path`; its tag is the number of leaves registered
    /// before it.
    pub fn insert(self, path: Vec<String>, data: L) -> (r: Self)
        requires
            path_free(self.paths(), path@.map_values(|s: String| s.label())),
        ensures
            r.paths() == self.paths().insert(
                path@.map_values(|s: String| s.label()),
                self.leaves().len() as usize,
            ),
            r.leaves() == self.leaves().push(data),
            r.has_leaves(),
    {
        proof {
            use_type_invariant(&self);
        }
        let labels = path_labels(&path);
        let GroupBuilder { root, data: mut leaves } = self;
        let t = leaves.len();
        assert(segs(labels@).subrange(0, labels@.len() as int) =~= segs(labels@));
        proof {
            lemma_accepts_free(root, segs(labels@), 0);
            lemma_node_tags_grow(root, leaves@.len(), t as nat + 1);
        }
        let root = root.insert(&labels, 0, t);
        leaves.push(data);
        GroupBuilder { root, data: leaves }
    }

    /// The group: the shape of the directories, each level folded into a
    /// balanced tree of forks, with ids assigned.
    pub fn build(self) -> (r: Group<L>)
        requires
            self.has_leaves(),
        ensures
            r.leaves() == self.leaves(),
            crate::group::same_shape(r.shape(), self.spec_shape()),
            r.shape().id == 0,
            crate::group::numbering(r.shape(), 0).0,
            forall|t: int|
                0 <= t < self.leaves().len() ==> #[trigger] r.dependencies_of(t) == (if crate::group::dep_paths(
                    r.shape(),
                    Seq::empty(),
                ).contains_key(t as usize) {
                    crate::group::dep_paths(r.shape(), Seq::empty())[t as usize]
                } else {
                    Seq::empty()
                }),
    {
        proof {
            use_type_invariant(&self);
        }
        let GroupBuilder { root, data } = self;
        proof {
            lemma_build_tags(root, data@.len());
        }
        let shape = root.build();
        Group::init(shape, data)
    }
}

} // verus!
