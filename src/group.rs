use crate::as_hash_tree::AsHashTree;
use crate::hashtree::{
    empty_hash, fork_hash, labeled_hash, lemma_prunes_hash, lemma_prunes_refl, prunes, tree_hash,
    HashBytes, HashTree, TreeModel,
};
use vstd::prelude::*;

verus! {

/// Identifies a node of a group's shape tree.
pub type NodeId = u64;

/// A node of the shape of a group: it says where each leaf stands, not what
/// it holds.
pub struct GroupNode {
    pub id: NodeId,
    pub data: GroupNodeInner,
}

pub enum GroupNodeInner {
    Fork(Box<GroupNode>, Box<GroupNode>),
    Labeled(Vec<u8>, Box<GroupNode>),
    /// The leaf registered under this tag.
    Leaf(usize),
}

/// Several certified leaves under one root hash. Leaf `t` is `data[t]`; the
/// shape tree places it.
pub struct Group<L> {
    pub(crate) root: GroupNode,
    pub(crate) data: Vec<L>,
    /// For each leaf tag, the ids of the nodes from the root down to its leaf.
    pub(crate) dependencies: Vec<Vec<NodeId>>,
}

/// A witness under construction: the nodes to keep, and the tree to show at
/// each selected leaf.
pub struct Ray<'a, L: AsHashTree> {
    group: &'a Group<L>,
    to_visit: Vec<NodeId>,
    leaves: Vec<Option<HashTree>>,
}

/// A leaf of one of two kinds; nest it for more.
pub enum GroupLeaf<A, B> {
    First(A),
    Second(B),
}

/// The hash tree of a shape over the given leaves. A tag with no leaf stands
/// for an empty tree.
pub open spec fn node_tree<L: AsHashTree>(n: GroupNode, data: Seq<L>) -> TreeModel
    decreases n,
{
    match n.data {
        GroupNodeInner::Fork(a, b) => TreeModel::Fork(
            Box::new(node_tree(*a, data)),
            Box::new(node_tree(*b, data)),
        ),
        GroupNodeInner::Labeled(l, c) => TreeModel::Labeled(l@, Box::new(node_tree(*c, data))),
        GroupNodeInner::Leaf(t) => if t < data.len() {
            data[t as int].tree()
        } else {
            TreeModel::Empty
        },
    }
}

/// Every leaf of `n` has a tag below `k`.
pub open spec fn tags_below(n: GroupNode, k: nat) -> bool
    decreases n,
{
    match n.data {
        GroupNodeInner::Fork(a, b) => tags_below(*a, k) && tags_below(*b, k),
        GroupNodeInner::Labeled(_, c) => tags_below(*c, k),
        GroupNodeInner::Leaf(t) => t < k,
    }
}

/// The witness of a shape: a node whose id is not kept is pruned; a selected
/// leaf shows its chosen tree, any other leaf is pruned.
pub open spec fn node_witness<L: AsHashTree>(
    n: GroupNode,
    keep: Set<NodeId>,
    chosen: Seq<Option<TreeModel>>,
    data: Seq<L>,
) -> TreeModel
    decreases n,
{
    if !keep.contains(n.id) {
        TreeModel::Pruned(tree_hash(node_tree(n, data)))
    } else {
        match n.data {
            GroupNodeInner::Fork(a, b) => TreeModel::Fork(
                Box::new(node_witness(*a, keep, chosen, data)),
                Box::new(node_witness(*b, keep, chosen, data)),
            ),
            GroupNodeInner::Labeled(l, c) => TreeModel::Labeled(
                l@,
                Box::new(node_witness(*c, keep, chosen, data)),
            ),
            GroupNodeInner::Leaf(t) => if t < chosen.len() && chosen[t as int] is Some {
                chosen[t as int]->Some_0
            } else {
                TreeModel::Pruned(tree_hash(node_tree(n, data)))
            },
        }
    }
}

/// The tags of the leaves that a witness shows unpruned.
pub open spec fn shown_leaves(n: GroupNode, keep: Set<NodeId>, chosen: Seq<Option<TreeModel>>) -> Set<
    usize,
>
    decreases n,
{
    if !keep.contains(n.id) {
        Set::empty()
    } else {
        match n.data {
            GroupNodeInner::Fork(a, b) => shown_leaves(*a, keep, chosen).union(
                shown_leaves(*b, keep, chosen),
            ),
            GroupNodeInner::Labeled(l, c) => shown_leaves(*c, keep, chosen),
            GroupNodeInner::Leaf(t) => if t < chosen.len() && chosen[t as int] is Some {
                set![t]
            } else {
                Set::empty()
            },
        }
    }
}

/// The chosen tree of each selected leaf is a pruning of that leaf's tree.
pub open spec fn chosen_valid<L: AsHashTree>(chosen: Seq<Option<TreeModel>>, data: Seq<L>) -> bool {
    forall|t: int|
        0 <= t < chosen.len() && #[trigger] chosen[t] is Some ==> t < data.len() && prunes(
            chosen[t]->Some_0,
            data[t].tree(),
        )
}

/// A witness built from valid choices is a pruning of the full tree, so it
/// reconstructs to the same root hash, whichever nodes it keeps.
pub proof fn lemma_witness_sound<L: AsHashTree>(
    n: GroupNode,
    keep: Set<NodeId>,
    chosen: Seq<Option<TreeModel>>,
    data: Seq<L>,
)
    requires
        chosen_valid(chosen, data),
    ensures
        prunes(node_witness(n, keep, chosen, data), node_tree(n, data)),
        tree_hash(node_witness(n, keep, chosen, data)) == tree_hash(node_tree(n, data)),
    decreases n,
{
    if keep.contains(n.id) {
        match n.data {
            GroupNodeInner::Fork(a, b) => {
                lemma_witness_sound(*a, keep, chosen, data);
                lemma_witness_sound(*b, keep, chosen, data);
            },
            GroupNodeInner::Labeled(l, c) => {
                lemma_witness_sound(*c, keep, chosen, data);
            },
            GroupNodeInner::Leaf(t) => {},
        }
    }
    lemma_prunes_hash(node_witness(n, keep, chosen, data), node_tree(n, data));
}

/// A witness shows unpruned only the leaves that were selected.
pub proof fn lemma_witness_minimal(n: GroupNode, keep: Set<NodeId>, chosen: Seq<Option<TreeModel>>)
    ensures
        forall|t: usize| #[trigger]
            shown_leaves(n, keep, chosen).contains(t) ==> t < chosen.len() && chosen[t as int] is Some,
    decreases n,
{
    assert forall|u: usize| #[trigger]
        shown_leaves(n, keep, chosen).contains(u) implies u < chosen.len() && chosen[u as int] is Some by {
        if keep.contains(n.id) {
            match n.data {
                GroupNodeInner::Fork(a, b) => {
                    lemma_witness_minimal(*a, keep, chosen);
                    lemma_witness_minimal(*b, keep, chosen);
                    assert(shown_leaves(*a, keep, chosen).contains(u) || shown_leaves(
                        *b,
                        keep,
                        chosen,
                    ).contains(u));
                },
                GroupNodeInner::Labeled(l, c) => {
                    lemma_witness_minimal(*c, keep, chosen);
                    assert(shown_leaves(*c, keep, chosen).contains(u));
                },
                GroupNodeInner::Leaf(t) => {
                    assert(u == t);
                },
            }
        }
    }
}

impl GroupNode {
    /// Assigns ids in pre-order from `id` on, records the path of ids down to
    /// each leaf in `dependencies`, and returns the node with the next free id.
    fn visit_node(
        self,
        id: NodeId,
        dependencies: &mut Vec<Vec<NodeId>>,
        path: &mut Vec<NodeId>,
    ) -> (r: (GroupNode, NodeId))
        ensures
            r.0.id == id,
            numbering(r.0, id) == (true, r.1),
            same_shape(r.0, self),
            recorded(old(dependencies)@, final(dependencies)@, dep_paths(r.0, old(path)@)),
            final(path)@ == old(path)@,
        decreases self,
    {
        let GroupNode { id: _, data } = self;
        match data {
            GroupNodeInner::Fork(left, right) => {
                path.push(id);
                let (l, next_id) = (*left).visit_node(next(id), dependencies, path);
                let (r, next_id) = (*right).visit_node(next_id, dependencies, path);
                let ghost here = path@;
                path.pop();
                assert(path@ =~= old(path)@);
                let node = GroupNode { id, data: GroupNodeInner::Fork(Box::new(l), Box::new(r)) };
                assert(here == old(path)@.push(id));
                assert(dep_paths(node, old(path)@) == dep_paths(l, here).union_prefer_right(
                    dep_paths(r, here),
                ));
                (node, next_id)
            },
            GroupNodeInner::Leaf(tid) => {
                path.push(id);
                let ghost here = path@;
                if tid < dependencies.len() {
                    let p = copy_ids(path);
                    dependencies.set(tid, p);
                }
                path.pop();
                assert(path@ =~= old(path)@);
                let node = GroupNode { id, data: GroupNodeInner::Leaf(tid) };
                assert(dep_paths(node, old(path)@) == map![tid => here]);
                (node, next(id))
            },
            GroupNodeInner::Labeled(label, node) => {
                path.push(id);
                let (n, next_id) = (*node).visit_node(next(id), dependencies, path);
                let ghost here = path@;
                path.pop();
                assert(path@ =~= old(path)@);
                let node = GroupNode { id, data: GroupNodeInner::Labeled(label, Box::new(n)) };
                assert(dep_paths(node, old(path)@) == dep_paths(n, here));
                (node, next_id)
            },
        }
    }
}

/// For each leaf tag below `n`, the ids from the root down to its leaf, when
/// the ids above `n` are `prefix`. A tag that occurs twice keeps its last path.
pub open spec fn dep_paths(n: GroupNode, prefix: Seq<NodeId>) -> Map<usize, Seq<NodeId>>
    decreases n,
{
    match n.data {
        GroupNodeInner::Fork(a, b) => dep_paths(*a, prefix.push(n.id)).union_prefer_right(
            dep_paths(*b, prefix.push(n.id)),
        ),
        GroupNodeInner::Labeled(_, c) => dep_paths(*c, prefix.push(n.id)),
        GroupNodeInner::Leaf(t) => map![t => prefix.push(n.id)],
    }
}

/// `deps` after recording the paths of `m` over `old`, for the tags it has room for.
pub open spec fn recorded(old: Seq<Vec<NodeId>>, deps: Seq<Vec<NodeId>>, m: Map<usize, Seq<NodeId>>) -> bool {
    &&& deps.len() == old.len()
    &&& forall|t: int|
        0 <= t < deps.len() ==> (#[trigger] deps[t])@ == (if m.contains_key(t as usize) {
            m[t as usize]
        } else {
            old[t]@
        })
}

/// The id after `i`; the last id is never passed.
pub open spec fn next_id(i: NodeId) -> NodeId {
    if i < u64::MAX {
        (i + 1) as NodeId
    } else {
        i
    }
}

/// Whether the ids of `n` run in pre-order from `start`, and the id that
/// follows the last of them.
pub open spec fn numbering(n: GroupNode, start: NodeId) -> (bool, NodeId)
    decreases n,
{
    match n.data {
        GroupNodeInner::Fork(a, b) => {
            let (ok_a, after_a) = numbering(*a, next_id(start));
            let (ok_b, after_b) = numbering(*b, after_a);
            (n.id == start && ok_a && ok_b, after_b)
        },
        GroupNodeInner::Labeled(_, c) => {
            let (ok_c, after_c) = numbering(*c, next_id(start));
            (n.id == start && ok_c, after_c)
        },
        GroupNodeInner::Leaf(_) => (n.id == start, next_id(start)),
    }
}

/// Two shape trees that differ in their ids alone.
pub open spec fn same_shape(a: GroupNode, b: GroupNode) -> bool
    decreases a,
{
    match a.data {
        GroupNodeInner::Fork(a1, a2) => match b.data {
            GroupNodeInner::Fork(b1, b2) => same_shape(*a1, *b1) && same_shape(*a2, *b2),
            _ => false,
        },
        GroupNodeInner::Labeled(l, a1) => match b.data {
            GroupNodeInner::Labeled(m, b1) => l@ == m@ && same_shape(*a1, *b1),
            _ => false,
        },
        GroupNodeInner::Leaf(t) => b.data == GroupNodeInner::Leaf(t),
    }
}

/// The id after `id`.
fn next(id: NodeId) -> (r: NodeId)
    ensures
        r == next_id(id),
{
    if id < u64::MAX {
        id + 1
    } else {
        id
    }
}

fn copy_ids(v: &Vec<NodeId>) -> (r: Vec<NodeId>)
    ensures
        r@ == v@,
{
    let mut r: Vec<NodeId> = Vec::new();
    let mut i: usize = 0;
    while i < v.len()
        invariant
            i <= v@.len(),
            r@ == v@.subrange(0, i as int),
        decreases v@.len() - i,
    {
        r.push(v[i]);
        i = i + 1;
        assert(r@ =~= v@.subrange(0, i as int));
    }
    assert(r@ =~= v@);
    r
}

fn node_root_hash<L: AsHashTree>(n: &GroupNode, data: &Vec<L>) -> (r: HashBytes)
    ensures
        r@ == tree_hash(node_tree(*n, data@)),
    decreases n,
{
    match &n.data {
        GroupNodeInner::Fork(a, b) => {
            let ha = node_root_hash(a, data);
            let hb = node_root_hash(b, data);
            let r = fork_hash(&ha, &hb);
            assert(r@ == tree_hash(
                TreeModel::Fork(Box::new(node_tree(**a, data@)), Box::new(node_tree(**b, data@))),
            ));
            r
        },
        GroupNodeInner::Labeled(l, c) => {
            let hc = node_root_hash(c, data);
            let r = labeled_hash(l.as_slice(), &hc);
            assert(r@ == tree_hash(TreeModel::Labeled(l@, Box::new(node_tree(**c, data@)))));
            r
        },
        GroupNodeInner::Leaf(t) => {
            if *t < data.len() {
                data[*t].root_hash()
            } else {
                empty_hash()
            }
        },
    }
}

fn node_witness_all<L: AsHashTree>(n: &GroupNode, data: &Vec<L>) -> (r: HashTree)
    ensures
        r@ == node_tree(*n, data@),
    decreases n,
{
    match &n.data {
        GroupNodeInner::Fork(a, b) => {
            let ta = node_witness_all(a, data);
            let tb = node_witness_all(b, data);
            HashTree::Fork(Box::new(ta), Box::new(tb))
        },
        GroupNodeInner::Labeled(l, c) => {
            let tc = node_witness_all(c, data);
            HashTree::Labeled(crate::hashtree::copy_bytes(l), Box::new(tc))
        },
        GroupNodeInner::Leaf(t) => {
            if *t < data.len() {
                data[*t].as_hash_tree()
            } else {
                HashTree::Empty
            }
        },
    }
}

/// The models of the chosen trees.
pub open spec fn chosen_models(v: Seq<Option<HashTree>>) -> Seq<Option<TreeModel>> {
    v.map_values(
        |o: Option<HashTree>|
            match o {
                Some(t) => Some(t@),
                None => None,
            },
    )
}

fn contains_id(ids: &Vec<NodeId>, id: NodeId) -> (r: bool)
    ensures
        r == ids@.contains(id),
{
    let mut i: usize = 0;
    while i < ids.len()
        invariant
            i <= ids@.len(),
            forall|j: int| 0 <= j < i ==> ids@[j] != id,
        decreases ids@.len() - i,
    {
        if ids[i] == id {
            return true;
        }
        i = i + 1;
    }
    false
}

fn build_witness<L: AsHashTree>(
    n: &GroupNode,
    keep: &Vec<NodeId>,
    chosen: &Vec<Option<HashTree>>,
    data: &Vec<L>,
) -> (r: HashTree)
    ensures
        r@ == node_witness(*n, keep@.to_set(), chosen_models(chosen@), data@),
    decreases n,
{
    if !contains_id(keep, n.id) {
        return HashTree::Pruned(node_root_hash(n, data));
    }
    match &n.data {
        GroupNodeInner::Fork(a, b) => {
            let ta = build_witness(a, keep, chosen, data);
            let tb = build_witness(b, keep, chosen, data);
            HashTree::Fork(Box::new(ta), Box::new(tb))
        },
        GroupNodeInner::Labeled(l, c) => {
            let tc = build_witness(c, keep, chosen, data);
            HashTree::Labeled(crate::hashtree::copy_bytes(l), Box::new(tc))
        },
        GroupNodeInner::Leaf(t) => {
            if *t < chosen.len() {
                match &chosen[*t] {
                    Some(x) => {
                        return x.duplicate();
                    },
                    None => {},
                }
            }
            HashTree::Pruned(node_root_hash(n, data))
        },
    }
}

impl<L: AsHashTree> Group<L> {
    /// The leaves, by tag.
    pub closed spec fn leaves(&self) -> Seq<L> {
        self.data@
    }

    /// The shape tree.
    pub closed spec fn shape(&self) -> GroupNode {
        self.root
    }

    /// The ids of the nodes from the root down to the leaf tagged `t`.
    pub closed spec fn dependencies_of(&self, t: int) -> Seq<NodeId> {
        if 0 <= t < self.dependencies@.len() {
            self.dependencies@[t]@
        } else {
            Seq::empty()
        }
    }

    /// The number of leaves.
    pub fn leaf_count(&self) -> (r: usize)
        ensures
            r == self.leaves().len(),
    {
        self.data.len()
    }

    /// A group of the given shape over the given leaves: assigns the node
    /// ids and records each leaf's path of ids.
    pub fn init(root: GroupNode, data: Vec<L>) -> (r: Self)
        requires
            tags_below(root, data@.len()),
        ensures
            r.leaves() == data@,
            same_shape(r.shape(), root),
            r.shape().id == 0,
            numbering(r.shape(), 0).0,
            forall|t: int|
                0 <= t < data@.len() ==> #[trigger] r.dependencies_of(t) == (if dep_paths(
                    r.shape(),
                    Seq::empty(),
                ).contains_key(t as usize) {
                    dep_paths(r.shape(), Seq::empty())[t as usize]
                } else {
                    Seq::empty()
                }),
    {
        let mut deps: Vec<Vec<NodeId>> = Vec::new();
        let mut i: usize = 0;
        while i < data.len()
            invariant
                i <= data@.len(),
                deps@.len() == i,
                forall|j: int| 0 <= j < i ==> (#[trigger] deps@[j])@ == Seq::<NodeId>::empty(),
            decreases data@.len() - i,
        {
            deps.push(Vec::new());
            i = i + 1;
        }
        let mut path: Vec<NodeId> = Vec::new();
        let (root, _) = root.visit_node(0, &mut deps, &mut path);
        assert(path@ == Seq::<NodeId>::empty());
        Group { root, data, dependencies: deps }
    }

    /// Starts a witness of this group with no leaf selected.
    pub fn witness(&self) -> (r: Ray<'_, L>)
        ensures
            r.group() == self,
            r.keep() == Set::<NodeId>::empty(),
            r.chosen() == Seq::new(self.leaves().len(), |i: int| None::<TreeModel>),
    {
        Ray::new(self)
    }

    /// The leaf tagged `t`.
    pub fn get(&self, t: usize) -> (r: &L)
        requires
            t < self.leaves().len(),
        ensures
            *r == self.leaves()[t as int],
    {
        &self.data[t]
    }

    /// The leaf tagged `t`, to change in place.
    pub fn get_mut(&mut self, t: usize) -> (r: &mut L)
        requires
            t < old(self).leaves().len(),
        ensures
            *r == old(self).leaves()[t as int],
            final(self).leaves() == old(self).leaves().update(t as int, *final(r)),
            final(self).shape() == old(self).shape(),
    {
        &mut self.data[t]
    }
}

impl<L: AsHashTree> AsHashTree for Group<L> {
    open spec fn tree(&self) -> TreeModel {
        node_tree(self.shape(), self.leaves())
    }

    fn root_hash(&self) -> (r: HashBytes) {
        node_root_hash(&self.root, &self.data)
    }

    fn as_hash_tree(&self) -> (r: HashTree) {
        node_witness_all(&self.root, &self.data)
    }
}

impl<'a, L: AsHashTree> Ray<'a, L> {
    #[verifier::type_invariant]
    closed spec fn inv(&self) -> bool {
        self.leaves@.len() == self.group.data@.len()
    }

    pub closed spec fn group(&self) -> &'a Group<L> {
        self.group
    }

    /// The ids of the nodes to keep.
    pub closed spec fn keep(&self) -> Set<NodeId> {
        self.to_visit@.to_set()
    }

    /// The tree chosen for each leaf tag, if any.
    pub closed spec fn chosen(&self) -> Seq<Option<TreeModel>> {
        chosen_models(self.leaves@)
    }

    /// The witness that `build` will return.
    pub open spec fn spec_build(&self) -> TreeModel {
        node_witness(self.group().shape(), self.keep(), self.chosen(), self.group().leaves())
    }

    fn new(group: &'a Group<L>) -> (r: Self)
        ensures
            r.group() == group,
            r.keep() == Set::<NodeId>::empty(),
            r.chosen() == Seq::new(group.leaves().len(), |i: int| None::<TreeModel>),
    {
        let mut leaves: Vec<Option<HashTree>> = Vec::new();
        let mut i: usize = 0;
        while i < group.data.len()
            invariant
                i <= group.data@.len(),
                leaves@.len() == i,
                forall|j: int| 0 <= j < i ==> leaves@[j] is None,
            decreases group.data@.len() - i,
        {
            leaves.push(None);
            i = i + 1;
        }
        let r = Ray { group, to_visit: Vec::new(), leaves };
        assert(r.keep() =~= Set::<NodeId>::empty());
        assert(r.chosen() =~= Seq::new(group.leaves().len(), |i: int| None::<TreeModel>));
        r
    }

    /// Builds the witness.
    pub fn build(self) -> (r: HashTree)
        ensures
            r@ == node_witness(self.group().shape(), self.keep(), self.chosen(), self.group().leaves()),
            r@ == self.spec_build(),
    {
        build_witness(&self.group.root, &self.to_visit, &self.leaves, &self.group.data)
    }

    fn select(self, t: usize, tree: HashTree) -> (r: Self)
        requires
            t < self.chosen().len(),
        ensures
            r.group() == self.group(),
            r.keep() == self.keep().union(self.group().dependencies_of(t as int).to_set()),
            r.chosen() == self.chosen().update(t as int, Some(tree@)),
    {
        proof {
            use_type_invariant(&self);
        }
        let Ray { group, to_visit, leaves } = self;
        let mut to_visit = to_visit;
        let mut leaves = leaves;
        assert(chosen_models(leaves@).len() == leaves@.len());
        let ghost old_keep = to_visit@;
        let ghost old_leaves = leaves@;
        let g = group;
        if t < g.dependencies.len() {
            let deps = &g.dependencies[t];
            let mut i: usize = 0;
            while i < deps.len()
                invariant
                    group == g,
                    leaves@ == old_leaves,
                    old_leaves.len() == chosen_models(old_leaves).len(),
                    t < old_leaves.len(),
                    i <= deps@.len(),
                    to_visit@ == old_keep + deps@.subrange(0, i as int),
                decreases deps@.len() - i,
            {
                to_visit.push(deps[i]);
                i = i + 1;
                assert(to_visit@ =~= old_keep + deps@.subrange(0, i as int));
            }
            assert(deps@.subrange(0, i as int) =~= deps@);
            assert(to_visit@.to_set() =~= old_keep.to_set().union(deps@.to_set())) by {
                assert forall|x: NodeId| to_visit@.contains(x) <==> (old_keep.contains(x)
                    || deps@.contains(x)) by {
                    if to_visit@.contains(x) {
                        let k = choose|k: int| 0 <= k < to_visit@.len() && to_visit@[k] == x;
                        if k >= old_keep.len() {
                            assert(deps@[k - old_keep.len()] == x);
                        }
                    }
                    if deps@.contains(x) {
                        let k = choose|k: int| 0 <= k < deps@.len() && deps@[k] == x;
                        assert(to_visit@[old_keep.len() + k] == x);
                    }
                    if old_keep.contains(x) {
                        let k = choose|k: int| 0 <= k < old_keep.len() && old_keep[k] == x;
                        assert(to_visit@[k] == x);
                    }
                }
            }
        } else {
            assert(group.dependencies_of(t as int).to_set() =~= Set::<NodeId>::empty());
            assert(to_visit@.to_set().union(Set::<NodeId>::empty()) =~= to_visit@.to_set());
        }
        let ghost tm = tree@;
        leaves.set(t, Some(tree));
        assert forall|i: int| 0 <= i < leaves@.len() implies chosen_models(leaves@)[i]
            == chosen_models(old_leaves).update(t as int, Some(tm))[i] by {
            if i != t {
                assert(leaves@[i] == old_leaves[i]);
            }
        }
        assert(chosen_models(leaves@) =~= chosen_models(old_leaves).update(t as int, Some(tm)));
        Ray { group, to_visit, leaves }
    }

    /// Whatever nodes a ray keeps, when each chosen tree is a pruning of its
    /// leaf's tree the witness it builds is a pruning of the group's full
    /// tree, and reconstructs to the group's root hash.
    pub proof fn lemma_build_sound(&self)
        requires
            chosen_valid(self.chosen(), self.group().leaves()),
        ensures
            prunes(self.spec_build(), self.group().tree()),
            tree_hash(self.spec_build()) == tree_hash(self.group().tree()),
    {
        lemma_witness_sound(self.group.root, self.keep(), self.chosen(), self.group.data@);
    }

    /// The witness a ray builds shows unpruned only the leaves selected with
    /// `full` or `partial`; every other leaf is at most a hash.
    pub proof fn lemma_build_minimal(&self)
        ensures
            forall|t: usize| #[trigger]
                shown_leaves(self.group().shape(), self.keep(), self.chosen()).contains(t) ==> t
                    < self.chosen().len() && self.chosen()[t as int] is Some,
    {
        lemma_witness_minimal(self.group.root, self.keep(), self.chosen());
    }

    /// Selecting a leaf in full keeps the choices valid.
    pub proof fn lemma_full_keeps_valid(&self, t: int)
        requires
            chosen_valid(self.chosen(), self.group().leaves()),
            0 <= t < self.group().leaves().len(),
            self.chosen().len() == self.group().leaves().len(),
        ensures
            chosen_valid(
                self.chosen().update(t, Some(self.group().leaves()[t].tree())),
                self.group().leaves(),
            ),
    {
        lemma_prunes_refl(self.group().leaves()[t].tree());
    }

    /// Shows the leaf tagged `t` in full.
    pub fn full(self, t: usize) -> (r: Self)
        requires
            t < self.group().leaves().len(),
        ensures
            r.chosen().len() == r.group().leaves().len(),
            r.group() == self.group(),
            r.keep() == self.keep().union(self.group().dependencies_of(t as int).to_set()),
            r.chosen() == self.chosen().update(t as int, Some(self.group().leaves()[t as int].tree())),
    {
        proof {
            use_type_invariant(&self);
        }
        let tree = self.group.data[t].as_hash_tree();
        self.select(t, tree)
    }

    /// Shows the leaf tagged `t` through `tree`, a witness of that leaf.
    pub fn partial(self, t: usize, tree: HashTree) -> (r: Self)
        requires
            t < self.group().leaves().len(),
        ensures
            r.chosen().len() == r.group().leaves().len(),
            r.group() == self.group(),
            r.keep() == self.keep().union(self.group().dependencies_of(t as int).to_set()),
            r.chosen() == self.chosen().update(t as int, Some(tree@)),
    {
        proof {
            use_type_invariant(&self);
        }
        self.select(t, tree)
    }
}

impl<A: AsHashTree, B: AsHashTree> GroupLeaf<A, B> {
    /// Whether this leaf is of the first kind.
    pub fn is(&self) -> (r: bool)
        ensures
            r == self is First,
    {
        match self {
            GroupLeaf::First(_) => true,
            GroupLeaf::Second(_) => false,
        }
    }
}

impl<A: AsHashTree, B: AsHashTree> AsHashTree for GroupLeaf<A, B> {
    open spec fn tree(&self) -> TreeModel {
        match self {
            GroupLeaf::First(a) => a.tree(),
            GroupLeaf::Second(b) => b.tree(),
        }
    }

    fn as_hash_tree(&self) -> (r: HashTree) {
        match self {
            GroupLeaf::First(a) => a.as_hash_tree(),
            GroupLeaf::Second(b) => b.as_hash_tree(),
        }
    }

    fn root_hash(&self) -> (r: HashBytes) {
        match self {
            GroupLeaf::First(a) => a.root_hash(),
            GroupLeaf::Second(b) => b.root_hash(),
        }
    }
}

} // verus!
