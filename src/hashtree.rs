use sha2::Digest;
use vstd::prelude::*;

verus! {

/// A 32-byte SHA-256 digest.
pub type HashBytes = [u8; 32];

/// The SHA-256 digest of a byte sequence.
pub uninterp spec fn sha256_of(data: Seq<u8>) -> Seq<u8>;

/// Relies on `sha2::Sha256::digest`: the SHA-256 digest of `data`, which
/// depends on the bytes alone.
#[verifier::external_body]
fn sha256(data: &Vec<u8>) -> (r: HashBytes)
    ensures
        r@ == sha256_of(data@),
{
    sha2::Sha256::digest(data.as_slice()).into()
}

/// A (possibly pruned) Merkle tree.
#[derive(Debug)]
pub enum HashTree {
    Empty,
    Fork(Box<HashTree>, Box<HashTree>),
    Labeled(Vec<u8>, Box<HashTree>),
    Leaf(Vec<u8>),
    Pruned(HashBytes),
}

/// The mathematical value of a [`HashTree`]: the same shape, with byte
/// sequences in place of vectors and arrays.
pub enum TreeModel {
    Empty,
    Fork(Box<TreeModel>, Box<TreeModel>),
    Labeled(Seq<u8>, Box<TreeModel>),
    Leaf(Seq<u8>),
    Pruned(Seq<u8>),
}

impl View for HashTree {
    type V = TreeModel;

    open spec fn view(&self) -> TreeModel
        decreases self,
    {
        match self {
            HashTree::Empty => TreeModel::Empty,
            HashTree::Fork(a, b) => TreeModel::Fork(Box::new((**a).view()), Box::new((**b).view())),
            HashTree::Labeled(l, c) => TreeModel::Labeled(l@, Box::new((**c).view())),
            HashTree::Leaf(b) => TreeModel::Leaf(b@),
            HashTree::Pruned(h) => TreeModel::Pruned(h@),
        }
    }
}

pub open spec fn empty_sep() -> Seq<u8> {
    seq![17u8, 105, 99, 45, 104, 97, 115, 104, 116, 114, 101, 101, 45, 101, 109, 112, 116, 121]
}

pub open spec fn leaf_sep() -> Seq<u8> {
    seq![16u8, 105, 99, 45, 104, 97, 115, 104, 116, 114, 101, 101, 45, 108, 101, 97, 102]
}

pub open spec fn labeled_sep() -> Seq<u8> {
    seq![19u8, 105, 99, 45, 104, 97, 115, 104, 116, 114, 101, 101, 45, 108, 97, 98, 101, 108, 101, 100]
}

pub open spec fn fork_sep() -> Seq<u8> {
    seq![16u8, 105, 99, 45, 104, 97, 115, 104, 116, 114, 101, 101, 45, 102, 111, 114, 107]
}

/// The hash that a tree reconstructs to.
pub open spec fn tree_hash(t: TreeModel) -> Seq<u8>
    decreases t,
{
    match t {
        TreeModel::Empty => sha256_of(empty_sep()),
        TreeModel::Fork(a, b) => sha256_of(fork_sep() + tree_hash(*a) + tree_hash(*b)),
        TreeModel::Labeled(l, c) => sha256_of(labeled_sep() + l + tree_hash(*c)),
        TreeModel::Leaf(v) => sha256_of(leaf_sep() + v),
        TreeModel::Pruned(h) => h,
    }
}

/// `w` is `t` with zero or more subtrees replaced by `Pruned` nodes that carry
/// the subtree's hash.
pub open spec fn prunes(w: TreeModel, t: TreeModel) -> bool
    decreases w,
{
    match w {
        TreeModel::Pruned(h) => h == tree_hash(t),
        TreeModel::Fork(a, b) => match t {
            TreeModel::Fork(c, d) => prunes(*a, *c) && prunes(*b, *d),
            _ => false,
        },
        TreeModel::Labeled(l, a) => match t {
            TreeModel::Labeled(m, c) => l == m && prunes(*a, *c),
            _ => false,
        },
        _ => w == t,
    }
}

/// Pruning never changes the hash a tree reconstructs to.
pub proof fn lemma_prunes_hash(w: TreeModel, t: TreeModel)
    requires
        prunes(w, t),
    ensures
        tree_hash(w) == tree_hash(t),
    decreases w,
{
    match w {
        TreeModel::Fork(a, b) => {
            if let TreeModel::Fork(c, d) = t {
                lemma_prunes_hash(*a, *c);
                lemma_prunes_hash(*b, *d);
            }
        },
        TreeModel::Labeled(l, a) => {
            if let TreeModel::Labeled(m, c) = t {
                lemma_prunes_hash(*a, *c);
            }
        },
        _ => {},
    }
}

/// Every tree is a pruning of itself.
pub proof fn lemma_prunes_refl(t: TreeModel)
    ensures
        prunes(t, t),
    decreases t,
{
    match t {
        TreeModel::Fork(a, b) => {
            lemma_prunes_refl(*a);
            lemma_prunes_refl(*b);
        },
        TreeModel::Labeled(l, a) => {
            lemma_prunes_refl(*a);
        },
        _ => {},
    }
}

/// Whether `x` stands, unpruned, somewhere in `w`.
pub open spec fn shows(w: TreeModel, x: TreeModel) -> bool
    decreases w,
{
    w == x || match w {
        TreeModel::Fork(a, b) => shows(*a, x) || shows(*b, x),
        TreeModel::Labeled(l, a) => shows(*a, x),
        _ => false,
    }
}

fn append_bytes(buf: &mut Vec<u8>, bytes: &[u8])
    ensures
        final(buf)@ == old(buf)@ + bytes@,
{
    let mut i: usize = 0;
    while i < bytes.len()
        invariant
            i <= bytes@.len(),
            buf@ == old(buf)@ + bytes@.subrange(0, i as int),
        decreases bytes@.len() - i,
    {
        buf.push(bytes[i]);
        i = i + 1;
        assert(bytes@.subrange(0, i as int) == bytes@.subrange(0, i - 1) + seq![bytes@[i - 1]]);
    }
    assert(bytes@.subrange(0, bytes@.len() as int) == bytes@);
}

fn sep_bytes(kind: u8) -> (r: Vec<u8>)
    requires
        kind < 4,
    ensures
        kind == 0 ==> r@ == empty_sep(),
        kind == 1 ==> r@ == leaf_sep(),
        kind == 2 ==> r@ == labeled_sep(),
        kind == 3 ==> r@ == fork_sep(),
{
    let mut r: Vec<u8> = Vec::new();
    if kind == 0 {
        r.push(17u8);
    } else if kind == 1 || kind == 3 {
        r.push(16u8);
    } else {
        r.push(19u8);
    }
    let common: [u8; 12] = [105, 99, 45, 104, 97, 115, 104, 116, 114, 101, 101, 45];
    append_bytes(&mut r, &common);
    if kind == 0 {
        let tail: [u8; 5] = [101, 109, 112, 116, 121];
        append_bytes(&mut r, &tail);
    } else if kind == 1 {
        let tail: [u8; 4] = [108, 101, 97, 102];
        append_bytes(&mut r, &tail);
    } else if kind == 2 {
        let tail: [u8; 7] = [108, 97, 98, 101, 108, 101, 100];
        append_bytes(&mut r, &tail);
    } else {
        let tail: [u8; 4] = [102, 111, 114, 107];
        append_bytes(&mut r, &tail);
    }
    assert(r@ =~= (if kind == 0 {
        empty_sep()
    } else if kind == 1 {
        leaf_sep()
    } else if kind == 2 {
        labeled_sep()
    } else {
        fork_sep()
    }));
    r
}

/// The hash of an empty tree.
pub fn empty_hash() -> (r: HashBytes)
    ensures
        r@ == tree_hash(TreeModel::Empty),
{
    sha256(&sep_bytes(0))
}

/// The hash of a leaf holding `v`.
pub fn leaf_hash(v: &[u8]) -> (r: HashBytes)
    ensures
        r@ == tree_hash(TreeModel::Leaf(v@)),
{
    let mut buf = sep_bytes(1);
    append_bytes(&mut buf, v);
    sha256(&buf)
}

/// The hash of a labeled node, from the label and the child's hash.
pub fn labeled_hash(label: &[u8], child: &HashBytes) -> (r: HashBytes)
    ensures
        forall|c: TreeModel|
            tree_hash(c) == child@ ==> r@ == #[trigger] tree_hash(TreeModel::Labeled(label@, Box::new(c))),
{
    let mut buf = sep_bytes(2);
    append_bytes(&mut buf, label);
    append_bytes(&mut buf, child);
    sha256(&buf)
}

/// The hash of a fork, from the hashes of its two children.
pub fn fork_hash(left: &HashBytes, right: &HashBytes) -> (r: HashBytes)
    ensures
        forall|a: TreeModel, b: TreeModel|
            tree_hash(a) == left@ && tree_hash(b) == right@ ==> r@ == #[trigger] tree_hash(
                TreeModel::Fork(Box::new(a), Box::new(b)),
            ),
{
    let mut buf = sep_bytes(3);
    append_bytes(&mut buf, left);
    append_bytes(&mut buf, right);
    sha256(&buf)
}

impl HashTree {
    /// The root hash this tree stands for.
    pub fn reconstruct(&self) -> (r: HashBytes)
        ensures
            r@ == tree_hash(self@),
        decreases self,
    {
        match self {
            HashTree::Empty => empty_hash(),
            HashTree::Fork(a, b) => {
                let ha = a.reconstruct();
                let hb = b.reconstruct();
                let r = fork_hash(&ha, &hb);
                assert(r@ == tree_hash(TreeModel::Fork(Box::new(a@), Box::new(b@))));
                r
            },
            HashTree::Labeled(l, c) => {
                let hc = c.reconstruct();
                let r = labeled_hash(l.as_slice(), &hc);
                assert(r@ == tree_hash(TreeModel::Labeled(l@, Box::new(c@))));
                r
            },
            HashTree::Leaf(v) => leaf_hash(v.as_slice()),
            HashTree::Pruned(h) => *h,
        }
    }

    /// A copy of this tree.
    pub fn duplicate(&self) -> (r: HashTree)
        ensures
            r@ == self@,
        decreases self,
    {
        match self {
            HashTree::Empty => HashTree::Empty,
            HashTree::Fork(a, b) => HashTree::Fork(Box::new(a.duplicate()), Box::new(b.duplicate())),
            HashTree::Labeled(l, c) => HashTree::Labeled(copy_bytes(l), Box::new(c.duplicate())),
            HashTree::Leaf(v) => HashTree::Leaf(copy_bytes(v)),
            HashTree::Pruned(h) => HashTree::Pruned(*h),
        }
    }

    /// This tree with every node replaced by a `Pruned` node carrying its hash.
    pub fn pruned(&self) -> (r: HashTree)
        ensures
            r@ == TreeModel::Pruned(tree_hash(self@)),
    {
        HashTree::Pruned(self.reconstruct())
    }
}

/// A copy of a byte vector.
pub fn copy_bytes(v: &Vec<u8>) -> (r: Vec<u8>)
    ensures
        r@ == v@,
{
    let mut r: Vec<u8> = Vec::new();
    append_bytes(&mut r, v.as_slice());
    assert(r@ =~= v@);
    r
}

} // verus!
