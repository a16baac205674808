use crate::hashtree::{lemma_prunes_refl, prunes, shows, tree_hash, HashTree, TreeModel};
use vstd::prelude::*;

verus! {

/// The models of a sequence of hash trees.
pub open spec fn models(v: Seq<HashTree>) -> Seq<TreeModel> {
    v.map_values(|t: HashTree| t@)
}

/// The balanced hash tree over `items[lo..hi]`: the middle item stands between
/// the trees over the items below and above it.
pub open spec fn shape(items: Seq<TreeModel>, lo: int, hi: int) -> TreeModel
    decreases hi - lo,
{
    if lo >= hi {
        TreeModel::Empty
    } else {
        let mid = lo + (hi - lo) / 2;
        TreeModel::Fork(
            Box::new(shape(items, lo, mid)),
            Box::new(TreeModel::Fork(Box::new(items[mid]), Box::new(shape(items, mid + 1, hi)))),
        )
    }
}

/// Builds `shape(items, lo, hi)`.
pub fn build_shape(items: &Vec<HashTree>, lo: usize, hi: usize) -> (r: HashTree)
    requires
        lo <= hi <= items@.len(),
    ensures
        r@ == shape(models(items@), lo as int, hi as int),
    decreases hi - lo,
{
    if lo >= hi {
        HashTree::Empty
    } else {
        let mid = lo + (hi - lo) / 2;
        let left = build_shape(items, lo, mid);
        let right = build_shape(items, mid + 1, hi);
        let item = items[mid].duplicate();
        assert(models(items@)[mid as int] == items@[mid as int]@);
        let inner = HashTree::Fork(Box::new(item), Box::new(right));
        assert(inner@ == TreeModel::Fork(Box::new(item@), Box::new(right@)));
        HashTree::Fork(Box::new(left), Box::new(inner))
    }
}

/// The witness within `shape(items, lo, hi)` that shows the items with an
/// index in `a..=b`: a subtree that holds none of them is pruned to its hash,
/// and every item outside the range is pruned.
pub open spec fn range_witness(items: Seq<TreeModel>, lo: int, hi: int, a: int, b: int) -> TreeModel
    decreases hi - lo,
{
    if lo >= hi {
        TreeModel::Empty
    } else if b < lo || a >= hi || a > b {
        TreeModel::Pruned(tree_hash(shape(items, lo, hi)))
    } else {
        let mid = lo + (hi - lo) / 2;
        TreeModel::Fork(
            Box::new(range_witness(items, lo, mid, a, b)),
            Box::new(
                TreeModel::Fork(
                    Box::new(
                        if a <= mid <= b {
                            items[mid]
                        } else {
                            TreeModel::Pruned(tree_hash(items[mid]))
                        },
                    ),
                    Box::new(range_witness(items, mid + 1, hi, a, b)),
                ),
            ),
        )
    }
}

/// Builds `range_witness(items, lo, hi, a, b)`.
pub fn witness_range(items: &Vec<HashTree>, lo: usize, hi: usize, a: usize, b: usize) -> (r: HashTree)
    requires
        lo <= hi <= items@.len(),
    ensures
        r@ == range_witness(models(items@), lo as int, hi as int, a as int, b as int),
        prunes(r@, shape(models(items@), lo as int, hi as int)),
        forall|k: int| lo <= k < hi && a <= k <= b ==> shows(r@, #[trigger] items@[k]@),
    decreases hi - lo,
{
    if lo >= hi {
        return HashTree::Empty;
    }
    if b < lo || a >= hi || a > b {
        let full = build_shape(items, lo, hi);
        return full.pruned();
    }
    let mid = lo + (hi - lo) / 2;
    let ghost m = models(items@);
    assert(m[mid as int] == items@[mid as int]@);
    let left = witness_range(items, lo, mid, a, b);
    let right = witness_range(items, mid + 1, hi, a, b);
    let item = if a <= mid && mid <= b {
        let t = items[mid].duplicate();
        proof {
            lemma_prunes_refl(t@);
        }
        assert(prunes(t@, m[mid as int]));
        t
    } else {
        let t = items[mid].pruned();
        assert(prunes(t@, m[mid as int]));
        t
    };
    let ghost item_model = item@;
    let inner = HashTree::Fork(Box::new(item), Box::new(right));
    assert(inner@ == TreeModel::Fork(Box::new(item_model), Box::new(right@)));
    assert(prunes(inner@, TreeModel::Fork(Box::new(m[mid as int]), Box::new(shape(m, mid + 1, hi as int)))));
    let r = HashTree::Fork(Box::new(left), Box::new(inner));
    assert(r@ == TreeModel::Fork(Box::new(left@), Box::new(inner@)));
    assert(prunes(r@, shape(m, lo as int, hi as int)));
    assert forall|k: int| lo <= k < hi && a <= k <= b implies shows(r@, #[trigger] items@[k]@) by {
        if k < mid {
            assert(shows(left@, items@[k]@));
        } else if k == mid {
            assert(shows(item_model, items@[k]@));
            assert(shows(inner@, items@[k]@));
        } else {
            assert(shows(right@, items@[k]@));
            assert(shows(inner@, items@[k]@));
        }
    }
    r
}

} // verus!
