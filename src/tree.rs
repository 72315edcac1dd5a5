use vstd::prelude::*;
use vstd::seq_lib::lemma_multiset_commutative;

use crate::labels::copy_labels;

verus! {

broadcast use vstd::seq_lib::group_to_multiset_ensures;

/// Mathematical shape of a contraction tree.
pub enum TreeModel {
    Leaf { ids: Seq<char>, tensor_index: int },
    Contract { left: Box<TreeModel>, right: Box<TreeModel> },
}

/// A binary contraction tree: each leaf names one input operand, each
/// internal node combines the result of its left child with that of its right.
pub enum ContractionTree {
    Leaf { ids: Vec<char>, tensor_index: usize },
    Contract { left: Box<ContractionTree>, right: Box<ContractionTree> },
}

impl ContractionTree {
    pub open spec fn model(&self) -> TreeModel
        decreases self,
    {
        match self {
            ContractionTree::Leaf { ids, tensor_index } => TreeModel::Leaf {
                ids: ids@,
                tensor_index: *tensor_index as int,
            },
            ContractionTree::Contract { left, right } => TreeModel::Contract {
                left: Box::new(left.model()),
                right: Box::new(right.model()),
            },
        }
    }
}

/// Operand indices of the leaves, left to right.
pub open spec fn leaves(t: TreeModel) -> Seq<int>
    decreases t,
{
    match t {
        TreeModel::Leaf { tensor_index, .. } => seq![tensor_index],
        TreeModel::Contract { left, right } => leaves(*left) + leaves(*right),
    }
}

/// Number of internal (contraction) nodes.
pub open spec fn internal_count(t: TreeModel) -> nat
    decreases t,
{
    match t {
        TreeModel::Leaf { .. } => 0,
        TreeModel::Contract { left, right } => internal_count(*left) + internal_count(*right) + 1,
    }
}

/// The integers `0, 1, ..., n - 1` in order.
pub open spec fn index_range(n: int) -> Seq<int> {
    Seq::new(n as nat, |i: int| i)
}

/// The starting worklist: one leaf per operand, in operand order.
pub open spec fn leaf_worklist(ids: Seq<Vec<char>>) -> Seq<TreeModel> {
    Seq::new(ids.len(), |i: int| TreeModel::Leaf { ids: ids[i]@, tensor_index: i })
}

pub open spec fn pair_lo(p: [usize; 2]) -> int {
    if p[0] < p[1] { p[0] as int } else { p[1] as int }
}

pub open spec fn pair_hi(p: [usize; 2]) -> int {
    if p[0] < p[1] { p[1] as int } else { p[0] as int }
}

/// A path entry can be applied to a worklist of `len` entries: both removals stay in bounds.
pub open spec fn step_ok(len: int, p: [usize; 2]) -> bool {
    pair_hi(p) < len && pair_lo(p) + 1 < len
}

/// One path entry: remove the higher position, then the lower one, and
/// append their combination (entry at the lower position on the left).
pub open spec fn merge_step(w: Seq<TreeModel>, p: [usize; 2]) -> Seq<TreeModel> {
    let rest = w.remove(pair_hi(p));
    rest.remove(pair_lo(p)).push(
        TreeModel::Contract { left: Box::new(rest[pair_lo(p)]), right: Box::new(w[pair_hi(p)]) },
    )
}

/// Every entry of the path is in bounds for the worklist it is applied to,
/// starting from a worklist of `len` entries.
pub open spec fn path_ok(len: int, path: Seq<[usize; 2]>) -> bool
    decreases path.len(),
{
    if path.len() == 0 {
        true
    } else {
        path_ok(len, path.drop_last()) && step_ok(len - (path.len() - 1), path.last())
    }
}

/// The worklist after applying the entries of `path` in order.
pub open spec fn run_path(w: Seq<TreeModel>, path: Seq<[usize; 2]>) -> Seq<TreeModel>
    decreases path.len(),
{
    if path.len() == 0 {
        w
    } else {
        merge_step(run_path(w, path.drop_last()), path.last())
    }
}

/// All leaf indices of a worklist, entry after entry.
pub open spec fn all_leaves(w: Seq<TreeModel>) -> Seq<int>
    decreases w.len(),
{
    if w.len() == 0 {
        Seq::empty()
    } else {
        all_leaves(w.drop_last()) + leaves(w.last())
    }
}

proof fn lemma_internal_count(t: TreeModel)
    ensures
        internal_count(t) + 1 == leaves(t).len(),
    decreases t,
{
    match t {
        TreeModel::Leaf { .. } => {},
        TreeModel::Contract { left, right } => {
            lemma_internal_count(*left);
            lemma_internal_count(*right);
        },
    }
}

proof fn lemma_all_leaves_remove(w: Seq<TreeModel>, j: int)
    requires
        0 <= j < w.len(),
    ensures
        all_leaves(w).to_multiset() =~= all_leaves(w.remove(j)).to_multiset().add(
            leaves(w[j]).to_multiset(),
        ),
    decreases w.len(),
{
    let r = w.remove(j);
    if j == w.len() - 1 {
        assert(r =~= w.drop_last());
        lemma_multiset_commutative(all_leaves(w.drop_last()), leaves(w.last()));
    } else {
        let d = w.drop_last();
        lemma_all_leaves_remove(d, j);
        assert(r.drop_last() =~= d.remove(j));
        assert(r.last() == w.last());
        lemma_multiset_commutative(all_leaves(d), leaves(w.last()));
        lemma_multiset_commutative(all_leaves(r.drop_last()), leaves(w.last()));
    }
}

proof fn lemma_all_leaves_push(w: Seq<TreeModel>, t: TreeModel)
    ensures
        all_leaves(w.push(t)).to_multiset() =~= all_leaves(w).to_multiset().add(
            leaves(t).to_multiset(),
        ),
{
    assert(w.push(t).drop_last() =~= w);
    lemma_multiset_commutative(all_leaves(w), leaves(t));
}

proof fn lemma_merge_step(w: Seq<TreeModel>, p: [usize; 2])
    requires
        step_ok(w.len() as int, p),
    ensures
        merge_step(w, p).len() == w.len() - 1,
        all_leaves(merge_step(w, p)).to_multiset() =~= all_leaves(w).to_multiset(),
{
    let rest = w.remove(pair_hi(p));
    let lo = pair_lo(p);
    let t = TreeModel::Contract { left: Box::new(rest[lo]), right: Box::new(w[pair_hi(p)]) };
    lemma_all_leaves_remove(w, pair_hi(p));
    lemma_all_leaves_remove(rest, lo);
    lemma_all_leaves_push(rest.remove(lo), t);
    lemma_multiset_commutative(leaves(rest[lo]), leaves(w[pair_hi(p)]));
}

proof fn lemma_all_leaves_initial(ids: Seq<Vec<char>>)
    ensures
        all_leaves(leaf_worklist(ids)) =~= index_range(ids.len() as int),
    decreases ids.len(),
{
    if ids.len() > 0 {
        let d = ids.drop_last();
        lemma_all_leaves_initial(d);
        assert(leaf_worklist(ids).drop_last() =~= leaf_worklist(d));
    }
}

/// Applying a path entry by entry shrinks the worklist by one per entry.
/// So a path whose entries are all in bounds leaves exactly one entry if and
/// only if it has one entry fewer than there are operands; in particular no
/// such path is longer than that.
pub proof fn lemma_worklist_shrinks(ids: Seq<Vec<char>>, path: Seq<[usize; 2]>)
    requires
        path_ok(ids.len() as int, path),
    ensures
        run_path(leaf_worklist(ids), path).len() == ids.len() - path.len(),
        path.len() < ids.len() || (ids.len() == 0 && path.len() == 0),
        run_path(leaf_worklist(ids), path).len() == 1 <==> path.len() + 1 == ids.len(),
        all_leaves(run_path(leaf_worklist(ids), path)).to_multiset() =~= index_range(
            ids.len() as int,
        ).to_multiset(),
    decreases path.len(),
{
    if path.len() == 0 {
        lemma_all_leaves_initial(ids);
    } else {
        lemma_worklist_shrinks(ids, path.drop_last());
        lemma_merge_step(run_path(leaf_worklist(ids), path.drop_last()), path.last());
    }
}

/// A tree built from a complete in-bounds path over `n` operands has `n`
/// leaves, whose operand indices are a permutation of `0..n`, and `n - 1`
/// internal nodes.
pub proof fn lemma_tree_shape(ids: Seq<Vec<char>>, path: Seq<[usize; 2]>)
    requires
        path_ok(ids.len() as int, path),
        path.len() + 1 == ids.len(),
    ensures
        run_path(leaf_worklist(ids), path).len() == 1,
        leaves(run_path(leaf_worklist(ids), path)[0]).to_multiset() =~= index_range(
            ids.len() as int,
        ).to_multiset(),
        leaves(run_path(leaf_worklist(ids), path)[0]).len() == ids.len(),
        internal_count(run_path(leaf_worklist(ids), path)[0]) + 1 == ids.len(),
{
    lemma_worklist_shrinks(ids, path);
    let w = run_path(leaf_worklist(ids), path);
    assert(w.drop_last() =~= Seq::<TreeModel>::empty());
    assert(all_leaves(w.drop_last()) =~= Seq::<int>::empty());
    assert(all_leaves(w) =~= leaves(w[0]));
    assert(leaves(w[0]).to_multiset().len() == leaves(w[0]).len());
    assert(index_range(ids.len() as int).to_multiset().len() == ids.len());
    lemma_internal_count(w[0]);
}

proof fn lemma_path_ok_prefix(len: int, path: Seq<[usize; 2]>, k: int)
    requires
        path_ok(len, path),
        0 <= k <= path.len(),
    ensures
        path_ok(len, path.take(k)),
    decreases path.len() - k,
{
    if k < path.len() {
        lemma_path_ok_prefix(len, path, k + 1);
        assert(path.take(k + 1).drop_last() =~= path.take(k));
    } else {
        assert(path.take(k) =~= path);
    }
}

/// The models of a worklist's entries.
pub open spec fn models(nodes: Seq<ContractionTree>) -> Seq<TreeModel> {
    nodes.map_values(|t: ContractionTree| t.model())
}

/// Tells whether `path` can be applied to `n` operands and leaves exactly
/// one tree: every entry is in bounds and there are `n - 1` entries.
pub fn check_path(n: usize, path: &[[usize; 2]]) -> (r: bool)
    ensures
        r == (path_ok(n as int, path@) && path@.len() + 1 == n),
{
    let mut k: usize = 0;
    while k < path.len()
        invariant
            k <= path.len(),
            path_ok(n as int, path@.take(k as int)),
        decreases path.len() - k,
    {
        let pair = path[k];
        let (lo, hi) = if pair[0] < pair[1] { (pair[0], pair[1]) } else { (pair[1], pair[0]) };
        proof {
            assert(path@.take(k + 1).drop_last() =~= path@.take(k as int));
        }
        if k >= n || hi >= n - k || lo + 1 >= n - k {
            proof {
                if path_ok(n as int, path@) {
                    lemma_path_ok_prefix(n as int, path@, k + 1);
                }
            }
            return false;
        }
        k += 1;
    }
    proof {
        assert(path@.take(k as int) =~= path@);
    }
    path.len() < n && path.len() + 1 == n
}

/// Builds the contraction tree of a path: starting from one leaf per operand,
/// each entry removes the higher and then the lower of its two worklist
/// positions and appends their combination.
pub fn build_contraction_tree(input_indices: &[Vec<char>], path: &[[usize; 2]]) -> (r:
    ContractionTree)
    requires
        path_ok(input_indices@.len() as int, path@),
        path@.len() + 1 == input_indices@.len(),
    ensures
        r.model() == run_path(leaf_worklist(input_indices@), path@)[0],
        leaves(r.model()).to_multiset() =~= index_range(input_indices@.len() as int).to_multiset(),
        leaves(r.model()).len() == input_indices@.len(),
        internal_count(r.model()) + 1 == input_indices@.len(),
{
    let ghost ids = input_indices@;
    let n = input_indices.len();
    let mut nodes: Vec<ContractionTree> = Vec::new();
    let mut k: usize = 0;
    while k < n
        invariant
            ids == input_indices@,
            n == ids.len(),
            k <= n,
            nodes@.len() == k,
            models(nodes@) =~= leaf_worklist(ids).take(k as int),
        decreases n - k,
    {
        let leaf = ContractionTree::Leaf { ids: copy_labels(&input_indices[k]), tensor_index: k };
        assert(leaf.model() == leaf_worklist(ids)[k as int]);
        let ghost before = nodes@;
        nodes.push(leaf);
        assert(nodes@ =~= before.push(leaf));
        assert forall|a: int| 0 <= a < k + 1 implies #[trigger] models(nodes@)[a] == leaf_worklist(
            ids,
        )[a] by {
            if a < k {
                assert(models(before)[a] == leaf_worklist(ids).take(k as int)[a]);
            }
        }
        k += 1;
        assert(models(nodes@) =~= leaf_worklist(ids).take(k as int));
    }
    assert(leaf_worklist(ids).take(n as int) =~= leaf_worklist(ids));
    assert(path@.take(0) =~= Seq::<[usize; 2]>::empty());
    let mut s: usize = 0;
    while s < path.len()
        invariant
            ids == input_indices@,
            s <= path.len(),
            path_ok(ids.len() as int, path@),
            path@.len() + 1 == ids.len(),
            models(nodes@) =~= run_path(leaf_worklist(ids), path@.take(s as int)),
            nodes@.len() == ids.len() - s,
        decreases path.len() - s,
    {
        let pair = path[s];
        let (i, j) = if pair[0] < pair[1] { (pair[0], pair[1]) } else { (pair[1], pair[0]) };
        proof {
            lemma_path_ok_prefix(ids.len() as int, path@, s + 1);
            assert(path@.take(s + 1).drop_last() =~= path@.take(s as int));
            assert(path@.take(s + 1).last() == pair);
        }
        let ghost w = models(nodes@);
        let node_j = nodes.remove(j);
        let node_i = nodes.remove(i);
        nodes.push(ContractionTree::Contract { left: Box::new(node_i), right: Box::new(node_j) });
        s += 1;
        assert(models(nodes@) =~= merge_step(w, pair));
    }
    assert(path@.take(s as int) =~= path@);
    proof {
        lemma_tree_shape(ids, path@);
    }
    let r = nodes.pop().unwrap();
    r
}

} // verus!
