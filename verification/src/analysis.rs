//! Metrics of a compiled model: per tree, its size, depth and how well its
//! nodes pair up in cache lines; per cell, the sums over its trees.

use vstd::prelude::*;

use crate::compiler::tree_partition::{chunk_start, depth_ends, has_depth, lemma_chunk_start, max_int, sat_add, tree_depth, tree_max_depth};
use crate::model::acyclic::{
    check_tree_acyclic, dfs_outcome, lemma_in_bounds_reached, passes_before, reach_ends, tree_failure, tree_is_acyclic, tree_passes,
    trees_in_bounds,
};
use crate::model::{first_node_at, lemma_headers_from_bounds, tree_at, tree_header_indices, tree_headers_of, tree_len_at, Model, Node};
use crate::Error;

verus! {

/// Metrics of one tree.
pub struct TreeMetadata {
    pub index: usize,
    pub size: usize,
    pub depth: usize,
    pub good_pairs: usize,
    pub guaranteed: usize,
    pub cache_lines: usize,
    pub padding: usize,
    pub cell_header: bool,
}

/// Metrics of one cell: sums over its trees.
pub struct CellMetadata {
    pub index: usize,
    pub num_trees: usize,
    pub required_capacity: usize,
    pub max_depth: usize,
    pub good_pairs: usize,
    pub guaranteed_pairs: usize,
    pub cache_lines: usize,
    pub padding: usize,
}

/// Metrics of a compiled model.
pub struct AnalysisResults {
    pub num_trees: u32,
    pub num_features: u16,
    pub num_targets: u16,
    pub used_cells: u8,
    pub total_nodes: usize,
    pub total_size_bytes: usize,
    pub max_tree_size: usize,
    pub max_tree_depth: usize,
    pub trees: Vec<TreeMetadata>,
    pub cells: Vec<CellMetadata>,
}

/// Counts over the first `n` nodes of a tree whose node 0 is its header: the
/// good pairs (a line whose second node is a pointer child of its first, or
/// a header followed by the first branch), the guaranteed one-cycle lines
/// (such a pair whose other child is a prediction), the cache lines (nodes at
/// even positions) and the padding nodes.
pub open spec fn pair_counts(tree: Seq<Node>, n: int) -> (int, int, int, int)
    decreases n,
{
    if n <= 0 {
        (0, 0, 0, 0)
    } else {
        let prev = pair_counts(tree, n - 1);
        let i = n - 1;
        let node = tree[i];
        let pad = if node.spec_is_padding() { prev.3 + 1 } else { prev.3 };
        let at_header = i == 0 && node.header().first_node_idx == 1;
        let g1 = if at_header { prev.0 + 1 } else { prev.0 };
        let u1 = if at_header { prev.1 + 1 } else { prev.1 };
        if i % 2 != 0 {
            (g1, u1, prev.2, pad)
        } else {
            let b = node.branch();
            let left_pairs = !b.flags.spec_left_prediction() && b.left == i + 1;
            let right_pairs = !b.flags.spec_right_prediction() && b.right == i + 1;
            let g2 = if left_pairs { g1 + 1 } else { g1 };
            let u2 = if left_pairs && b.flags.spec_right_prediction() { u1 + 1 } else { u1 };
            let g3 = if right_pairs { g2 + 1 } else { g2 };
            let u3 = if right_pairs && b.flags.spec_left_prediction() { u2 + 1 } else { u2 };
            (g3, u3, prev.2 + 1, pad)
        }
    }
}

proof fn lemma_pair_counts_bounds(tree: Seq<Node>, n: int)
    requires
        n >= 0,
    ensures
        0 <= pair_counts(tree, n).0 <= 3 * n,
        0 <= pair_counts(tree, n).1 <= 3 * n,
        0 <= pair_counts(tree, n).2 <= n,
        0 <= pair_counts(tree, n).3 <= n,
    decreases n,
{
    if n > 0 {
        lemma_pair_counts_bounds(tree, n - 1);
    }
}

/// The counts only grow as more nodes are counted.
proof fn lemma_pair_counts_grow(tree: Seq<Node>, m: int, n: int)
    requires
        0 <= m <= n,
    ensures
        pair_counts(tree, m).0 <= pair_counts(tree, n).0,
        pair_counts(tree, m).1 <= pair_counts(tree, n).1,
    decreases n - m,
{
    if m < n {
        lemma_pair_counts_grow(tree, m, n - 1);
    }
}

/// A tree whose header names node 1 as its first branch shares its first
/// cache line between the header and that branch: that line counts as a
/// good pair and as a guaranteed one-cycle line, so the tree has at least
/// one of each, whatever its other nodes hold.
pub proof fn lemma_header_line_counts(tree: Seq<Node>)
    requires
        tree.len() > 0,
        tree[0].header().first_node_idx == 1,
    ensures
        pair_counts(tree, tree.len() as int).0 >= 1,
        pair_counts(tree, tree.len() as int).1 >= 1,
{
    assert(pair_counts(tree, 0) == (0int, 0int, 0int, 0int));
    assert(pair_counts(tree, 1).0 >= 1 && pair_counts(tree, 1).1 >= 1);
    lemma_pair_counts_grow(tree, 1, tree.len() as int);
}

/// A line whose first node (at an even position `i`) has node `i + 1` as a
/// pointer child, left or right, is a good pair; when the branch's other
/// child is a prediction it is also a guaranteed one-cycle line.
pub proof fn lemma_line_pair_counts(tree: Seq<Node>, i: int)
    requires
        0 <= i < tree.len(),
        i % 2 == 0,
        crate::model::acyclic::points_to(tree[i].branch(), i + 1),
    ensures
        pair_counts(tree, i + 1).0 >= pair_counts(tree, i).0 + 1,
        (tree[i].branch().flags.spec_left_prediction() || tree[i].branch().flags.spec_right_prediction()) ==> pair_counts(
            tree,
            i + 1,
        ).1 >= pair_counts(tree, i).1 + 1,
{
}

/// The cache lines counted over the first `n` nodes are the lines that
/// those nodes start: one per two nodes, rounded up.
pub proof fn lemma_cache_lines_count(tree: Seq<Node>, n: int)
    requires
        n >= 0,
    ensures
        pair_counts(tree, n).2 == (n + 1) / 2,
    decreases n,
{
    if n > 0 {
        lemma_cache_lines_count(tree, n - 1);
    }
}

/// In an analysis, each tree whose header names node 1 as its first branch
/// has at least one good pair and one guaranteed one-cycle line.
pub proof fn lemma_analysis_header_pairs(m: Model, a: AnalysisResults, i: int)
    requires
        analysis_ok(m, a),
        0 <= i < a.trees@.len(),
        tree_at(m.nodes@, tree_headers_of(m.nodes@)[i] as int).len() > 0,
        tree_at(m.nodes@, tree_headers_of(m.nodes@)[i] as int)[0].header().first_node_idx == 1,
    ensures
        a.trees@[i].good_pairs >= 1,
        a.trees@[i].guaranteed >= 1,
{
    let tree = tree_at(m.nodes@, tree_headers_of(m.nodes@)[i] as int);
    assert(tree_meta_ok(a.trees@[i], i, tree));
    lemma_header_line_counts(tree);
}

/// `m` holds the metrics of `tree`, the `i`-th tree of the model.
pub open spec fn tree_meta_ok(m: TreeMetadata, i: int, tree: Seq<Node>) -> bool {
    let c = pair_counts(tree, tree.len() as int);
    &&& m.index == i
    &&& m.size == tree.len()
    &&& m.depth == tree_depth(tree, tree[0].header().first_node_idx as int)
    &&& m.good_pairs == c.0
    &&& m.guaranteed == c.1
    &&& m.cache_lines == c.2
    &&& m.padding == c.3
    &&& m.cell_header == (tree[0].header().cache_metadata.0 > 0)
}

/// Sums of the trees' metrics (saturated at `usize::MAX`): depths, sizes,
/// good pairs, guaranteed lines, cache lines and padding.
pub open spec fn meta_sums(ts: Seq<TreeMetadata>) -> (int, int, int, int, int, int)
    decreases ts.len(),
{
    if ts.len() == 0 {
        (0, 0, 0, 0, 0, 0)
    } else {
        let p = meta_sums(ts.drop_last());
        let m = ts.last();
        (
            sat_add(p.0, m.depth as int),
            sat_add(p.1, m.size as int),
            sat_add(p.2, m.good_pairs as int),
            sat_add(p.3, m.guaranteed as int),
            sat_add(p.4, m.cache_lines as int),
            sat_add(p.5, m.padding as int),
        )
    }
}

proof fn lemma_meta_sums_bounds(ts: Seq<TreeMetadata>)
    ensures
        0 <= meta_sums(ts).0 <= usize::MAX,
        0 <= meta_sums(ts).1 <= usize::MAX,
        0 <= meta_sums(ts).2 <= usize::MAX,
        0 <= meta_sums(ts).3 <= usize::MAX,
        0 <= meta_sums(ts).4 <= usize::MAX,
        0 <= meta_sums(ts).5 <= usize::MAX,
    decreases ts.len(),
{
    if ts.len() > 0 {
        lemma_meta_sums_bounds(ts.drop_last());
    }
}

/// The cells met among the first `q` tree headers `hs`: for each cell header
/// (a header with non-zero cache metadata) at position `p`, the number `k` of
/// trees it takes (its metadata, or the headers left from it if fewer) and
/// the index of its first tree among the trees counted so far; and the
/// number of trees the cells take in all.
pub open spec fn cell_plan(nodes: Seq<Node>, hs: Seq<usize>, q: int) -> (Seq<(int, int, int)>, int)
    decreases q,
{
    if q <= 0 {
        (Seq::empty(), 0)
    } else {
        let prev = cell_plan(nodes, hs, q - 1);
        let p = q - 1;
        let num = nodes[hs[p] as int].header().cache_metadata.0 as int;
        if num > 0 {
            let k = if num <= hs.len() - p { num } else { hs.len() - p };
            (prev.0.push((p, k, prev.1)), prev.1 + k)
        } else {
            prev
        }
    }
}

/// `m` holds the metrics of cell `c`, which takes `k` trees from tree `from`.
pub open spec fn cell_meta_ok(m: CellMetadata, c: int, ts: Seq<TreeMetadata>, plan: (int, int, int)) -> bool {
    let k = plan.1;
    let from = plan.2;
    let s = meta_sums(ts.subrange(from, from + k));
    &&& m.index == c
    &&& m.num_trees == k
    &&& m.max_depth == s.0
    &&& m.required_capacity == s.1
    &&& m.good_pairs == s.2
    &&& m.guaranteed_pairs == s.3
    &&& m.cache_lines == s.4
    &&& m.padding == s.5
}

/// The largest tree size.
pub open spec fn max_size(ts: Seq<TreeMetadata>) -> int
    decreases ts.len(),
{
    if ts.len() == 0 {
        0
    } else {
        max_int(max_size(ts.drop_last()), ts.last().size as int)
    }
}

/// The largest tree depth.
pub open spec fn max_depth_of(ts: Seq<TreeMetadata>) -> int
    decreases ts.len(),
{
    if ts.len() == 0 {
        0
    } else {
        max_int(max_depth_of(ts.drop_last()), ts.last().depth as int)
    }
}

/// `a` holds the metrics of the model `m`.
/// The tree at header `h` can be analyzed: its header at an even index, its
/// first branch within the tree, and every path from that branch ending.
pub open spec fn tree_analyzable(nodes: Seq<Node>, h: int) -> bool {
    &&& h % 2 == 0
    &&& first_node_at(nodes, h) < tree_len_at(nodes, h)
    &&& exists|fuel: nat| reach_ends(tree_at(nodes, h), first_node_at(nodes, h), fuel)
}

/// What analysing the tree at header `h` gives when it cannot be analyzed:
/// misaligned data for an odd header index, a malformed forest for a first
/// branch beyond the tree, else the outcome of the search from that branch.
pub open spec fn tree_analysis_check(nodes: Seq<Node>, h: int, r: Result<(), Error>) -> bool {
    if h % 2 != 0 {
        r == Err::<(), Error>(Error::MisalignedData)
    } else if first_node_at(nodes, h) >= tree_len_at(nodes, h) {
        r == Err::<(), Error>(Error::MalformedForest)
    } else {
        dfs_outcome(tree_at(nodes, h), nodes.len() as int, first_node_at(nodes, h) as usize, r)
    }
}

/// The error that analysing the model `m` fails with: the first check that
/// fails, in order, decides it (the layout, the trees' acyclicity from their
/// roots, the size in bytes, each tree from its first branch, the cells).
pub open spec fn analysis_failure(m: Model, e: Error) -> bool {
    let nodes = m.nodes@;
    let hs = tree_headers_of(nodes);
    if !(trees_in_bounds(nodes) && hs.len() == m.num_trees.value()) {
        e == Error::MalformedForest
    } else if !passes_before(nodes, hs.len() as int) {
        exists|k: int| 0 <= k < hs.len() && passes_before(nodes, k) && #[trigger] tree_failure(nodes, hs[k] as int, Err::<(), Error>(e))
    } else if 8 * nodes.len() > usize::MAX {
        e == Error::MalformedForest
    } else if !(forall|k: int| 0 <= k < hs.len() ==> tree_analyzable(nodes, #[trigger] hs[k] as int)) {
        exists|k: int|
            0 <= k < hs.len() && (forall|j: int| 0 <= j < k ==> tree_analyzable(nodes, #[trigger] hs[j] as int))
                && tree_analysis_check(nodes, hs[k] as int, Err::<(), Error>(e))
    } else {
        e == Error::MalformedForest
    }
}

/// The model can be analyzed: its trees follow one another within the nodes
/// and their number is the model's, every tree is acyclic and can be
/// analyzed, the size in bytes fits a `usize`, and its cells take no more
/// trees than there are.
pub open spec fn analyzable(m: Model) -> bool {
    let nodes = m.nodes@;
    let hs = tree_headers_of(nodes);
    &&& trees_in_bounds(nodes)
    &&& hs.len() == m.num_trees.value()
    &&& passes_before(nodes, hs.len() as int)
    &&& 8 * nodes.len() <= usize::MAX
    &&& forall|k: int| 0 <= k < hs.len() ==> tree_analyzable(nodes, #[trigger] hs[k] as int)
    &&& cell_plan(nodes, hs, hs.len() as int).1 <= hs.len()
}

pub open spec fn analysis_ok(m: Model, a: AnalysisResults) -> bool {
    let nodes = m.nodes@;
    let hs = tree_headers_of(nodes);
    let ts = a.trees@;
    let plan = cell_plan(nodes, hs, hs.len() as int).0;
    &&& a.num_trees == m.num_trees.value()
    &&& a.num_features == m.num_features
    &&& a.num_targets == m.num_targets
    &&& a.used_cells == m.num_cells
    &&& a.total_nodes == nodes.len()
    &&& a.total_size_bytes == 8 * nodes.len()
    &&& ts.len() == hs.len()
    &&& forall|i: int| 0 <= i < ts.len() ==> tree_meta_ok(#[trigger] ts[i], i, tree_at(nodes, hs[i] as int))
    &&& a.max_tree_size == max_size(ts)
    &&& a.max_tree_depth == max_depth_of(ts)
    &&& a.cells@.len() == plan.len()
    &&& forall|c: int| 0 <= c < plan.len() ==> cell_meta_ok(#[trigger] a.cells@[c], c, ts, plan[c])
}

proof fn lemma_reach_ends_depth(tree: Seq<Node>, idx: int, fuel: nat)
    requires
        reach_ends(tree, idx, fuel),
    ensures
        depth_ends(tree, idx, fuel),
    decreases fuel,
{
    let b = tree[idx].branch();
    if !b.flags.spec_left_prediction() {
        lemma_reach_ends_depth(tree, b.left as int, (fuel - 1) as nat);
    }
    if !b.flags.spec_right_prediction() {
        lemma_reach_ends_depth(tree, b.right as int, (fuel - 1) as nat);
    }
}

/// The pair counts of a tree's nodes.
fn count_pairs(tree: &[Node]) -> (r: (usize, usize, usize, usize))
    requires
        3 * tree@.len() <= usize::MAX,
    ensures
        (r.0 as int, r.1 as int, r.2 as int, r.3 as int) == pair_counts(tree@, tree@.len() as int),
{
    let mut good_pairs: usize = 0;
    let mut guaranteed: usize = 0;
    let mut padding: usize = 0;
    let mut cache_lines: usize = 0;
    let mut i: usize = 0;
    while i < tree.len()
        invariant
            0 <= i <= tree@.len(),
            3 * tree@.len() <= usize::MAX,
            (good_pairs as int, guaranteed as int, cache_lines as int, padding as int) == pair_counts(tree@, i as int),
        decreases tree@.len() - i,
    {
        proof {
            lemma_pair_counts_bounds(tree@, i as int);
        }
        let node = &tree[i];
        if node.is_padding() {
            padding = padding + 1;
        }
        // Check pair in header.
        if i == 0 && node.as_header().first_node_idx() == 1 {
            good_pairs = good_pairs + 1;
            guaranteed = guaranteed + 1;
        }
        if i % 2 == 0 {
            cache_lines = cache_lines + 1;
            let b = node.as_branch();
            if !b.flags().left_prediction() && b.left_ptr() as usize == i + 1 {
                good_pairs = good_pairs + 1;
                if b.flags().right_prediction() {
                    guaranteed = guaranteed + 1;
                }
            }
            if !b.flags().right_prediction() && b.right_ptr() as usize == i + 1 {
                good_pairs = good_pairs + 1;
                if b.flags().left_prediction() {
                    guaranteed = guaranteed + 1;
                }
            }
        }
        i = i + 1;
    }
    (good_pairs, guaranteed, cache_lines, padding)
}

/// The metrics of each tree of the model, in order.
fn analyze_trees(model: &Model) -> (r: Result<Vec<TreeMetadata>, Error>)
    requires
        trees_in_bounds(model.nodes@),
        8 * model.nodes@.len() <= usize::MAX,
    ensures
        r matches Ok(ts) ==> ts@.len() == tree_headers_of(model.nodes@).len() && forall|i: int| 0 <= i < ts@.len() ==> tree_meta_ok(
            #[trigger] ts@[i],
            i,
            tree_at(model.nodes@, tree_headers_of(model.nodes@)[i] as int),
        ),
        r matches Err(e) ==> e is MalformedForest || e is CyclicTree || e is MisalignedData,
        r is Ok <==> forall|k: int| 0 <= k < tree_headers_of(model.nodes@).len() ==> tree_analyzable(
            model.nodes@,
            #[trigger] tree_headers_of(model.nodes@)[k] as int,
        ),
        r is Err ==> exists|k: int|
            0 <= k < tree_headers_of(model.nodes@).len() && (forall|j: int|
                0 <= j < k ==> tree_analyzable(model.nodes@, #[trigger] tree_headers_of(model.nodes@)[j] as int))
                && tree_analysis_check(model.nodes@, tree_headers_of(model.nodes@)[k] as int, Err::<(), Error>(r->Err_0)),
{
    let ghost nodes = model.nodes@;
    let nodes_len = model.nodes.len();
    let hs = tree_header_indices(model.nodes.as_slice());
    proof {
        lemma_headers_from_bounds(nodes, 0);
    }
    let mut ts: Vec<TreeMetadata> = Vec::new();
    let mut i: usize = 0;
    while i < hs.len()
        invariant
            nodes == model.nodes@,
            nodes_len == nodes.len(),
            8 * nodes.len() <= usize::MAX,
            trees_in_bounds(nodes),
            hs@ == tree_headers_of(nodes),
            forall|k: int| 0 <= k < hs@.len() ==> crate::model::chain_ok(nodes, #[trigger] hs@[k] as int) && hs@[k] < nodes.len(),
            0 <= i <= hs@.len(),
            ts@.len() == i,
            forall|k: int| 0 <= k < i ==> tree_meta_ok(#[trigger] ts@[k], k, tree_at(nodes, hs@[k] as int)),
            forall|k: int| 0 <= k < i ==> tree_analyzable(nodes, #[trigger] hs@[k] as int),
        decreases hs@.len() - i,
    {
        let header_idx = hs[i];
        if header_idx % 2 != 0 {
            assert(!tree_analyzable(nodes, hs@[i as int] as int));
            assert(tree_analysis_check(nodes, hs@[i as int] as int, Err::<(), Error>(Error::MisalignedData)));
            return Err(Error::MisalignedData);
        }
        assert(hs@[i as int] + tree_len_at(nodes, hs@[i as int] as int) <= nodes.len());
        assert(crate::model::chain_ok(nodes, hs@[i as int] as int));
        let (header, tree) = model.get_tree(header_idx);
        let counts = count_pairs(tree);
        let first = header.first_node_idx() as usize;
        if first >= tree.len() {
            assert(!tree_analyzable(nodes, hs@[i as int] as int));
            assert(tree_analysis_check(nodes, hs@[i as int] as int, Err::<(), Error>(Error::MalformedForest)));
            return Err(Error::MalformedForest);
        }
        match check_tree_acyclic(tree, first, nodes_len) {
            Ok(()) => {},
            Err(e) => {
                assert(!tree_analyzable(nodes, hs@[i as int] as int));
                assert(tree_analysis_check(nodes, hs@[i as int] as int, Err::<(), Error>(e)));
                return Err(e);
            },
        }
        proof {
            let f = choose|fuel: nat| reach_ends(tree@, first as int, fuel);
            lemma_reach_ends_depth(tree@, first as int, f);
            assert(has_depth(tree@, first as int));
        }
        let depth = tree_max_depth(tree, first);
        let ghost before = ts@;
        ts.push(
            TreeMetadata {
                index: i,
                size: tree.len(),
                depth,
                good_pairs: counts.0,
                guaranteed: counts.1,
                cache_lines: counts.2,
                padding: counts.3,
                cell_header: header.cache_metadata().is_cell_header(),
            },
        );
        proof {
            assert forall|k: int| 0 <= k < i + 1 implies tree_meta_ok(#[trigger] ts@[k], k, tree_at(nodes, hs@[k] as int)) by {
                if k < i {
                    assert(ts@[k] == before[k]);
                }
            }
            assert(tree_analyzable(nodes, hs@[i as int] as int));
        }
        i = i + 1;
    }
    Ok(ts)
}

/// The trees that the cells take only grow as more headers are met.
proof fn lemma_cell_plan_grows(nodes: Seq<Node>, hs: Seq<usize>, p: int, q: int)
    requires
        0 <= p <= q <= hs.len(),
    ensures
        cell_plan(nodes, hs, p).1 <= cell_plan(nodes, hs, q).1,
    decreases q - p,
{
    if p < q {
        lemma_cell_plan_grows(nodes, hs, p, q - 1);
    }
}

/// The sums of the metrics of the trees `from..end` (saturated).
fn sum_metadata(ts: &Vec<TreeMetadata>, from: usize, end: usize) -> (r: (usize, usize, usize, usize, usize, usize))
    requires
        from <= end <= ts@.len(),
    ensures
        (r.0 as int, r.1 as int, r.2 as int, r.3 as int, r.4 as int, r.5 as int) == meta_sums(ts@.subrange(from as int, end as int)),
{
    let mut sums: (usize, usize, usize, usize, usize, usize) = (0, 0, 0, 0, 0, 0);
    let mut j: usize = from;
    while j < end
        invariant
            from <= j <= end <= ts@.len(),
            (sums.0 as int, sums.1 as int, sums.2 as int, sums.3 as int, sums.4 as int, sums.5 as int) == meta_sums(
                ts@.subrange(from as int, j as int),
            ),
        decreases end - j,
    {
        let m = &ts[j];
        proof {
            assert(ts@.subrange(from as int, j + 1).drop_last() =~= ts@.subrange(from as int, j as int));
            assert(ts@.subrange(from as int, j + 1).last() == ts@[j as int]);
        }
        sums = (
            sums.0.saturating_add(m.depth),
            sums.1.saturating_add(m.size),
            sums.2.saturating_add(m.good_pairs),
            sums.3.saturating_add(m.guaranteed),
            sums.4.saturating_add(m.cache_lines),
            sums.5.saturating_add(m.padding),
        );
        j = j + 1;
    }
    sums
}

/// The metrics of each cell: for each cell header, the sums of the metrics of
/// the trees it takes, the trees taken one cell after the other.
fn analyze_cells(nodes: &[Node], hs: &Vec<usize>, ts: &Vec<TreeMetadata>) -> (r: Result<Vec<CellMetadata>, Error>)
    requires
        forall|k: int| 0 <= k < hs@.len() ==> (#[trigger] hs@[k] as int) < nodes@.len(),
    ensures
        r matches Ok(cs) ==> ({
            let plan = cell_plan(nodes@, hs@, hs@.len() as int).0;
            &&& cs@.len() == plan.len()
            &&& forall|c: int| 0 <= c < plan.len() ==> cell_meta_ok(#[trigger] cs@[c], c, ts@, plan[c])
        }),
        r matches Err(e) ==> e is MalformedForest,
        r is Ok <==> cell_plan(nodes@, hs@, hs@.len() as int).1 <= ts@.len(),
{
    let mut cells: Vec<CellMetadata> = Vec::new();
    let mut tree_idx: usize = 0;
    let mut p: usize = 0;
    while p < hs.len()
        invariant
            forall|k: int| 0 <= k < hs@.len() ==> (#[trigger] hs@[k] as int) < nodes@.len(),
            0 <= p <= hs@.len(),
            tree_idx == cell_plan(nodes@, hs@, p as int).1,
            tree_idx <= ts@.len(),
            cells@.len() == cell_plan(nodes@, hs@, p as int).0.len(),
            forall|c: int| 0 <= c < cells@.len() ==> cell_meta_ok(#[trigger] cells@[c], c, ts@, cell_plan(nodes@, hs@, p as int).0[c]),
        decreases hs@.len() - p,
    {
        let ghost prev = cell_plan(nodes@, hs@, p as int);
        let start = hs[p];
        let num = nodes[start].as_header().cache_metadata().0 as usize;
        if num > 0 {
            let remaining = hs.len() - p;
            let k = if num <= remaining { num } else { remaining };
            if k > ts.len() - tree_idx {
                proof {
                    lemma_cell_plan_grows(nodes@, hs@, p + 1, hs@.len() as int);
                }
                return Err(Error::MalformedForest);
            }
            let sums = sum_metadata(ts, tree_idx, tree_idx + k);
            let ghost before = cells@;
            let index = cells.len();
            cells.push(
                CellMetadata {
                    index,
                    num_trees: k,
                    required_capacity: sums.1,
                    max_depth: sums.0,
                    good_pairs: sums.2,
                    guaranteed_pairs: sums.3,
                    cache_lines: sums.4,
                    padding: sums.5,
                },
            );
            proof {
                let next = cell_plan(nodes@, hs@, p + 1);
                assert(next.0 == prev.0.push((p as int, k as int, tree_idx as int)));
                assert forall|c: int| 0 <= c < cells@.len() implies cell_meta_ok(#[trigger] cells@[c], c, ts@, next.0[c]) by {
                    if c < before.len() {
                        assert(cells@[c] == before[c]);
                        assert(next.0[c] == prev.0[c]);
                    }
                }
            }
            tree_idx = tree_idx + k;
        }
        p = p + 1;
    }
    Ok(cells)
}

/// The metrics of each cell when the trees are split evenly between
/// `num_cells` cells, the first cells taking one more tree when they do not
/// divide evenly: the sums of the metrics of each cell's trees.
pub fn even_cells(ts: &Vec<TreeMetadata>, num_cells: usize) -> (r: Vec<CellMetadata>)
    requires
        num_cells > 0,
    ensures
        r@.len() == num_cells,
        forall|c: int| 0 <= c < num_cells ==> cell_meta_ok(
            #[trigger] r@[c],
            c,
            ts@,
            (
                c,
                chunk_start(ts@.len() as int, num_cells as int, c + 1) - chunk_start(ts@.len() as int, num_cells as int, c),
                chunk_start(ts@.len() as int, num_cells as int, c),
            ),
        ),
{
    let n = ts.len();
    let base = n / num_cells;
    let extra = n % num_cells;
    let mut cells: Vec<CellMetadata> = Vec::new();
    let mut from: usize = 0;
    let mut c: usize = 0;
    proof {
        lemma_chunk_start(n as int, num_cells as int, 0);
    }
    while c < num_cells
        invariant
            n == ts@.len(),
            num_cells > 0,
            base == n / num_cells,
            extra == n % num_cells,
            0 <= c <= num_cells,
            from as int == chunk_start(n as int, num_cells as int, c as int),
            cells@.len() == c,
            forall|d: int| 0 <= d < c ==> cell_meta_ok(
                #[trigger] cells@[d],
                d,
                ts@,
                (d, chunk_start(n as int, num_cells as int, d + 1) - chunk_start(n as int, num_cells as int, d), chunk_start(
                    n as int,
                    num_cells as int,
                    d,
                )),
            ),
        decreases num_cells - c,
    {
        proof {
            lemma_chunk_start(n as int, num_cells as int, c as int);
        }
        let k = base + if c < extra { 1 } else { 0 };
        let sums = sum_metadata(ts, from, from + k);
        cells.push(
            CellMetadata {
                index: c,
                num_trees: k,
                required_capacity: sums.1,
                max_depth: sums.0,
                good_pairs: sums.2,
                guaranteed_pairs: sums.3,
                cache_lines: sums.4,
                padding: sums.5,
            },
        );
        from = from + k;
        c = c + 1;
    }
    cells
}

/// Perform an analysis of the model: the metrics of each tree and of each
/// cell, and the largest tree size and depth. A model whose tree layout is
/// broken, with a cycle, a header at an odd index, a first branch outside its
/// tree or a path to padding, or whose cells take more trees than there are,
/// is refused.
#[verifier::spinoff_prover]
#[verifier::rlimit(80)]
pub fn analyze(model: &Model) -> (r: Result<AnalysisResults, Error>)
    ensures
        r matches Ok(a) ==> analysis_ok(*model, a),
        r matches Err(e) ==> e is MalformedForest || e is CyclicTree || e is MisalignedData,
        r is Ok <==> analyzable(*model),
        r matches Err(e) ==> analysis_failure(*model, e),
{
    if !model.layout_ok() {
        return Err(Error::MalformedForest);
    }
    proof {
        lemma_in_bounds_reached(model.nodes@);
    }
    match model.verify_acyclic() {
        Ok(()) => {},
        Err(e) => {
            return Err(e);
        },
    }
    let total_nodes = model.nodes.len();
    let total_size_bytes = match total_nodes.checked_mul(8) {
        Some(b) => b,
        None => {
            return Err(Error::MalformedForest);
        },
    };
    let trees = match analyze_trees(model) {
        Ok(ts) => ts,
        Err(e) => {
            return Err(e);
        },
    };
    let hs = tree_header_indices(model.nodes.as_slice());
    proof {
        lemma_headers_from_bounds(model.nodes@, 0);
    }
    let mut max_tree_size: usize = 0;
    let mut max_tree_depth: usize = 0;
    let mut j: usize = 0;
    while j < trees.len()
        invariant
            0 <= j <= trees@.len(),
            max_tree_size == max_size(trees@.subrange(0, j as int)),
            max_tree_depth == max_depth_of(trees@.subrange(0, j as int)),
        decreases trees@.len() - j,
    {
        proof {
            assert(trees@.subrange(0, j + 1).drop_last() =~= trees@.subrange(0, j as int));
            assert(trees@.subrange(0, j + 1).last() == trees@[j as int]);
        }
        if trees[j].size > max_tree_size {
            max_tree_size = trees[j].size;
        }
        if trees[j].depth > max_tree_depth {
            max_tree_depth = trees[j].depth;
        }
        j = j + 1;
    }
    assert(trees@.subrange(0, trees@.len() as int) =~= trees@);
    let cells = match analyze_cells(model.nodes.as_slice(), &hs, &trees) {
        Ok(cs) => cs,
        Err(e) => {
            return Err(e);
        },
    };
    Ok(
        AnalysisResults {
            num_trees: model.num_trees(),
            num_features: model.num_features(),
            num_targets: model.num_targets(),
            used_cells: model.num_cells(),
            total_nodes,
            total_size_bytes,
            max_tree_size,
            max_tree_depth,
            trees,
            cells,
        },
    )
}

} // verus!
