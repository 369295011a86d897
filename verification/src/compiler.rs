use std::collections::HashMap;

use vstd::prelude::*;

pub mod checks;
pub mod fidelity;
pub mod paired;
pub mod tree_compiler;
pub mod tree_partition;

use crate::model;
use crate::model::{header_bytes, CacheMetadata, TreeHeader};
use crate::problem::{map_entries, value_index, ProblemDefinition};
use crate::split::{bf16_le, feature_le};
use tree_compiler::{compiles_tree, lemma_compiled_tree_ok, placed_as, placement_fits, splits_fit, CompileError, PlacementStrategy};
use tree_compiler::orders::tree_is_finite;
use tree_partition::{cells_view, depth_sum, forest_lines, largest_equal_cell, partition_result, trees_view, PartitionStrategy};

verus! {

pub type PredictionOutput = u16;

/// A leaf of a tree: the class it predicts.
#[derive(Clone, Copy, Debug, PartialEq, Eq, Structural)]
pub struct LeafNode {
    pub prediction: PredictionOutput,
}

/// A branch of a tree: the feature it splits on, the split threshold (bf16
/// bits), and the indices of its children within the tree.
#[derive(Clone, Copy, Debug)]
pub struct BranchNode {
    pub split_with: u16,
    pub split_at: u16,
    pub left: usize,
    pub right: usize,
}

/// A node of a tree in the intermediate representation.
#[derive(Clone, Copy, Debug)]
pub enum Node {
    Leaf(LeafNode),
    Branch(BranchNode),
}

impl Node {
    pub fn is_branch(&self) -> (b: bool)
        ensures
            b == (*self is Branch),
    {
        matches!(self, Node::Branch(_))
    }

    pub fn is_leaf(&self) -> (b: bool)
        ensures
            b == (*self is Leaf),
    {
        matches!(self, Node::Leaf(_))
    }

    pub fn as_branch(&self) -> (r: Option<&BranchNode>)
        ensures
            match *self {
                Node::Branch(b) => r == Some(&b),
                Node::Leaf(_) => r is None,
            },
    {
        match self {
            Node::Branch(b) => Some(b),
            _ => None,
        }
    }

    pub fn as_leaf(&self) -> (r: Option<&LeafNode>)
        ensures
            match *self {
                Node::Leaf(l) => r == Some(&l),
                Node::Branch(_) => r is None,
            },
    {
        match self {
            Node::Leaf(l) => Some(l),
            _ => None,
        }
    }
}

/// A tree: its nodes, the root at index 0.
#[derive(Clone, Debug)]
pub struct Tree {
    pub nodes: Vec<Node>,
}

impl Tree {
    pub fn new(nodes: Vec<Node>) -> (t: Self)
        ensures
            t.nodes@ == nodes@,
    {
        Tree { nodes }
    }

    pub fn next_left(&self, branch: &BranchNode) -> (n: &Node)
        requires
            branch.left < self.nodes@.len(),
        ensures
            *n == self.nodes@[branch.left as int],
    {
        &self.nodes[branch.left]
    }

    pub fn next_right(&self, branch: &BranchNode) -> (n: &Node)
        requires
            branch.right < self.nodes@.len(),
        ensures
            *n == self.nodes@[branch.right as int],
    {
        &self.nodes[branch.right]
    }
}

/// The class that a tree predicts for `features` (bf16 bits), walking from
/// node `idx` for at most `fuel` branches: a feature goes left when it is
/// `<=` the split.
pub open spec fn ir_walk(nodes: Seq<Node>, idx: int, features: Seq<u16>, fuel: nat) -> Option<u16>
    decreases fuel,
{
    if fuel == 0 || !(0 <= idx < nodes.len()) {
        None
    } else {
        match nodes[idx] {
            Node::Leaf(l) => Some(l.prediction),
            Node::Branch(b) => {
                if !((b.split_with as int) < features.len()) {
                    None
                } else if bf16_le(features[b.split_with as int], b.split_at) {
                    ir_walk(nodes, b.left as int, features, (fuel - 1) as nat)
                } else {
                    ir_walk(nodes, b.right as int, features, (fuel - 1) as nat)
                }
            },
        }
    }
}

/// Every path from node `idx` ends at a leaf within `fuel` steps, through
/// in-bounds nodes whose split variables are below `num_features`.
pub open spec fn ir_paths_end(nodes: Seq<Node>, idx: int, num_features: nat, fuel: nat) -> bool
    decreases fuel,
{
    fuel > 0 && 0 <= idx < nodes.len() && match nodes[idx] {
        Node::Leaf(_) => true,
        Node::Branch(b) => {
            &&& (b.split_with as int) < num_features
            &&& ir_paths_end(nodes, b.left as int, num_features, (fuel - 1) as nat)
            &&& ir_paths_end(nodes, b.right as int, num_features, (fuel - 1) as nat)
        },
    }
}

pub proof fn lemma_ir_paths_end_walk(nodes: Seq<Node>, idx: int, features: Seq<u16>, fuel: nat)
    requires
        ir_paths_end(nodes, idx, features.len(), fuel),
    ensures
        ir_walk(nodes, idx, features, fuel) is Some,
    decreases fuel,
{
    if let Node::Branch(b) = nodes[idx] {
        lemma_ir_paths_end_walk(nodes, b.left as int, features, (fuel - 1) as nat);
        lemma_ir_paths_end_walk(nodes, b.right as int, features, (fuel - 1) as nat);
    }
}

/// More fuel keeps every path ending, with the same prediction.
pub proof fn lemma_ir_more_fuel(nodes: Seq<Node>, idx: int, features: Seq<u16>, f1: nat, f2: nat)
    requires
        ir_paths_end(nodes, idx, features.len(), f1),
        f1 <= f2,
    ensures
        ir_paths_end(nodes, idx, features.len(), f2),
        ir_walk(nodes, idx, features, f2) == ir_walk(nodes, idx, features, f1),
    decreases f1,
{
    if let Node::Branch(b) = nodes[idx] {
        lemma_ir_more_fuel(nodes, b.left as int, features, (f1 - 1) as nat, (f2 - 1) as nat);
        lemma_ir_more_fuel(nodes, b.right as int, features, (f1 - 1) as nat, (f2 - 1) as nat);
    }
}

/// Any two fuels on which every path ends give the same prediction.
pub proof fn lemma_ir_fuel_independent(nodes: Seq<Node>, idx: int, features: Seq<u16>, f1: nat, f2: nat)
    requires
        ir_paths_end(nodes, idx, features.len(), f1),
        ir_paths_end(nodes, idx, features.len(), f2),
    ensures
        ir_walk(nodes, idx, features, f1) == ir_walk(nodes, idx, features, f2),
{
    if f1 <= f2 {
        lemma_ir_more_fuel(nodes, idx, features, f1, f2);
    } else {
        lemma_ir_more_fuel(nodes, idx, features, f2, f1);
    }
}

/// Every leaf predicts a class below the compiled model's vote table size.
pub open spec fn leaves_fit(nodes: Seq<Node>) -> bool {
    forall|i: int| 0 <= i < nodes.len() && (#[trigger] nodes[i]) is Leaf ==> (nodes[i]->Leaf_0.prediction as int) < crate::model::MAX_NUM_CLASSES
}

/// A tree on which a prediction with `num_features` features runs to its end.
pub open spec fn tree_predicts(t: Seq<Node>, num_features: nat) -> bool {
    exists|fuel: nat| ir_paths_end(t, 0, num_features, fuel)
}

/// The class a tree predicts for `features`.
pub open spec fn tree_prediction(t: Seq<Node>, features: Seq<u16>) -> u16 {
    ir_walk(t, 0, features, choose|fuel: nat| ir_paths_end(t, 0, features.len(), fuel)).unwrap()
}

/// The class predicted by a tree, walking it from its root.
pub fn predict_tree(tree: &Tree, features: &[u16]) -> (c: u16)
    requires
        tree_predicts(tree.nodes@, features@.len()),
    ensures
        c == tree_prediction(tree.nodes@, features@),
{
    let ghost fuel = choose|fuel: nat| ir_paths_end(tree.nodes@, 0, features@.len(), fuel);
    let ghost mut f = fuel;
    let ghost mut idx: int = 0;
    let mut node = &tree.nodes[0];
    proof {
        lemma_ir_paths_end_walk(tree.nodes@, 0, features@, fuel);
    }
    loop
        invariant
            ir_paths_end(tree.nodes@, idx, features@.len(), f),
            *node == tree.nodes@[idx],
            ir_walk(tree.nodes@, idx, features@, f) == ir_walk(tree.nodes@, 0, features@, fuel),
            fuel == choose|fuel: nat| ir_paths_end(tree.nodes@, 0, features@.len(), fuel),
        decreases f,
    {
        match node {
            Node::Branch(b) => {
                assert(tree.nodes@[idx] == Node::Branch(*b));
                assert(ir_paths_end(tree.nodes@, b.left as int, features@.len(), (f - 1) as nat));
                assert(ir_paths_end(tree.nodes@, b.right as int, features@.len(), (f - 1) as nat));
                let test = feature_le(features[b.split_with as usize], b.split_at);
                proof {
                    f = (f - 1) as nat;
                }
                if test {
                    proof {
                        idx = b.left as int;
                    }
                    node = tree.next_left(b);
                } else {
                    proof {
                        idx = b.right as int;
                    }
                    node = tree.next_right(b);
                }
            },
            Node::Leaf(l) => {
                return l.prediction;
            },
        }
    }
}

/// The number of trees among `trees` that predict class `c`.
pub open spec fn count_predictions(trees: Seq<Tree>, features: Seq<u16>, c: u16) -> nat
    decreases trees.len(),
{
    if trees.len() == 0 {
        0
    } else {
        count_predictions(trees.drop_last(), features, c) + (if tree_prediction(trees.last().nodes@, features) == c {
            1nat
        } else {
            0nat
        })
    }
}

/// Every tree of a forest predicts with `num_features` features.
pub open spec fn forest_predicts(trees: Seq<Tree>, num_features: nat) -> bool {
    forall|i: int| 0 <= i < trees.len() ==> tree_predicts(#[trigger] trees[i].nodes@, num_features)
}

/// The vote table of a forest: each class predicted by some tree, with its
/// number of votes.
pub open spec fn vote_table(trees: Seq<Tree>, features: Seq<u16>) -> Map<u16, usize> {
    Map::new(|c: u16| count_predictions(trees, features, c) > 0, |c: u16| count_predictions(trees, features, c) as usize)
}

/// Given a map of class votes, return the best class ID and its number of
/// votes. A tie breaker selects the lowest class index in case of a tie.
pub fn best_result(votes: &HashMap<u16, usize>) -> (r: (u16, usize))
    requires
        votes@.len() > 0,
    ensures
        votes@.contains_key(r.0),
        votes@[r.0] == r.1,
        forall|k: u16| #[trigger] votes@.contains_key(k) ==> votes@[k] <= r.1,
        forall|k: u16| #[trigger] votes@.contains_key(k) && votes@[k] == r.1 ==> r.0 <= k,
{
    let mut best: Option<(u16, usize)> = None;
    for kv in it: votes.iter()
        invariant
            forall|j: int| 0 <= j < it.index() ==> votes@.contains_key(*(#[trigger] it.seq()[j]).0),
            best is None <==> it.index() == 0,
            best matches Some(b) ==> votes@.contains_key(b.0) && votes@[b.0] == b.1
                && forall|j: int| 0 <= j < it.index() ==> {
                    let k = *(#[trigger] it.seq()[j]).0;
                    &&& votes@[k] <= b.1
                    &&& votes@[k] == b.1 ==> b.0 <= k
                },
    {
        let (k, v) = kv;
        best = match best {
            None => Some((*k, *v)),
            Some((bk, bv)) => {
                if *v > bv || (*v == bv && *k < bk) {
                    Some((*k, *v))
                } else {
                    Some((bk, bv))
                }
            },
        };
    }
    best.unwrap()
}

/// A tree that can be placed and compiled: a branch at its root, children
/// within the tree, no cycle, and split variables that the flags hold.
pub open spec fn tree_compilable(t: Seq<Node>) -> bool {
    &&& tree_compiler::ir_tree_wf(t)
    &&& tree_is_finite(t)
    &&& splits_fit(t)
}

/// The nodes of the trees, one after the other.
pub open spec fn concat_trees(s: Seq<Seq<model::Node>>) -> Seq<model::Node>
    decreases s.len(),
{
    if s.len() == 0 {
        Seq::empty()
    } else {
        concat_trees(s.drop_last()) + s.last()
    }
}

/// The nodes of the cells, one after the other.
pub open spec fn concat_cells(s: Seq<Seq<Seq<model::Node>>>) -> Seq<model::Node>
    decreases s.len(),
{
    if s.len() == 0 {
        Seq::empty()
    } else {
        concat_cells(s.drop_last()) + concat_trees(s.last())
    }
}

/// The header of a cell's first tree, marked as the header of a cell of
/// `num_trees` trees.
pub open spec fn cell_header(h: TreeHeader, num_trees: int) -> TreeHeader {
    TreeHeader { cache_metadata: CacheMetadata(num_trees as u16), ..h }
}

/// `marked` is `cell` with the header of its first tree marked as a cell
/// header giving the number of trees in the cell.
pub open spec fn cell_marked(cell: Seq<Seq<model::Node>>, marked: Seq<Seq<model::Node>>) -> bool {
    &&& marked.len() == cell.len()
    &&& forall|k: int| 0 <= k < cell.len() ==> (#[trigger] marked[k]).len() == cell[k].len()
    &&& forall|k: int, j: int| 0 <= k < cell.len() && 0 <= j < cell[k].len() && (k != 0 || j != 0) ==> #[trigger] marked[k][j]
        == cell[k][j]
    &&& cell.len() > 0 && cell[0].len() > 0 ==> marked[0][0].0@ == header_bytes(cell_header(cell[0][0].header(), cell.len() as int))
}

/// `nodes` is the compilation of the trees: each tree compiled from a valid
/// placement, the compiled trees partitioned into `cells` cells with
/// `strategy`, the first header of each cell marked, and the cells laid one
/// after the other.
pub open spec fn compiled_forest(trees: Seq<Tree>, strategy: PartitionStrategy, cells: int, nodes: Seq<model::Node>) -> bool {
    exists|compiled: Seq<Seq<model::Node>>, parts: Seq<Seq<Seq<model::Node>>>, marked: Seq<Seq<Seq<model::Node>>>|
        #![trigger partition_result(strategy, compiled, cells, parts), concat_cells(marked)]
        {
            &&& compiled.len() == trees.len()
            &&& forall|i: int| 0 <= i < trees.len() ==> compiles_tree(#[trigger] trees[i].nodes@, compiled[i])
            &&& partition_result(strategy, compiled, cells, parts)
            &&& marked.len() == parts.len()
            &&& forall|c: int| 0 <= c < parts.len() ==> cell_marked(#[trigger] parts[c], marked[c])
            &&& nodes == concat_cells(marked)
        }
}

/// `nodes` is the forest compiled as `compiled_forest` says, each tree
/// compiled from the placement that `placement` gives.
pub open spec fn compiled_with(
    trees: Seq<Tree>,
    placement: PlacementStrategy,
    strategy: PartitionStrategy,
    cells: int,
    nodes: Seq<model::Node>,
) -> bool {
    exists|compiled: Seq<Seq<model::Node>>, parts: Seq<Seq<Seq<model::Node>>>, marked: Seq<Seq<Seq<model::Node>>>|
        #![trigger partition_result(strategy, compiled, cells, parts), concat_cells(marked)]
        {
            &&& compiled.len() == trees.len()
            &&& forall|i: int| 0 <= i < trees.len() ==> placed_as(placement, #[trigger] trees[i].nodes@, compiled[i])
            &&& partition_result(strategy, compiled, cells, parts)
            &&& marked.len() == parts.len()
            &&& forall|c: int| 0 <= c < parts.len() ==> cell_marked(#[trigger] parts[c], marked[c])
            &&& nodes == concat_cells(marked)
        }
}

/// `cv` holds, for each tree, the tree compiled from the placement that
/// `placement` gives.
pub open spec fn compiled_as(trees: Seq<Tree>, placement: PlacementStrategy, cv: Seq<Seq<model::Node>>) -> bool {
    &&& cv.len() == trees.len()
    &&& forall|i: int| 0 <= i < trees.len() ==> placed_as(placement, #[trigger] trees[i].nodes@, cv[i])
}

/// Whether the greedy partition of the compiled trees `cv` into `cells`
/// cells goes through (`ok`): it fails when the sum of the trees' depths in
/// cache lines overflows a `usize`, and otherwise goes through exactly when
/// every cell of the greedy partition holds at most `0xffff` trees.
pub open spec fn greedy_outcome(cv: Seq<Seq<model::Node>>, cells: int, ok: bool) -> bool {
    if depth_sum(forest_lines(cv)) > usize::MAX {
        !ok
    } else {
        exists|parts: Seq<Seq<Seq<model::Node>>>|
            #[trigger] partition_result(PartitionStrategy::Greedy, cv, cells, parts) && (ok <==> forall|c: int|
                0 <= c < parts.len() ==> (#[trigger] parts[c]).len() <= 0xffff)
    }
}

pub(crate) fn append_nodes(out: &mut Vec<model::Node>, t: &Vec<model::Node>)
    ensures
        final(out)@ == old(out)@ + t@,
{
    let ghost start = out@;
    let mut i: usize = 0;
    while i < t.len()
        invariant
            0 <= i <= t@.len(),
            out@ == start + t@.subrange(0, i as int),
        decreases t@.len() - i,
    {
        out.push(t[i]);
        i = i + 1;
        assert(out@ =~= start + t@.subrange(0, i as int));
    }
    assert(t@.subrange(0, t@.len() as int) =~= t@);
}

/// The cell with the header of its first tree marked with the cell's number
/// of trees.
fn mark_cell(cell: &Vec<Vec<model::Node>>) -> (r: Result<Vec<Vec<model::Node>>, CompileError>)
    ensures
        r matches Ok(m) ==> cell_marked(trees_view(cell@), trees_view(m@)),
        r matches Err(e) ==> e == CompileError::TooManyTreesInCell && cell@.len() > 0xffff,
        r is Ok <==> cell@.len() <= 0xffff,
{
    let ghost cv = trees_view(cell@);
    let ghost n0 = cell@.len();
    let mut cell = tree_partition::copy_forest(cell.as_slice());
    assert(trees_view(cell@) == cv);
    assert(cell@.len() == cv.len() && cv.len() == n0);
    let num_trees = cell.len();
    // Skip empty cells.
    if num_trees < 1 {
        return Ok(cell);
    }
    if num_trees > 0xffff {
        return Err(CompileError::TooManyTreesInCell);
    }
    let ghost before = cell@;
    let mut first_tree = cell.remove(0);
    if first_tree.len() == 0 {
        cell.insert(0, first_tree);
        assert(cell@ =~= before);
        return Ok(cell);
    }
    let mut header = first_tree[0].as_header();
    let metadata = match CacheMetadata::new_cell_header(num_trees as u16) {
        Ok(m) => m,
        Err(_) => {
            return Err(CompileError::TooManyTreesInCell);
        },
    };
    header.set_cache_metadata(metadata);
    let ghost t0 = first_tree@;
    first_tree.set(0, model::Node::from_header(header));
    cell.insert(0, first_tree);
    proof {
        let mv = trees_view(cell@);
        assert(mv[0] == first_tree@);
        assert forall|k: int| 0 < k < cv.len() implies mv[k] == cv[k] by {
            assert(cell@[k] == before[k]);
        }
        assert forall|k: int| 0 <= k < cv.len() implies (#[trigger] mv[k]).len() == cv[k].len() by {}
        assert forall|k: int, j: int| 0 <= k < cv.len() && 0 <= j < cv[k].len() && (k != 0 || j != 0) implies #[trigger] mv[k][j]
            == cv[k][j] by {
            if k == 0 {
                assert(mv[0][j] == t0[j]);
            }
        }
    }
    Ok(cell)
}

/// Append the nodes of each tree of the cell.
fn append_cell(out: &mut Vec<model::Node>, cell: &Vec<Vec<model::Node>>)
    ensures
        final(out)@ == old(out)@ + concat_trees(trees_view(cell@)),
{
    let ghost start = out@;
    let ghost cv = trees_view(cell@);
    let mut k: usize = 0;
    while k < cell.len()
        invariant
            cv == trees_view(cell@),
            0 <= k <= cell@.len(),
            out@ == start + concat_trees(cv.subrange(0, k as int)),
        decreases cell@.len() - k,
    {
        append_nodes(out, &cell[k]);
        proof {
            assert(cv.subrange(0, k + 1).drop_last() =~= cv.subrange(0, k as int));
            assert(cv.subrange(0, k + 1).last() == cell@[k as int]@);
        }
        k = k + 1;
        assert(out@ =~= start + concat_trees(cv.subrange(0, k as int)));
    }
    assert(cv.subrange(0, cv.len() as int) =~= cv);
}

/// Whether the sum of the compiled trees' depths in cache lines fits in a
/// `usize`.
fn depths_fit(compiled_trees: &Vec<Vec<model::Node>>) -> (b: bool)
    requires
        forall|k: int| 0 <= k < compiled_trees@.len() ==> tree_partition::compiled_tree_ok(#[trigger] compiled_trees@[k]@),
    ensures
        b == (depth_sum(forest_lines(trees_view(compiled_trees@))) <= usize::MAX),
{
    let ghost cv = trees_view(compiled_trees@);
    let mut sum: usize = 0;
    let mut k: usize = 0;
    while k < compiled_trees.len()
        invariant
            cv == trees_view(compiled_trees@),
            forall|k: int| 0 <= k < compiled_trees@.len() ==> tree_partition::compiled_tree_ok(#[trigger] compiled_trees@[k]@),
            0 <= k <= cv.len(),
            sum == depth_sum(forest_lines(cv).subrange(0, k as int)),
        decreases cv.len() - k,
    {
        assert(tree_partition::compiled_tree_ok(compiled_trees@[k as int]@));
        let d = tree_partition::tree_max_traversal_depth_superscalar(compiled_trees[k].as_slice(), 0);
        let ghost fl = forest_lines(cv);
        proof {
            assert(fl.subrange(0, k + 1).drop_last() =~= fl.subrange(0, k as int));
            assert(fl[k as int] == d);
        }
        sum = match sum.checked_add(d) {
            Some(s) => s,
            None => {
                proof {
                    tree_partition::lemma_depth_sum_prefix_le(fl, k as int);
                }
                return false;
            },
        };
        k = k + 1;
    }
    assert(forest_lines(cv).subrange(0, cv.len() as int) =~= forest_lines(cv));
    true
}

/// Mark the first header of each cell and lay the cells one after the other.
fn mark_and_merge(cell_chunks: &Vec<Vec<Vec<model::Node>>>) -> (r: Result<Vec<model::Node>, CompileError>)
    ensures
        r matches Ok(nodes) ==> exists|marked: Seq<Seq<Seq<model::Node>>>| #[trigger] concat_cells(marked) == nodes@ && marked.len()
            == cell_chunks@.len() && forall|c: int| 0 <= c < cell_chunks@.len() ==> cell_marked(
            #[trigger] cells_view(cell_chunks@)[c],
            marked[c],
        ),
        r matches Err(e) ==> e == CompileError::TooManyTreesInCell && exists|c: int| 0 <= c < cell_chunks@.len() && (
        #[trigger] cell_chunks@[c])@.len() > 0xffff,
        r is Ok <==> forall|c: int| 0 <= c < cell_chunks@.len() ==> (#[trigger] cell_chunks@[c])@.len() <= 0xffff,
{
    let ghost parts = cells_view(cell_chunks@);
    let mut compiled_nodes: Vec<model::Node> = Vec::new();
    let ghost mut marked: Seq<Seq<Seq<model::Node>>> = Seq::empty();
    let mut c: usize = 0;
    while c < cell_chunks.len()
        invariant
            parts == cells_view(cell_chunks@),
            0 <= c <= parts.len(),
            marked.len() == c,
            forall|q: int| 0 <= q < c ==> cell_marked(#[trigger] parts[q], marked[q]),
            forall|q: int| 0 <= q < c ==> (#[trigger] cell_chunks@[q])@.len() <= 0xffff,
            compiled_nodes@ == concat_cells(marked),
        decreases parts.len() - c,
    {
        assert(parts[c as int] == trees_view(cell_chunks@[c as int]@));
        let cell = match mark_cell(&cell_chunks[c]) {
            Ok(m) => m,
            Err(e) => {
                return Err(e);
            },
        };
        let ghost before = marked;
        append_cell(&mut compiled_nodes, &cell);
        proof {
            marked = marked.push(trees_view(cell@));
            assert(marked.drop_last() =~= before);
            assert forall|q: int| 0 <= q < c + 1 implies cell_marked(#[trigger] parts[q], marked[q]) by {
                if q < c {
                    assert(marked[q] == before[q]);
                }
            }
        }
        c = c + 1;
    }
    Ok(compiled_nodes)
}

/// Every class that some tree predicts is the index of a target.
pub open spec fn targets_cover_votes(trees: Seq<Tree>, problem: ProblemDefinition, features: Seq<u16>) -> bool {
    forall|c: u16| #[trigger] vote_table(trees, features).contains_key(c) ==> value_index(map_entries(problem.targets_spec()), c)
        < map_entries(problem.targets_spec()).len()
}

/// `r` is the name of the class with the most votes (the lowest class index on
/// a tie), the first target with that index, and its number of votes.
pub open spec fn is_prediction(trees: Seq<Tree>, problem: ProblemDefinition, features: Seq<u16>, r: (String, usize)) -> bool {
    let table = vote_table(trees, features);
    let b = best_class(table);
    let e = map_entries(problem.targets_spec());
    &&& is_best_class(table, b)
    &&& r.1 == table[b]
    &&& r.0@ == e[value_index(e, b)].0
}

/// Make a prediction, and return a map from each predicted class ID to its
/// number of votes.
pub fn forest_votes(trees: &Vec<Tree>, features: &[u16]) -> (votes: HashMap<u16, usize>)
    requires
        forest_predicts(trees@, features@.len()),
    ensures
        votes@ == vote_table(trees@, features@),
{
    broadcast use vstd::std_specs::hash::group_hash_axioms;

    let ghost tv = trees@;
    let mut votes: HashMap<u16, usize> = HashMap::new();
    let mut i: usize = 0;
    while i < trees.len()
        invariant
            tv == trees@,
            forest_predicts(tv, features@.len()),
            0 <= i <= tv.len(),
            votes@ == vote_table(tv.subrange(0, i as int), features@),
            forall|c: u16| #[trigger] votes@.contains_key(c) ==> votes@[c] <= i,
        decreases tv.len() - i,
    {
        let tree = &trees[i];
        assert(tree_predicts(tv[i as int].nodes@, features@.len()));
        let prediction = predict_tree(tree, features);
        let old_count: usize = match votes.get(&prediction) {
            Some(v) => *v,
            None => 0,
        };
        let ghost before = votes@;
        votes.insert(prediction, old_count + 1);
        proof {
            let prefix = tv.subrange(0, i + 1);
            assert(prefix.drop_last() =~= tv.subrange(0, i as int));
            assert(prefix.last() == tv[i as int]);
            assert(votes@ =~= vote_table(prefix, features@)) by {
                assert forall|c: u16| #[trigger] votes@.contains_key(c) <==> vote_table(prefix, features@).contains_key(c) by {}
                assert forall|c: u16| #[trigger] votes@.contains_key(c) implies votes@[c] == vote_table(prefix, features@)[c] by {
                    let prev = tv.subrange(0, i as int);
                    lemma_count_predictions_bound(prefix, features@, c);
                    lemma_count_predictions_bound(prev, features@, c);
                    assert(count_predictions(prefix, features@, c) == count_predictions(prev, features@, c) + (if tree_prediction(
                        tv[i as int].nodes@,
                        features@,
                    ) == c {
                        1nat
                    } else {
                        0nat
                    }));
                    if c == prediction {
                        if before.contains_key(c) {
                            assert(old_count == before[c]);
                        } else {
                            assert(old_count == 0);
                        }
                    }
                }
            }
        }
        i = i + 1;
    }
    assert(tv.subrange(0, tv.len() as int) =~= tv);
    votes
}

/// Make a prediction based on input feature vector. Returns the name of
/// the predicted class and its number of votes: the class with the most
/// votes, the lowest class index on a tie.
pub fn forest_predict(trees: &Vec<Tree>, problem: &ProblemDefinition, features: &[u16]) -> (r: (String, usize))
    requires
        forest_predicts(trees@, features@.len()),
        trees@.len() > 0,
        targets_cover_votes(trees@, *problem, features@),
    ensures
        is_prediction(trees@, *problem, features@, r),
{
    let votes = forest_votes(trees, features);
    proof {
        broadcast use vstd::std_specs::hash::group_hash_axioms;
        let c = tree_prediction(trees@.last().nodes@, features@);
        lemma_vote_table_has_last(trees@, features@);
        assert(votes@.dom().contains(c));
        vstd::set::axiom_set_contains_len(votes@.dom(), c);
    }
    let (best, num_votes) = best_result(&votes);
    proof {
        lemma_best_class_unique(votes@, best);
    }
    let prediction = match problem.target_name(best) {
        Some(name) => name,
        None => {
            proof {
                assert(false);
            }
            String::new()
        },
    };
    (prediction, num_votes)
}

/// Intermediate representation (IR) of a tree ensemble model: its trees and
/// the problem it solves.
pub struct InterRep {
    trees: Vec<Tree>,
    problem: ProblemDefinition,
}

impl InterRep {
    pub closed spec fn spec_trees(&self) -> Seq<Tree> {
        self.trees@
    }

    pub closed spec fn spec_problem(&self) -> ProblemDefinition {
        self.problem
    }

    pub fn new(trees: Vec<Tree>, problem: ProblemDefinition) -> (r: Self)
        ensures
            r.spec_trees() == trees@,
            r.spec_problem() == problem,
    {
        InterRep { trees, problem }
    }

    pub fn num_trees(&self) -> (n: usize)
        ensures
            n == self.spec_trees().len(),
    {
        self.trees.len()
    }

    pub fn num_features(&self) -> (n: usize)
        ensures
            n == map_entries(self.spec_problem().features_spec()).len(),
    {
        self.problem.num_features()
    }

    pub fn num_targets(&self) -> (n: usize)
        ensures
            n == map_entries(self.spec_problem().targets_spec()).len(),
    {
        self.problem.num_targets()
    }

    pub fn targets(&self) -> (m: &indexmap::IndexMap<String, u16>)
        ensures
            *m == self.spec_problem().targets_spec(),
    {
        self.problem.targets()
    }

    pub fn features(&self) -> (m: &indexmap::IndexMap<String, u16>)
        ensures
            *m == self.spec_problem().features_spec(),
    {
        self.problem.features()
    }

    pub fn problem(&self) -> (p: &ProblemDefinition)
        ensures
            *p == self.spec_problem(),
    {
        &self.problem
    }

    pub fn trees(&self) -> (t: &Vec<Tree>)
        ensures
            t@ == self.spec_trees(),
    {
        &self.trees
    }

    /// Make a prediction, and return a map from each predicted class ID to its
    /// number of votes.
    pub fn prediction_votes(&self, features: &[u16]) -> (votes: HashMap<u16, usize>)
        requires
            forest_predicts(self.spec_trees(), features@.len()),
        ensures
            votes@ == vote_table(self.spec_trees(), features@),
    {
        forest_votes(&self.trees, features)
    }

    /// Make a prediction based on input feature vector. Returns the name of
    /// the predicted class and its number of votes: the class with the most
    /// votes, the lowest class index on a tie.
    pub fn predict(&self, features: &[u16]) -> (r: (String, usize))
        requires
            forest_predicts(self.spec_trees(), features@.len()),
            self.spec_trees().len() > 0,
            targets_cover_votes(self.spec_trees(), self.spec_problem(), features@),
        ensures
            is_prediction(self.spec_trees(), self.spec_problem(), features@, r),
    {
        forest_predict(&self.trees, &self.problem, features)
    }

    /// Compile the forest: compile each tree with the placement strategy,
    /// partition the compiled trees into cells with the partition strategy,
    /// mark the first header of each cell with its number of trees, and lay
    /// the cells one after the other.
    pub fn compile(&self, num_cells: u8, placement_strategy: PlacementStrategy, partition_strategy: PartitionStrategy) -> (r:
        Result<Vec<model::Node>, CompileError>)
        requires
            forall|i: int| 0 <= i < self.spec_trees().len() ==> tree_compilable(#[trigger] self.spec_trees()[i].nodes@),
        ensures
            r matches Ok(nodes) ==> compiled_forest(self.spec_trees(), partition_strategy, num_cells as int, nodes@),
            r matches Ok(nodes) ==> compiled_with(self.spec_trees(), placement_strategy, partition_strategy, num_cells as int, nodes@),
            r matches Err(e) ==> e == CompileError::PlacementTooLong || e == CompileError::TooManyTreesInCell || e
                == CompileError::DepthOverflow,
            (partition_strategy !is Greedy && forall|i: int|
                0 <= i < self.spec_trees().len() ==> placement_fits(placement_strategy, (#[trigger] self.spec_trees()[i]).nodes@))
                ==> (r is Ok <==> largest_equal_cell(self.spec_trees().len() as int, num_cells as int) <= 0xffff),
            (partition_strategy is Greedy && forall|i: int|
                0 <= i < self.spec_trees().len() ==> placement_fits(placement_strategy, (#[trigger] self.spec_trees()[i]).nodes@))
                ==> exists|cv: Seq<Seq<model::Node>>| #[trigger] compiled_as(self.spec_trees(), placement_strategy, cv) && greedy_outcome(
                cv,
                num_cells as int,
                r is Ok,
            ),
    {
        let ghost trees = self.trees@;
        assert(trees == self.spec_trees());
        // Step 1: compile each tree individually.
        let mut compiled_trees: Vec<Vec<model::Node>> = Vec::new();
        let mut i: usize = 0;
        while i < self.trees.len()
            invariant
                trees == self.trees@,
                forall|i: int| 0 <= i < trees.len() ==> tree_compilable(#[trigger] trees[i].nodes@),
                0 <= i <= trees.len(),
                compiled_trees@.len() == i,
                forall|k: int| 0 <= k < i ==> compiles_tree(trees[k].nodes@, #[trigger] compiled_trees@[k]@),
                forall|k: int| 0 <= k < i ==> placed_as(placement_strategy, trees[k].nodes@, #[trigger] compiled_trees@[k]@),
                trees == self.spec_trees(),
            decreases trees.len() - i,
        {
            assert(tree_compilable(trees[i as int].nodes@));
            match tree_compiler::compile(&self.trees[i], placement_strategy) {
                Ok(c) => {
                    compiled_trees.push(c);
                },
                Err(e) => {
                    assert(self.spec_trees()[i as int] == trees[i as int]);
                    return Err(e);
                },
            }
            i = i + 1;
        }
        let ghost cv = trees_view(compiled_trees@);
        proof {
            assert forall|k: int| 0 <= k < compiled_trees@.len() implies tree_partition::compiled_tree_ok(
                #[trigger] compiled_trees@[k]@,
            ) by {
                assert(tree_compilable(trees[k].nodes@));
                lemma_compiled_tree_ok(trees[k].nodes@, compiled_trees@[k]@);
            }
        }
        proof {
            assert(compiled_as(self.spec_trees(), placement_strategy, cv));
        }
        if partition_strategy == PartitionStrategy::Greedy && !depths_fit(&compiled_trees) {
            return Err(CompileError::DepthOverflow);
        }
        // Step 2: partition trees into cell chunks.
        let cell_chunks = partition_strategy.partition(compiled_trees.as_slice(), num_cells);
        let ghost parts = cells_view(cell_chunks@);
        proof {
            tree_partition::lemma_partition_cell_sizes(partition_strategy, cv, num_cells as int, parts);
        }
        // Step 2.1: set cache metadata for cell headers; step 3: merge all
        // trees into a single vector.
        let r = mark_and_merge(&cell_chunks);
        proof {
            if r is Ok {
                let nodes = r->Ok_0;
                let marked = choose|marked: Seq<Seq<Seq<model::Node>>>| #[trigger] concat_cells(marked) == nodes@ && marked.len()
                    == parts.len() && forall|c: int| 0 <= c < parts.len() ==> cell_marked(#[trigger] parts[c], marked[c]);
                assert(forall|i: int| 0 <= i < trees.len() ==> compiles_tree(#[trigger] trees[i].nodes@, cv[i]));
                assert(forall|i: int| 0 <= i < trees.len() ==> placed_as(placement_strategy, #[trigger] trees[i].nodes@, cv[i]));
                assert(partition_result(partition_strategy, cv, num_cells as int, parts));
                assert(concat_cells(marked) == nodes@);
            } else {
                let c = choose|c: int| 0 <= c < cell_chunks@.len() && (#[trigger] cell_chunks@[c])@.len() > 0xffff;
                assert(parts[c] == trees_view(cell_chunks@[c]@));
                assert(parts[c].len() == cell_chunks@[c]@.len());
                assert(cv.len() == trees.len());
            }
            if partition_strategy !is Greedy {
                tree_partition::lemma_equal_cells_fit(partition_strategy, cv, num_cells as int, parts, 0xffff);
                assert(cv.len() == trees.len());
                assert forall|c: int| 0 <= c < parts.len() implies (#[trigger] parts[c]).len() == cell_chunks@[c]@.len() by {
                    assert(parts[c] == trees_view(cell_chunks@[c]@));
                }
            } else {
                assert forall|c: int| 0 <= c < parts.len() implies (#[trigger] parts[c]).len() == cell_chunks@[c]@.len() by {
                    assert(parts[c] == trees_view(cell_chunks@[c]@));
                }
                assert((r is Ok) <==> forall|c: int| 0 <= c < parts.len() ==> (#[trigger] parts[c]).len() <= 0xffff);
                assert(partition_result(PartitionStrategy::Greedy, cv, num_cells as int, parts));
                assert(greedy_outcome(cv, num_cells as int, r is Ok));
            }
        }
        r
    }
}

/// `b` has the most votes in the table, and is the lowest such class.
pub open spec fn is_best_class(table: Map<u16, usize>, b: u16) -> bool {
    &&& table.contains_key(b)
    &&& forall|k: u16| #[trigger] table.contains_key(k) ==> table[k] <= table[b]
    &&& forall|k: u16| #[trigger] table.contains_key(k) && table[k] == table[b] ==> b <= k
}

/// The class with the most votes in the table, the lowest one on a tie.
pub open spec fn best_class(table: Map<u16, usize>) -> u16 {
    choose|b: u16| is_best_class(table, b)
}

pub proof fn lemma_best_class_unique(table: Map<u16, usize>, b: u16)
    requires
        is_best_class(table, b),
    ensures
        best_class(table) == b,
{
    let c = best_class(table);
    assert(is_best_class(table, c));
    assert(table[c] <= table[b] && table[b] <= table[c]);
}

pub proof fn lemma_count_predictions_bound(trees: Seq<Tree>, features: Seq<u16>, c: u16)
    ensures
        count_predictions(trees, features, c) <= trees.len(),
    decreases trees.len(),
{
    if trees.len() > 0 {
        lemma_count_predictions_bound(trees.drop_last(), features, c);
    }
}

pub proof fn lemma_vote_table_has_last(trees: Seq<Tree>, features: Seq<u16>)
    requires
        trees.len() > 0,
    ensures
        vote_table(trees, features).contains_key(tree_prediction(trees.last().nodes@, features)),
{
}

} // verus!
