//! Forests compiled with the pairing placement: the branches of every tree
//! paired in cache lines, the first branch after a padded header, the trees
//! shortest first.

use std::collections::HashMap;

use vstd::prelude::*;

use crate::compiler::paired::{compile_paired_trees, compiled_paired_forest, headers_follow, lemma_split_plan_fits, paired_fits, split_cells, split_result};
use crate::compiler::fidelity::lemma_paired_forest_headers;
use crate::compiler::tree_partition::largest_equal_cell;
use crate::compiler::tree_compiler::{ir_tree_wf, splits_fit, CompileError};
use crate::compiler::{forest_predict, forest_predicts, forest_votes, is_prediction, targets_cover_votes, vote_table, Tree};
use crate::compiler::tree_partition::{chunk_start, lemma_chunk_start};
use crate::model;
use crate::model::acyclic::trees_in_bounds;
use crate::model::{lemma_headers_from_bounds, tree_header_indices, tree_headers_of, tree_len_at, Model};
use crate::problem::{map_entries, ProblemDefinition};

verus! {

/// Every tree has a branch at its root, children within the tree, and split
/// variables that the flags hold.
pub open spec fn trees_placeable(trees: Seq<Tree>) -> bool {
    forall|i: int| 0 <= i < trees.len() ==> ir_tree_wf(#[trigger] trees[i].nodes@) && splits_fit(trees[i].nodes@)
}

/// Intermediate representation of a tree ensemble model: its trees and the
/// problem it solves.
pub struct IntermediateRepresentation {
    trees: Vec<Tree>,
    problem: ProblemDefinition,
}

impl IntermediateRepresentation {
    pub closed spec fn spec_trees(&self) -> Seq<Tree> {
        self.trees@
    }

    pub closed spec fn spec_problem(&self) -> ProblemDefinition {
        self.problem
    }

    pub fn new(trees: Vec<Tree>, problem: ProblemDefinition) -> (r: Self)
        ensures
            r.spec_trees() == trees@,
            r.spec_problem() == problem,
    {
        IntermediateRepresentation { trees, problem }
    }

    pub fn num_trees(&self) -> (n: usize)
        ensures
            n == self.spec_trees().len(),
    {
        self.trees.len()
    }

    pub fn num_features(&self) -> (n: usize)
        ensures
            n == map_entries(self.spec_problem().features_spec()).len(),
    {
        self.problem.num_features()
    }

    pub fn num_targets(&self) -> (n: usize)
        ensures
            n == map_entries(self.spec_problem().targets_spec()).len(),
    {
        self.problem.num_targets()
    }

    pub fn targets(&self) -> (m: &indexmap::IndexMap<String, u16>)
        ensures
            *m == self.spec_problem().targets_spec(),
    {
        self.problem.targets()
    }

    pub fn features(&self) -> (m: &indexmap::IndexMap<String, u16>)
        ensures
            *m == self.spec_problem().features_spec(),
    {
        self.problem.features()
    }

    pub fn problem(&self) -> (p: &ProblemDefinition)
        ensures
            *p == self.spec_problem(),
    {
        &self.problem
    }

    /// Compile the forest: every tree with the pairing placement, shortest
    /// first, laid one after the other, then split into `num_cells` cells.
    pub fn compile(&self, num_cells: u8) -> (r: Result<Vec<model::Node>, CompileError>)
        requires
            trees_placeable(self.spec_trees()),
        ensures
            r matches Ok(nodes) ==> exists|flat: Seq<model::Node>| #[trigger] compiled_paired_forest(self.spec_trees(), flat)
                && split_result(flat, nodes@, num_cells as int, self.spec_trees().len() as int, Ok::<(), CompileError>(())),
            r matches Err(e) ==> e == CompileError::PlacementFailed || e == CompileError::PlacementTooLong || e
                == CompileError::MalformedTrees || e == CompileError::TooManyTreesInCell || e == CompileError::EmptyCell,
            r is Ok <==> (forall|i: int| 0 <= i < self.spec_trees().len() ==> paired_fits(#[trigger] self.spec_trees()[i].nodes@))
                && self.spec_trees().len() > 0 && largest_equal_cell(self.spec_trees().len() as int, num_cells as int) <= 0xffff,
    {
        let mut nodes = match compile_paired_trees(&self.trees) {
            Ok(n) => n,
            Err(e) => {
                return Err(e);
            },
        };
        let nodes_len = nodes.len();
        proof {
            assert(nodes@.len() == nodes_len);
            lemma_paired_forest_headers(self.spec_trees(), nodes@);
        }
        if !headers_follow(nodes.as_slice()) {
            return Err(CompileError::MalformedTrees);
        }
        let ghost flat = nodes@;
        let num_trees = self.trees.len();
        let ghost n = num_trees as int;
        let ghost cells = num_cells as int;
        proof {
            if cells > 1 {
                vstd::arithmetic::div_mod::lemma_fundamental_div_mod(n, cells);
                assert(n / cells <= largest_equal_cell(n, cells));
                if n / cells <= 0xffff {
                    lemma_split_plan_fits(tree_headers_of(flat), cells);
                }
            }
        }
        match split_cells(&mut nodes, num_cells, num_trees) {
            Ok(()) => {},
            Err(e) => {
                return Err(e);
            },
        }
        assert(compiled_paired_forest(self.spec_trees(), flat));
        Ok(nodes)
    }

    /// Make a prediction, and return a map from each predicted class ID to its
    /// number of votes.
    pub fn prediction_votes(&self, features: &[u16]) -> (votes: HashMap<u16, usize>)
        requires
            forest_predicts(self.spec_trees(), features@.len()),
        ensures
            votes@ == vote_table(self.spec_trees(), features@),
    {
        forest_votes(&self.trees, features)
    }

    /// Make a prediction based on input feature vector: the name of the class
    /// with the most votes (the lowest class index on a tie), and its number
    /// of votes.
    pub fn predict(&self, features: &[u16]) -> (r: (String, usize))
        requires
            forest_predicts(self.spec_trees(), features@.len()),
            self.spec_trees().len() > 0,
            targets_cover_votes(self.spec_trees(), self.spec_problem(), features@),
        ensures
            is_prediction(self.spec_trees(), self.spec_problem(), features@, r),
    {
        forest_predict(&self.trees, &self.problem, features)
    }
}

/// An array-backed, non-optimized random forest model.
pub struct ForestModel {
    trees: Vec<Tree>,
    problem: ProblemDefinition,
}

impl ForestModel {
    pub closed spec fn spec_trees(&self) -> Seq<Tree> {
        self.trees@
    }

    pub closed spec fn spec_problem(&self) -> ProblemDefinition {
        self.problem
    }

    pub fn new(trees: Vec<Tree>, problem: ProblemDefinition) -> (r: Self)
        ensures
            r.spec_trees() == trees@,
            r.spec_problem() == problem,
    {
        ForestModel { trees, problem }
    }

    pub fn num_trees(&self) -> (n: usize)
        ensures
            n == self.spec_trees().len(),
    {
        self.trees.len()
    }

    pub fn num_features(&self) -> (n: usize)
        ensures
            n == map_entries(self.spec_problem().features_spec()).len(),
    {
        self.problem.num_features()
    }

    pub fn num_targets(&self) -> (n: usize)
        ensures
            n == map_entries(self.spec_problem().targets_spec()).len(),
    {
        self.problem.num_targets()
    }

    pub fn targets(&self) -> (m: &indexmap::IndexMap<String, u16>)
        ensures
            *m == self.spec_problem().targets_spec(),
    {
        self.problem.targets()
    }

    pub fn features(&self) -> (m: &indexmap::IndexMap<String, u16>)
        ensures
            *m == self.spec_problem().features_spec(),
    {
        self.problem.features()
    }

    pub fn problem(&self) -> (p: &ProblemDefinition)
        ensures
            *p == self.spec_problem(),
    {
        &self.problem
    }

    /// Compile the forest: every tree with the pairing placement, shortest
    /// first, laid one after the other.
    pub fn compile(&self) -> (r: Result<Vec<model::Node>, CompileError>)
        requires
            trees_placeable(self.spec_trees()),
        ensures
            r matches Ok(nodes) ==> compiled_paired_forest(self.spec_trees(), nodes@),
            r matches Err(e) ==> e == CompileError::PlacementFailed || e == CompileError::PlacementTooLong,
            r is Ok <==> forall|i: int| 0 <= i < self.spec_trees().len() ==> paired_fits(#[trigger] self.spec_trees()[i].nodes@),
    {
        compile_paired_trees(&self.trees)
    }

    /// The name of the class with the most votes (the lowest class index on a
    /// tie).
    pub fn predict(&self, features: &[u16]) -> (r: String)
        requires
            forest_predicts(self.spec_trees(), features@.len()),
            self.spec_trees().len() > 0,
            targets_cover_votes(self.spec_trees(), self.spec_problem(), features@),
        ensures
            exists|n: usize| is_prediction(self.spec_trees(), self.spec_problem(), features@, (r, n)),
    {
        let (name, num_votes) = forest_predict(&self.trees, &self.problem, features);
        assert(is_prediction(self.spec_trees(), self.spec_problem(), features@, (name, num_votes)));
        name
    }
}

/// The nodes of cell `c` when the trees are split evenly between
/// `num_cells` cells, the first cells taking one more tree when they do not
/// divide evenly: from the header of the cell's first tree to the end of its
/// last tree.
pub open spec fn even_cell(nodes: Seq<model::Node>, c: int, num_cells: int) -> Seq<model::Node> {
    let hs = tree_headers_of(nodes);
    let from = chunk_start(hs.len() as int, num_cells, c);
    let last = hs[chunk_start(hs.len() as int, num_cells, c + 1) - 1] as int;
    nodes.subrange(hs[from] as int, last + tree_len_at(nodes, last))
}

/// Split the model as evenly as possible between the provided number of
/// cells: the node slice of each cell, which can then be written to the
/// cell's cache. Every cell gets at least one tree.
#[verifier::spinoff_prover]
pub fn split<'a>(model: &'a Model, num_cells: usize) -> (r: Vec<&'a [model::Node]>)
    requires
        num_cells > 0,
        trees_in_bounds(model.nodes@),
        tree_headers_of(model.nodes@).len() == model.num_trees.value(),
        model.num_trees.value() >= num_cells,
    ensures
        r@.len() == num_cells,
        forall|c: int| 0 <= c < num_cells ==> (#[trigger] r@[c])@ == even_cell(model.nodes@, c, num_cells as int),
{
    let ghost nodes = model.nodes@;
    let num_trees = model.num_trees() as usize;
    let base = num_trees / num_cells;
    let extra = num_trees % num_cells;
    let hs = tree_header_indices(model.nodes());
    let nodes_len = model.nodes.len();
    proof {
        lemma_headers_from_bounds(nodes, 0);
        lemma_chunk_start(num_trees as int, num_cells as int, 0);
        assert(base >= 1) by (nonlinear_arith)
            requires
                num_trees >= num_cells,
                num_cells > 0,
                base == num_trees / num_cells;
    }
    let mut cells: Vec<&'a [model::Node]> = Vec::new();
    let mut t: usize = 0;
    let mut cell_idx: usize = 0;
    while cell_idx < num_cells
        invariant
            nodes == model.nodes@,
            nodes_len == nodes.len(),
            hs@ == tree_headers_of(nodes),
            hs@.len() == num_trees,
            num_cells > 0,
            base == num_trees / num_cells,
            extra == num_trees % num_cells,
            base >= 1,
            trees_in_bounds(nodes),
            forall|k: int| 0 <= k < hs@.len() - 1 ==> hs@[k + 1] == #[trigger] hs@[k] + tree_len_at(nodes, hs@[k] as int),
            forall|k: int| 0 <= k < hs@.len() ==> #[trigger] hs@[k] < nodes.len(),
            0 <= cell_idx <= num_cells,
            t as int == chunk_start(num_trees as int, num_cells as int, cell_idx as int),
            cells@.len() == cell_idx,
            forall|c: int| 0 <= c < cell_idx ==> (#[trigger] cells@[c])@ == even_cell(nodes, c, num_cells as int),
        decreases num_cells - cell_idx,
    {
        proof {
            lemma_chunk_start(num_trees as int, num_cells as int, cell_idx as int);
        }
        // The first cells get the extra trees.
        let count = base + if cell_idx < extra { 1 } else { 0 };
        let start_idx = hs[t];
        let mut num_nodes: usize = 0;
        let mut j: usize = 0;
        while j < count
            invariant
                nodes == model.nodes@,
                nodes_len == nodes.len(),
                hs@ == tree_headers_of(nodes),
                hs@.len() == num_trees,
                trees_in_bounds(nodes),
                start_idx + num_nodes <= nodes_len,
                forall|k: int| 0 <= k < hs@.len() - 1 ==> hs@[k + 1] == #[trigger] hs@[k] + tree_len_at(nodes, hs@[k] as int),
                forall|k: int| 0 <= k < hs@.len() ==> #[trigger] hs@[k] < nodes.len(),
                t + count <= num_trees,
                count >= 1,
                start_idx == hs@[t as int],
                0 <= j <= count,
                j == 0 ==> num_nodes == 0,
                j > 0 ==> start_idx + num_nodes == hs@[t + j - 1] + tree_len_at(nodes, hs@[t + j - 1] as int),
            decreases count - j,
        {
            let header_idx = hs[t + j];
            assert(hs@[(t + j) as int] + tree_len_at(nodes, hs@[(t + j) as int] as int) <= nodes.len());
            if j > 0 {
                assert(hs@[(t + j) as int] == hs@[t + j - 1] + tree_len_at(nodes, hs@[t + j - 1] as int));
            }
            let slice_len = model.nodes[header_idx].as_header().tree_len() as usize;
            num_nodes = num_nodes + slice_len;
            j = j + 1;
        }
        let cell = vstd::slice::slice_subrange(model.nodes.as_slice(), start_idx, start_idx + num_nodes);
        cells.push(cell);
        t = t + count;
        cell_idx = cell_idx + 1;
    }
    cells
}

} // verus!
