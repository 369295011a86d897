//! Checks that a forest read from outside can be compiled, and that a
//! prediction over it runs to its end and names its class.

use vstd::prelude::*;

use super::tree_compiler::{ir_tree_wf, splits_fit};
use super::{
    count_predictions, forest_predicts, ir_paths_end, ir_walk, lemma_ir_paths_end_walk, targets_cover_votes, tree_compilable,
    tree_prediction, tree_predicts, vote_table, Node, Tree,
};
use crate::problem::{map_entries, value_index, ProblemDefinition};

verus! {

/// Whether every path from node `idx` ends at a leaf within `fuel` steps,
/// through in-bounds nodes whose split variables are below `num_features`.
pub fn paths_end_within(nodes: &Vec<Node>, idx: usize, num_features: usize, fuel: usize) -> (b: bool)
    ensures
        b == ir_paths_end(nodes@, idx as int, num_features as nat, fuel as nat),
    decreases fuel,
{
    if fuel == 0 || idx >= nodes.len() {
        return false;
    }
    match &nodes[idx] {
        Node::Leaf(_) => true,
        Node::Branch(b) => {
            (b.split_with as usize) < num_features && paths_end_within(nodes, b.left, num_features, fuel - 1) && paths_end_within(
                nodes,
                b.right,
                num_features,
                fuel - 1,
            )
        },
    }
}

/// The tree is well formed: a branch at its root, every branch's children
/// within the tree and its split variable held by the flags, and every path
/// from the root ending within as many steps as the tree has nodes.
pub open spec fn tree_checked(t: Seq<Node>) -> bool {
    &&& ir_tree_wf(t)
    &&& splits_fit(t)
    &&& ir_paths_end(t, 0, 0x1_0000, t.len() as nat)
}

/// Whether the tree is well formed (see `tree_checked`); such a tree can be
/// compiled.
pub fn tree_is_compilable(tree: &Tree) -> (b: bool)
    ensures
        b == tree_checked(tree.nodes@),
        b ==> tree_compilable(tree.nodes@),
{
    let n = tree.nodes.len();
    if n == 0 {
        return false;
    }
    if !tree.nodes[0].is_branch() {
        return false;
    }
    let mut i: usize = 0;
    while i < n
        invariant
            n == tree.nodes@.len(),
            0 <= i <= n,
            forall|k: int| 0 <= k < i && (#[trigger] tree.nodes@[k]) is Branch ==> {
                &&& tree.nodes@[k]->Branch_0.left < n
                &&& tree.nodes@[k]->Branch_0.right < n
                &&& tree.nodes@[k]->Branch_0.split_with <= 0x3fff
            },
        decreases n - i,
    {
        if let Node::Branch(b) = &tree.nodes[i] {
            if b.left >= n || b.right >= n || b.split_with > 0x3fff {
                assert(tree.nodes@[i as int] is Branch);
                return false;
            }
        }
        i = i + 1;
    }
    paths_end_within(&tree.nodes, 0, 0x1_0000, n)
}

/// Whether every tree of the forest is well formed (see `tree_checked`).
pub fn forest_is_compilable(trees: &Vec<Tree>) -> (b: bool)
    ensures
        b == forall|i: int| 0 <= i < trees@.len() ==> tree_checked(#[trigger] trees@[i].nodes@),
        b ==> forall|i: int| 0 <= i < trees@.len() ==> tree_compilable(#[trigger] trees@[i].nodes@),
{
    let mut i: usize = 0;
    while i < trees.len()
        invariant
            0 <= i <= trees@.len(),
            forall|k: int| 0 <= k < i ==> tree_checked(#[trigger] trees@[k].nodes@),
        decreases trees@.len() - i,
    {
        if !tree_is_compilable(&trees[i]) {
            return false;
        }
        i = i + 1;
    }
    true
}

/// Every leaf of the tree predicts a class that the targets name.
pub open spec fn leaves_named(t: Seq<Node>, entries: Seq<(Seq<char>, u16)>) -> bool {
    forall|j: int| 0 <= j < t.len() && (#[trigger] t[j]) is Leaf ==> value_index(entries, t[j]->Leaf_0.prediction) < entries.len()
}

/// Whether every leaf of the tree predicts a class that the problem names.
fn tree_leaves_named(tree: &Tree, problem: &ProblemDefinition) -> (b: bool)
    ensures
        b == leaves_named(tree.nodes@, map_entries(problem.targets_spec())),
{
    let mut i: usize = 0;
    while i < tree.nodes.len()
        invariant
            0 <= i <= tree.nodes@.len(),
            forall|k: int| 0 <= k < i && (#[trigger] tree.nodes@[k]) is Leaf ==> value_index(
                map_entries(problem.targets_spec()),
                tree.nodes@[k]->Leaf_0.prediction,
            ) < map_entries(problem.targets_spec()).len(),
        decreases tree.nodes@.len() - i,
    {
        if let Node::Leaf(l) = &tree.nodes[i] {
            if problem.target_name(l.prediction).is_none() {
                assert(tree.nodes@[i as int] is Leaf);
                return false;
            }
        }
        i = i + 1;
    }
    true
}

/// A walk that ends, ends at a leaf of the tree.
pub proof fn lemma_walk_ends_at_leaf(t: Seq<Node>, idx: int, features: Seq<u16>, fuel: nat)
    requires
        ir_walk(t, idx, features, fuel) is Some,
    ensures
        exists|j: int| 0 <= j < t.len() && (#[trigger] t[j]) is Leaf && t[j]->Leaf_0.prediction == ir_walk(t, idx, features, fuel)->0,
    decreases fuel,
{
    match t[idx] {
        Node::Leaf(_) => {
            assert(t[idx] is Leaf);
        },
        Node::Branch(b) => {
            if bf16_walks_left(t, idx, features) {
                lemma_walk_ends_at_leaf(t, b.left as int, features, (fuel - 1) as nat);
            } else {
                lemma_walk_ends_at_leaf(t, b.right as int, features, (fuel - 1) as nat);
            }
        },
    }
}

/// The walk from the branch at `idx` goes to its left child.
spec fn bf16_walks_left(t: Seq<Node>, idx: int, features: Seq<u16>) -> bool {
    let b = t[idx]->Branch_0;
    crate::split::bf16_le(features[b.split_with as int], b.split_at)
}

/// A class with votes is predicted by some tree.
pub proof fn lemma_voted_class_has_tree(trees: Seq<Tree>, features: Seq<u16>, c: u16)
    requires
        count_predictions(trees, features, c) > 0,
    ensures
        exists|i: int| 0 <= i < trees.len() && tree_prediction(#[trigger] trees[i].nodes@, features) == c,
    decreases trees.len(),
{
    if tree_prediction(trees.last().nodes@, features) == c {
        assert(tree_prediction(trees[trees.len() - 1].nodes@, features) == c);
    } else {
        lemma_voted_class_has_tree(trees.drop_last(), features, c);
        let i = choose|i: int| 0 <= i < trees.drop_last().len() && tree_prediction(#[trigger] trees.drop_last()[i].nodes@, features) == c;
        assert(trees[i] == trees.drop_last()[i]);
    }
}

/// Whether a prediction with `num_features` features can be made over the
/// forest: it has a tree, every path of every tree ends within as many steps
/// as the tree has nodes through split variables below `num_features`, and
/// every leaf predicts a class that the problem names.
pub fn forest_can_predict(trees: &Vec<Tree>, problem: &ProblemDefinition, num_features: usize) -> (b: bool)
    ensures
        b == (trees@.len() > 0 && forall|i: int| 0 <= i < trees@.len() ==> {
            &&& ir_paths_end(#[trigger] trees@[i].nodes@, 0, num_features as nat, trees@[i].nodes@.len() as nat)
            &&& leaves_named(trees@[i].nodes@, map_entries(problem.targets_spec()))
        }),
        b ==> forest_predicts(trees@, num_features as nat),
        b ==> forall|features: Seq<u16>| features.len() == num_features ==> #[trigger] targets_cover_votes(
            trees@,
            *problem,
            features,
        ),
{
    if trees.len() == 0 {
        return false;
    }
    let mut i: usize = 0;
    while i < trees.len()
        invariant
            0 <= i <= trees@.len(),
            forall|k: int| 0 <= k < i ==> {
                &&& ir_paths_end(#[trigger] trees@[k].nodes@, 0, num_features as nat, trees@[k].nodes@.len() as nat)
                &&& leaves_named(trees@[k].nodes@, map_entries(problem.targets_spec()))
            },
        decreases trees@.len() - i,
    {
        let tree = &trees[i];
        if !paths_end_within(&tree.nodes, 0, num_features, tree.nodes.len()) {
            return false;
        }
        if !tree_leaves_named(tree, problem) {
            return false;
        }
        i = i + 1;
    }
    proof {
        let e = map_entries(problem.targets_spec());
        assert forall|k: int| 0 <= k < trees@.len() implies tree_predicts(#[trigger] trees@[k].nodes@, num_features as nat) by {
            assert(ir_paths_end(trees@[k].nodes@, 0, num_features as nat, trees@[k].nodes@.len() as nat));
        }
        assert forall|features: Seq<u16>| features.len() == num_features implies #[trigger] targets_cover_votes(
            trees@,
            *problem,
            features,
        ) by {
            assert forall|c: u16| #[trigger] vote_table(trees@, features).contains_key(c) implies value_index(e, c) < e.len() by {
                lemma_voted_class_has_tree(trees@, features, c);
                let k = choose|k: int| 0 <= k < trees@.len() && tree_prediction(#[trigger] trees@[k].nodes@, features) == c;
                let t = trees@[k].nodes@;
                assert(tree_predicts(t, num_features as nat)) by {
                    assert(ir_paths_end(t, 0, num_features as nat, t.len() as nat));
                }
                let fuel = choose|fuel: nat| ir_paths_end(t, 0, features.len(), fuel);
                lemma_ir_paths_end_walk(t, 0, features, fuel);
                lemma_walk_ends_at_leaf(t, 0, features, fuel);
                let j = choose|j: int| 0 <= j < t.len() && (#[trigger] t[j]) is Leaf && t[j]->Leaf_0.prediction == ir_walk(t, 0, features, fuel)->0;
                assert(leaves_named(t, e));
                assert(t[j] is Leaf);
            }
        }
    }
    true
}

} // verus!
