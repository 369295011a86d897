use std::collections::HashSet;

use vstd::prelude::*;

pub mod orders;

use super::{ir_paths_end, ir_walk, leaves_fit, lemma_ir_fuel_independent, tree_predicts, tree_prediction, BranchNode, Node, Tree};
use crate::model;
use super::tree_partition::{compiled_tree_ok, depth_ends};
use super::paired::{is_double_prediction, line_paired};
use crate::model::{lemma_flags_decode, lemma_walk_fuel_independent, paths_end, walk, CacheMetadata, TreeHeader, MAX_NUM_CLASSES};

verus! {

/// Node placement strategy for tree compilation.
#[derive(Clone, Copy, Debug, PartialEq, Eq, Structural)]
pub enum PlacementStrategy {
    ExecutionAware,
    Random,
    BreadthFirst,
    DepthFirst,
}

impl PlacementStrategy {
    /// The strategy used when none is given.
    pub fn default_strategy() -> (s: Self)
        ensures
            s == PlacementStrategy::ExecutionAware,
    {
        PlacementStrategy::ExecutionAware
    }

    /// The name of the strategy, as given on the command line.
    pub fn name(&self) -> (s: &'static str)
        ensures
            s@ == match *self {
                PlacementStrategy::ExecutionAware => "execution-aware"@,
                PlacementStrategy::Random => "random"@,
                PlacementStrategy::BreadthFirst => "breadth-first"@,
                PlacementStrategy::DepthFirst => "depth-first"@,
            },
    {
        match self {
            PlacementStrategy::ExecutionAware => "execution-aware",
            PlacementStrategy::Random => "random",
            PlacementStrategy::BreadthFirst => "breadth-first",
            PlacementStrategy::DepthFirst => "depth-first",
        }
    }
}

/// A child of a placed branch: a pointer to another branch (by its node
/// index in the tree), or the prediction of a leaf.
#[derive(Clone, Copy, Debug, PartialEq, Eq, Structural)]
pub enum Branch {
    Ptr(usize),
    Prediction(u16),
}

impl Branch {
    pub fn is_prediction(&self) -> (b: bool)
        ensures
            b == (*self is Prediction),
    {
        matches!(self, Branch::Prediction(_))
    }
}

/// A branch of a tree, ready to be placed, with its children resolved.
#[derive(Clone, Copy, Debug)]
pub struct LinkedBranchNode {
    pub id: usize,
    pub split_with: u16,
    pub split_at: u16,
    pub left_child: Branch,
    pub right_child: Branch,
    pub parent_id: Option<usize>,
}

/// A placed slot: a branch or padding.
#[derive(Clone, Copy, Debug)]
pub enum LinkedNode {
    Branch(LinkedBranchNode),
    Padding,
}

/// The tree's structure is usable for placement: it has a branch at its
/// root, and every branch's children are within the tree.
pub open spec fn ir_tree_wf(t: Seq<Node>) -> bool {
    &&& t.len() > 0
    &&& t[0] is Branch
    &&& forall|i: int| 0 <= i < t.len() && (#[trigger] t[i]) is Branch ==> {
        &&& t[i]->Branch_0.left < t.len()
        &&& t[i]->Branch_0.right < t.len()
    }
}

/// How node `j` of the tree appears as a child: a leaf by its prediction, a
/// branch by its index.
pub open spec fn child_ref(t: Seq<Node>, j: int) -> Branch {
    match t[j] {
        Node::Leaf(l) => Branch::Prediction(l.prediction),
        Node::Branch(_) => Branch::Ptr(j as usize),
    }
}

/// `e` is the branch at node `e.id` of the tree, with its children resolved.
pub open spec fn linked_from(t: Seq<Node>, e: LinkedBranchNode) -> bool {
    &&& 0 <= e.id < t.len()
    &&& t[e.id as int] is Branch
    &&& {
        let b = t[e.id as int]->Branch_0;
        &&& e.split_with == b.split_with
        &&& e.split_at == b.split_at
        &&& e.left_child == child_ref(t, b.left as int)
        &&& e.right_child == child_ref(t, b.right as int)
    }
}

/// The placed slot `n` holds a branch with index `id`.
pub open spec fn holds_id(n: LinkedNode, id: int) -> bool {
    n matches LinkedNode::Branch(e) && e.id as int == id
}

/// Some slot of `placed` holds the branch with index `id`.
pub open spec fn is_placed(placed: Seq<LinkedNode>, id: int) -> bool {
    exists|q: int| 0 <= q < placed.len() && #[trigger] holds_id(placed[q], id)
}

/// A placement of a tree's branches: the root first, every branch slot made
/// from its tree node, and every branch that a slot points to placed.
pub open spec fn valid_placement(t: Seq<Node>, placed: Seq<LinkedNode>) -> bool {
    &&& placed.len() > 0
    &&& holds_id(placed[0], 0)
    &&& forall|p: int| 0 <= p < placed.len() && (#[trigger] placed[p]) is Branch ==> linked_from(t, placed[p]->Branch_0)
    &&& forall|p: int| 0 <= p < placed.len() && (#[trigger] placed[p]) is Branch ==> {
        let e = placed[p]->Branch_0;
        &&& (e.left_child matches Branch::Ptr(j) ==> is_placed(placed, j as int))
        &&& (e.right_child matches Branch::Ptr(j) ==> is_placed(placed, j as int))
    }
}

/// Link the branch at `id`: resolve its children.
pub fn make_linked_node(tree: &Tree, id: usize, parent_id: Option<usize>) -> (n: LinkedNode)
    requires
        ir_tree_wf(tree.nodes@),
        id < tree.nodes@.len(),
        tree.nodes@[id as int] is Branch,
    ensures
        n matches LinkedNode::Branch(e) && e.id == id && e.parent_id == parent_id && linked_from(tree.nodes@, e),
        n == slot_of(tree.nodes@, id, parent_id),
{
    let branch = match &tree.nodes[id] {
        Node::Branch(b) => b,
        Node::Leaf(_) => {
            proof {
                assert(false);
            }
            return LinkedNode::Padding;
        },
    };
    assert(tree.nodes@[id as int] is Branch);
    let left_child = match &tree.nodes[branch.left] {
        Node::Leaf(l) => Branch::Prediction(l.prediction),
        Node::Branch(_) => Branch::Ptr(branch.left),
    };
    let right_child = match &tree.nodes[branch.right] {
        Node::Leaf(l) => Branch::Prediction(l.prediction),
        Node::Branch(_) => Branch::Ptr(branch.right),
    };
    LinkedNode::Branch(LinkedBranchNode {
        id,
        parent_id,
        left_child,
        right_child,
        split_at: branch.split_at,
        split_with: branch.split_with,
    })
}

/// The number of leaf children of the branch at `id`.
pub fn prediction_count(tree: &Tree, id: usize) -> (c: u8)
    requires
        ir_tree_wf(tree.nodes@),
        id < tree.nodes@.len(),
        tree.nodes@[id as int] is Branch,
    ensures
        c == (if tree.nodes@[tree.nodes@[id as int]->Branch_0.left as int] is Leaf { 1u8 } else { 0u8 })
            + (if tree.nodes@[tree.nodes@[id as int]->Branch_0.right as int] is Leaf { 1u8 } else { 0u8 }),
{
    let branch = match &tree.nodes[id] {
        Node::Branch(b) => b,
        Node::Leaf(_) => {
            proof {
                assert(false);
            }
            return 0;
        },
    };
    assert(tree.nodes@[id as int] is Branch);
    let l: u8 = if tree.nodes[branch.left].is_leaf() { 1 } else { 0 };
    let r: u8 = if tree.nodes[branch.right].is_leaf() { 1 } else { 0 };
    l + r
}

/// The position of the first slot holding the branch with index `id`.
pub open spec fn position_in(placed: Seq<LinkedNode>, id: int) -> int {
    choose|p: int| 0 <= p < placed.len() && holds_id(placed[p], id) && forall|q: int| 0 <= q < p ==> !holds_id(placed[q], id)
}

proof fn lemma_first_position(placed: Seq<LinkedNode>, id: int, q0: int)
    requires
        0 <= q0 < placed.len(),
        holds_id(placed[q0], id),
    ensures
        exists|p: int| 0 <= p < placed.len() && holds_id(placed[p], id) && forall|q: int| 0 <= q < p ==> !holds_id(placed[q], id),
    decreases q0,
{
    if exists|q: int| 0 <= q < q0 && #[trigger] holds_id(placed[q], id) {
        let q = choose|q: int| 0 <= q < q0 && #[trigger] holds_id(placed[q], id);
        lemma_first_position(placed, id, q);
    }
}

/// A placed branch has a first position.
pub proof fn lemma_position_in(placed: Seq<LinkedNode>, id: int)
    requires
        is_placed(placed, id),
    ensures
        0 <= position_in(placed, id) < placed.len(),
        holds_id(placed[position_in(placed, id)], id),
        forall|q: int| 0 <= q < position_in(placed, id) ==> !holds_id(placed[q], id),
{
    let q0 = choose|q: int| 0 <= q < placed.len() && #[trigger] holds_id(placed[q], id);
    lemma_first_position(placed, id, q0);
}

/// The position of the slot holding the branch with index `id`.
pub fn position_of(nodes: &[LinkedNode], id: usize) -> (p: u16)
    requires
        is_placed(nodes@, id as int),
        nodes@.len() <= 0x1_0000,
    ensures
        p as int == position_in(nodes@, id as int),
        (p as int) < nodes@.len(),
{
    proof {
        lemma_position_in(nodes@, id as int);
    }
    let mut i: usize = 0;
    while i < nodes.len()
        invariant
            0 <= i <= nodes@.len(),
            nodes@.len() <= 0x1_0000,
            is_placed(nodes@, id as int),
            0 <= position_in(nodes@, id as int) < nodes@.len(),
            holds_id(nodes@[position_in(nodes@, id as int)], id as int),
            forall|q: int| 0 <= q < position_in(nodes@, id as int) ==> !holds_id(nodes@[q], id as int),
            forall|q: int| 0 <= q < i ==> !holds_id(nodes@[q], id as int),
        decreases nodes@.len() - i,
    {
        match &nodes[i] {
            LinkedNode::Branch(b) => {
                if b.id == id {
                    assert(holds_id(nodes@[i as int], id as int));
                    assert(i as int == position_in(nodes@, id as int)) by {
                        if (i as int) < position_in(nodes@, id as int) {
                        }
                    }
                    return i as u16;
                }
            },
            LinkedNode::Padding => {},
        }
        i = i + 1;
    }
    assert(false);
    0
}

/// The pointer or prediction that a child becomes in a compiled tree whose
/// branches start after `header_len` nodes.
pub open spec fn compiled_child(placed: Seq<LinkedNode>, c: Branch, header_len: int) -> int {
    match c {
        Branch::Ptr(j) => position_in(placed, j as int) + header_len,
        Branch::Prediction(p) => p as int,
    }
}

/// The compiled branch of a placed branch.
pub open spec fn compiled_branch(placed: Seq<LinkedNode>, e: LinkedBranchNode, header_len: int) -> model::Branch {
    model::Branch {
        left: compiled_child(placed, e.left_child, header_len) as u16,
        right: compiled_child(placed, e.right_child, header_len) as u16,
        split_at: e.split_at,
        flags: model::Flags(model::Flags::spec_new(e.split_with, e.left_child is Prediction, e.right_child is Prediction)),
    }
}

/// The slots point only to placed branches, split on variables that fit
/// in the flags, and fit with the header in 16-bit pointers.
pub open spec fn placement_compilable(placed: Seq<LinkedNode>) -> bool {
    &&& placed.len() <= 0xffff
    &&& forall|p: int| 0 <= p < placed.len() && (#[trigger] placed[p]) is Branch ==> {
        let e = placed[p]->Branch_0;
        &&& e.split_with <= 0x3fff
        &&& (e.left_child matches Branch::Ptr(j) ==> is_placed(placed, j as int))
        &&& (e.right_child matches Branch::Ptr(j) ==> is_placed(placed, j as int))
    }
}

/// Compile a placed branch into a node, with pointers to the positions of
/// its children shifted by the header length.
pub fn compile_branch(n: &LinkedBranchNode, placed_nodes: &[LinkedNode], header_len: u16) -> (r: model::Node)
    requires
        n.split_with <= 0x3fff,
        header_len <= 2,
        placed_nodes@.len() + header_len <= 0x1_0000,
        n.left_child matches Branch::Ptr(j) ==> is_placed(placed_nodes@, j as int),
        n.right_child matches Branch::Ptr(j) ==> is_placed(placed_nodes@, j as int),
    ensures
        r.branch() == compiled_branch(placed_nodes@, *n, header_len as int),
{
    let left = match n.left_child {
        Branch::Ptr(id) => position_of(placed_nodes, id) + header_len,
        Branch::Prediction(p) => p,
    };
    let right = match n.right_child {
        Branch::Ptr(id) => position_of(placed_nodes, id) + header_len,
        Branch::Prediction(p) => p,
    };
    model::Node::from_branch(model::Branch::new(
        n.split_with,
        n.split_at,
        left,
        right,
        n.left_child.is_prediction(),
        n.right_child.is_prediction(),
    ))
}

/// Errors of the compiler.
#[derive(Clone, Copy, Debug, PartialEq, Eq, Structural)]
pub enum CompileError {
    /// A tree's length does not fit in a `u32`.
    TreeTooLong,
    /// A cell holds more trees than a `u16` counts.
    TooManyTreesInCell,
    /// A tree's placement has more slots than 16-bit child pointers reach.
    PlacementTooLong,
    /// The pairing placement meets a child that is not waiting, a leaf in
    /// index order, or a line of two slots that is not used well.
    PlacementFailed,
    /// A cell would hold no tree.
    EmptyCell,
    /// The trees' headers do not follow one another.
    MalformedTrees,
    /// The sum of the trees' depths in cache lines does not fit in a `usize`.
    DepthOverflow,
}

/// Slot `p` of the placement is node `p + first` of the compiled tree: a
/// branch compiled with pointers shifted by `first`, or padding.
pub open spec fn compiled_slots(placed: Seq<LinkedNode>, c: Seq<model::Node>, first: int) -> bool {
    &&& c.len() >= first + placed.len()
    &&& forall|p: int| 0 <= p < placed.len() ==> match #[trigger] placed[p] {
        LinkedNode::Branch(e) => c[p + first].branch() == compiled_branch(placed, e, first),
        LinkedNode::Padding => c[p + first].spec_is_padding(),
    }
}

/// The compiled tree has the header, then slot `p` at node `p + 1`, then
/// padding to an even length.
pub open spec fn is_compiled_tree(placed: Seq<LinkedNode>, c: Seq<model::Node>) -> bool {
    let tail = if placed.len() % 2 == 0 { 1int } else { 0int };
    &&& c.len() == placed.len() + tail + 1
    &&& c.len() % 2 == 0
    &&& c[0].header() == (TreeHeader { tree_len: c.len() as u32, first_node_idx: 1, cache_metadata: CacheMetadata(0) })
    &&& forall|p: int| 0 <= p < placed.len() ==> match #[trigger] placed[p] {
        LinkedNode::Branch(e) => c[p + 1].branch() == compiled_branch(placed, e, 1),
        LinkedNode::Padding => c[p + 1].spec_is_padding(),
    }
    &&& tail == 1 ==> c[c.len() - 1].spec_is_padding()
}

/// Turn placed slots into the nodes of a compiled tree.
pub fn build_compiled_nodes(placed_nodes: &[LinkedNode]) -> (r: Result<Vec<model::Node>, CompileError>)
    requires
        placement_compilable(placed_nodes@),
    ensures
        r matches Ok(c) && is_compiled_tree(placed_nodes@, c@),
{
    let header_size: u16 = 1;
    let tail_padding: usize = if placed_nodes.len() % 2 == 0 { 1 } else { 0 };
    let tree_len_usize = placed_nodes.len() + tail_padding + header_size as usize;
    if tree_len_usize > u32::MAX as usize {
        return Err(CompileError::TreeTooLong);
    }
    let tree_len = tree_len_usize as u32;
    let mut compiled_nodes: Vec<model::Node> = Vec::new();
    let empty = CacheMetadata::new_empty();
    let header = TreeHeader { tree_len, first_node_idx: header_size, cache_metadata: empty };
    compiled_nodes.push(model::Node::from_header(header));
    let header_len: u16 = 1;
    let mut i: usize = 0;
    while i < placed_nodes.len()
        invariant
            placement_compilable(placed_nodes@),
            header_len == 1,
            0 <= i <= placed_nodes@.len(),
            compiled_nodes@.len() == i + 1,
            compiled_nodes@[0].header() == header,
            forall|p: int| 0 <= p < i ==> match #[trigger] placed_nodes@[p] {
                LinkedNode::Branch(e) => compiled_nodes@[p + 1].branch() == compiled_branch(placed_nodes@, e, 1),
                LinkedNode::Padding => compiled_nodes@[p + 1].spec_is_padding(),
            },
        decreases placed_nodes@.len() - i,
    {
        let new = match &placed_nodes[i] {
            LinkedNode::Padding => model::Node::padding(),
            LinkedNode::Branch(b) => {
                assert(placed_nodes@[i as int] is Branch);
                compile_branch(b, placed_nodes, header_len)
            },
        };
        let ghost before = compiled_nodes@;
        compiled_nodes.push(new);
        assert forall|p: int| 0 <= p < i + 1 implies match #[trigger] placed_nodes@[p] {
            LinkedNode::Branch(e) => compiled_nodes@[p + 1].branch() == compiled_branch(placed_nodes@, e, 1),
            LinkedNode::Padding => compiled_nodes@[p + 1].spec_is_padding(),
        } by {
            if p < i {
                assert(compiled_nodes@[p + 1] == before[p + 1]);
            }
        }
        i = i + 1;
    }
    if tail_padding == 1 {
        compiled_nodes.push(model::Node::padding());
    }
    Ok(compiled_nodes)
}


#[verifier::spinoff_prover]
#[verifier::rlimit(40)]
proof fn lemma_compiled_walk(t: Seq<Node>, placed: Seq<LinkedNode>, c: Seq<model::Node>, first: int, j: int, features: Seq<u16>, fuel: nat)
    requires
        valid_placement(t, placed),
        placement_compilable(placed),
        compiled_slots(placed, c, first),
        1 <= first <= 2,
        placed.len() + first <= 0x1_0000,
        leaves_fit(t),
        ir_paths_end(t, j, features.len(), fuel),
        t[j] is Branch,
        is_placed(placed, j),
    ensures
        paths_end(c, position_in(placed, j) + first, features.len(), fuel),
        walk(c, position_in(placed, j) + first, features, fuel) == ir_walk(t, j, features, fuel),
    decreases fuel,
{
    lemma_position_in(placed, j);
    let p = position_in(placed, j);
    let e = placed[p]->Branch_0;
    assert(placed[p] is Branch);
    assert(linked_from(t, e));
    let b = t[j]->Branch_0;
    let cb = c[p + first].branch();
    assert(cb == compiled_branch(placed, e, first));
    lemma_flags_decode(e.split_with, e.left_child is Prediction, e.right_child is Prediction);
    assert(0 <= p < placed.len());
    assert(p + first < c.len());
    assert(cb.flags.spec_split_var_idx() == b.split_with);
    assert(cb.split_at == b.split_at);
    assert(fuel > 0);
    assert((b.split_with as int) < features.len());
    assert(ir_paths_end(t, b.left as int, features.len(), (fuel - 1) as nat));
    assert(ir_paths_end(t, b.right as int, features.len(), (fuel - 1) as nat));
    if t[b.left as int] is Leaf {
        assert(e.left_child == Branch::Prediction(t[b.left as int]->Leaf_0.prediction));
        assert(cb.flags.spec_left_prediction());
        assert(cb.left == t[b.left as int]->Leaf_0.prediction);
        assert(ir_walk(t, b.left as int, features, (fuel - 1) as nat) == Some(cb.left));
    } else {
        assert(e.left_child == Branch::Ptr(b.left));
        lemma_position_in(placed, b.left as int);
        lemma_compiled_walk(t, placed, c, first, b.left as int, features, (fuel - 1) as nat);
        assert(!cb.flags.spec_left_prediction());
        assert(cb.left as int == position_in(placed, b.left as int) + first);
    }
    if t[b.right as int] is Leaf {
        assert(e.right_child == Branch::Prediction(t[b.right as int]->Leaf_0.prediction));
        assert(cb.flags.spec_right_prediction());
        assert(cb.right == t[b.right as int]->Leaf_0.prediction);
        assert(ir_walk(t, b.right as int, features, (fuel - 1) as nat) == Some(cb.right));
    } else {
        assert(e.right_child == Branch::Ptr(b.right));
        lemma_position_in(placed, b.right as int);
        lemma_compiled_walk(t, placed, c, first, b.right as int, features, (fuel - 1) as nat);
        assert(!cb.flags.spec_right_prediction());
        assert(cb.right as int == position_in(placed, b.right as int) + first);
    }
    assert(c[p + first].branch() == cb);
    assert(paths_end(c, p + first, features.len(), fuel));
    assert(walk(c, p + first, features, fuel) == ir_walk(t, j, features, fuel));
}

/// The compiled slots of a valid placement predict what the tree predicts:
/// walking them from the root's slot (node `first`) ends for every input on
/// which the tree's walk ends, and at the same class.
pub proof fn lemma_compiled_slots_predict(t: Seq<Node>, placed: Seq<LinkedNode>, c: Seq<model::Node>, first: int, features: Seq<u16>)
    requires
        valid_placement(t, placed),
        placement_compilable(placed),
        compiled_slots(placed, c, first),
        1 <= first <= 2,
        placed.len() + first <= 0x1_0000,
        leaves_fit(t),
        tree_predicts(t, features.len()),
        t[0] is Branch,
    ensures
        exists|fuel: nat| paths_end(c, first, features.len(), fuel),
        forall|fuel: nat| paths_end(c, first, features.len(), fuel) ==> walk(c, first, features, fuel) == Some(tree_prediction(t, features)),
{
    let f = choose|fuel: nat| ir_paths_end(t, 0, features.len(), fuel);
    assert(is_placed(placed, 0));
    lemma_position_in(placed, 0);
    assert(position_in(placed, 0) == 0) by {
        if position_in(placed, 0) > 0 {
            assert(!holds_id(placed[0], 0));
        }
    }
    lemma_compiled_walk(t, placed, c, first, 0, features, f);
    crate::compiler::lemma_ir_paths_end_walk(t, 0, features, f);
    assert forall|fuel: nat| paths_end(c, first, features.len(), fuel) implies walk(c, first, features, fuel) == Some(tree_prediction(t, features)) by {
        lemma_walk_fuel_independent(c, first, features, fuel, f);
    }
}

/// A compiled tree predicts what its tree predicts: walking the compiled nodes
/// from the first branch (node 1) ends for every input on which the tree's
/// walk ends, and at the same class. This holds for every valid placement.
pub proof fn lemma_compiled_tree_predicts_as_tree(t: Seq<Node>, placed: Seq<LinkedNode>, c: Seq<model::Node>, features: Seq<u16>)
    requires
        valid_placement(t, placed),
        placement_compilable(placed),
        is_compiled_tree(placed, c),
        leaves_fit(t),
        tree_predicts(t, features.len()),
        t[0] is Branch,
    ensures
        exists|fuel: nat| paths_end(c, 1, features.len(), fuel),
        forall|fuel: nat| paths_end(c, 1, features.len(), fuel) ==> walk(c, 1, features, fuel) == Some(tree_prediction(t, features)),
{
    lemma_compiled_slots_predict(t, placed, c, 1, features);
}

/// Every branch of the tree is placed.
pub open spec fn places_all_branches(t: Seq<Node>, placed: Seq<LinkedNode>) -> bool {
    forall|j: int| 0 <= j < t.len() && (#[trigger] t[j]) is Branch ==> is_placed(placed, j)
}

/// Slots made from the tree, the root first.
pub open spec fn slots_from(t: Seq<Node>, placed: Seq<LinkedNode>) -> bool {
    &&& placed.len() > 0
    &&& holds_id(placed[0], 0)
    &&& forall|p: int| 0 <= p < placed.len() && (#[trigger] placed[p]) is Branch ==> linked_from(t, placed[p]->Branch_0)
}

/// Slots made from the tree that place every branch form a valid placement.
pub proof fn lemma_all_placed_valid(t: Seq<Node>, placed: Seq<LinkedNode>)
    requires
        slots_from(t, placed),
        places_all_branches(t, placed),
        ir_tree_wf(t),
    ensures
        valid_placement(t, placed),
{
    assert forall|p: int| 0 <= p < placed.len() && (#[trigger] placed[p]) is Branch implies {
        let e = placed[p]->Branch_0;
        &&& (e.left_child matches Branch::Ptr(j) ==> is_placed(placed, j as int))
        &&& (e.right_child matches Branch::Ptr(j) ==> is_placed(placed, j as int))
    } by {
        let e = placed[p]->Branch_0;
        assert(linked_from(t, e));
        let b = t[e.id as int]->Branch_0;
        if let Branch::Ptr(j) = e.left_child {
            assert(t[b.left as int] is Branch);
        }
        if let Branch::Ptr(j) = e.right_child {
            assert(t[b.right as int] is Branch);
        }
    }
}

/// The number of leaf children of a branch.
pub open spec fn leaf_children(t: Seq<Node>, id: int) -> int {
    let b = t[id]->Branch_0;
    (if t[b.left as int] is Leaf { 1int } else { 0int }) + (if t[b.right as int] is Leaf { 1int } else { 0int })
}

/// The branches other than the root among the first `n` nodes that have `k`
/// leaf children, in index order.
pub open spec fn branches_with_leaves(t: Seq<Node>, n: int, k: int) -> Seq<usize>
    decreases n,
{
    if n <= 1 {
        Seq::empty()
    } else {
        let prev = branches_with_leaves(t, n - 1, k);
        if t[n - 1] is Branch && leaf_children(t, n - 1) == k {
            prev.push((n - 1) as usize)
        } else {
            prev
        }
    }
}

/// The slot of the branch at `id`, reached from `parent`.
pub open spec fn slot_of(t: Seq<Node>, id: usize, parent: Option<usize>) -> LinkedNode {
    LinkedNode::Branch(orders::linked_of(t, id, parent))
}

/// The placement state: the branches placed so far, and the slots.
pub type PlacementState = (Set<usize>, Seq<LinkedNode>);

/// The state with only the root placed.
pub open spec fn root_placed(t: Seq<Node>) -> PlacementState {
    (set![0usize], seq![slot_of(t, 0, None)])
}

/// Place a branch with one leaf child, unless placed already, followed by
/// its branch child.
pub open spec fn place_single_leaf(t: Seq<Node>, st: PlacementState, id: usize) -> PlacementState {
    if st.0.contains(id) {
        st
    } else {
        let b = t[id as int]->Branch_0;
        let child = if t[b.left as int] is Branch { b.left } else { b.right };
        (st.0.insert(id).insert(child), st.1.push(slot_of(t, id, None)).push(slot_of(t, child, Some(id))))
    }
}

/// Place a branch with two branch children, unless placed already, followed
/// by the unplaced child with more leaves (the left one on a tie), or by
/// padding when both are placed.
pub open spec fn place_double_ptr(t: Seq<Node>, st: PlacementState, id: usize) -> PlacementState {
    if st.0.contains(id) {
        st
    } else {
        let b = t[id as int]->Branch_0;
        let placed = st.0.insert(id);
        let slots = st.1.push(slot_of(t, id, None));
        let lp = placed.contains(b.left);
        let rp = placed.contains(b.right);
        if lp && rp {
            (placed, slots.push(LinkedNode::Padding))
        } else {
            let best = if !lp && !rp {
                if leaf_children(t, b.left as int) >= leaf_children(t, b.right as int) {
                    b.left
                } else {
                    b.right
                }
            } else if !lp {
                b.left
            } else {
                b.right
            };
            (placed.insert(best), slots.push(slot_of(t, best, Some(id))))
        }
    }
}

/// Place a branch with two leaves, unless placed already.
pub open spec fn place_double_prediction(t: Seq<Node>, st: PlacementState, id: usize) -> PlacementState {
    if st.0.contains(id) {
        st
    } else {
        (st.0, st.1.push(slot_of(t, id, None)))
    }
}

/// One pass over `ids`: the pass with leaf count `k` places each in turn.
pub open spec fn placement_pass(t: Seq<Node>, st: PlacementState, ids: Seq<usize>, k: int) -> PlacementState
    decreases ids.len(),
{
    if ids.len() == 0 {
        st
    } else {
        let prev = placement_pass(t, st, ids.drop_last(), k);
        if k == 1 {
            place_single_leaf(t, prev, ids.last())
        } else if k == 0 {
            place_double_ptr(t, prev, ids.last())
        } else {
            place_double_prediction(t, prev, ids.last())
        }
    }
}

/// The execution-aware placement: the root, then the pass over the branches
/// with one leaf, then over those with none, then over those with two.
pub open spec fn execution_aware_order(t: Seq<Node>) -> Seq<LinkedNode> {
    let n = t.len() as int;
    let s1 = placement_pass(t, root_placed(t), branches_with_leaves(t, n, 1), 1);
    let s2 = placement_pass(t, s1, branches_with_leaves(t, n, 0), 0);
    placement_pass(t, s2, branches_with_leaves(t, n, 2), 2).1
}

/// A pass extended by one more branch takes one more step.
pub proof fn lemma_placement_pass_step(t: Seq<Node>, st: PlacementState, ids: Seq<usize>, k: int, j: int)
    requires
        0 <= j < ids.len(),
    ensures
        placement_pass(t, st, ids.take(j + 1), k) == (if k == 1 {
            place_single_leaf(t, placement_pass(t, st, ids.take(j), k), ids[j])
        } else if k == 0 {
            place_double_ptr(t, placement_pass(t, st, ids.take(j), k), ids[j])
        } else {
            place_double_prediction(t, placement_pass(t, st, ids.take(j), k), ids[j])
        }),
{
    assert(ids.take(j + 1).drop_last() =~= ids.take(j));
    assert(ids.take(j + 1).last() == ids[j]);
}

/// Two slots of a line in the execution-aware order: two branches with two
/// leaf children each, a branch followed by one of its pointer children, or a
/// branch followed by padding.
pub open spec fn aware_line(a: LinkedNode, b: LinkedNode) -> bool {
    line_paired(a, b) || (a is Branch && b is Padding)
}

/// Every full line after the root (slots `i` and `i + 1` for odd `i`; the
/// root at slot 0 shares its line with the header) is an `aware_line`.
pub open spec fn aware_lines(s: Seq<LinkedNode>) -> bool {
    forall|i: int| 1 <= i < s.len() - 1 && i % 2 == 1 ==> aware_line(#[trigger] s[i], s[i + 1])
}

/// What each pass keeps: full lines are well used; during the first two
/// passes every line is full; a line left open holds a branch with two leaf
/// children.
pub open spec fn pass_lines(s: Seq<LinkedNode>, k: int) -> bool {
    &&& s.len() >= 1
    &&& aware_lines(s)
    &&& k < 2 ==> s.len() % 2 == 1
    &&& s.len() % 2 == 0 ==> is_double_prediction(s.last())
}

proof fn lemma_branches_with_leaves(t: Seq<Node>, n: int, k: int)
    requires
        n <= t.len(),
        t.len() <= usize::MAX,
    ensures
        forall|q: int| 0 <= q < branches_with_leaves(t, n, k).len() ==> {
            let id = #[trigger] branches_with_leaves(t, n, k)[q] as int;
            &&& 0 < id < n
            &&& t[id] is Branch
            &&& leaf_children(t, id) == k
        },
    decreases n,
{
    if n > 1 {
        lemma_branches_with_leaves(t, n - 1, k);
        let prev = branches_with_leaves(t, n - 1, k);
        assert forall|q: int| 0 <= q < branches_with_leaves(t, n, k).len() implies {
            let id = #[trigger] branches_with_leaves(t, n, k)[q] as int;
            &&& 0 < id < n
            &&& t[id] is Branch
            &&& leaf_children(t, id) == k
        } by {
            if q < prev.len() {
                assert(branches_with_leaves(t, n, k)[q] == prev[q]);
            }
        }
    }
}

/// A pass keeps its lines well used.
proof fn lemma_pass_lines(t: Seq<Node>, st: PlacementState, ids: Seq<usize>, k: int)
    requires
        ir_tree_wf(t),
        0 <= k <= 2,
        forall|q: int| 0 <= q < ids.len() ==> 0 <= (#[trigger] ids[q]) < t.len() && t[ids[q] as int] is Branch && leaf_children(
            t,
            ids[q] as int,
        ) == k,
        pass_lines(st.1, k),
    ensures
        pass_lines(placement_pass(t, st, ids, k).1, k),
    decreases ids.len(),
{
    if ids.len() > 0 {
        let p = ids.drop_last();
        assert forall|q: int| 0 <= q < p.len() implies 0 <= (#[trigger] p[q]) < t.len() && t[p[q] as int] is Branch && leaf_children(
            t,
            p[q] as int,
        ) == k by {
            assert(p[q] == ids[q]);
        }
        lemma_pass_lines(t, st, p, k);
        let prev = placement_pass(t, st, p, k);
        let s = prev.1;
        let id = ids.last();
        assert(id == ids[ids.len() - 1]);
        let b = t[id as int]->Branch_0;
        let a = slot_of(t, id, None);
        if !prev.0.contains(id) {
            if k == 1 {
                let child = if t[b.left as int] is Branch { b.left } else { b.right };
                let s2 = s.push(a).push(slot_of(t, child, Some(id)));
                assert(line_paired(s2[s.len() as int], s2[s.len() as int + 1]));
                assert forall|i: int| 1 <= i < s2.len() - 1 && i % 2 == 1 implies aware_line(#[trigger] s2[i], s2[i + 1]) by {
                    if i + 1 < s.len() {
                        assert(s2[i] == s[i] && s2[i + 1] == s[i + 1]);
                    }
                }
            } else if k == 0 {
                let placed = prev.0.insert(id);
                let s1 = s.push(a);
                let next = placement_pass(t, st, ids, k).1;
                assert(next.len() == s.len() + 2);
                assert(next[s.len() as int] == a);
                assert(aware_line(next[s.len() as int], next[s.len() as int + 1]));
                assert forall|i: int| 1 <= i < next.len() - 1 && i % 2 == 1 implies aware_line(#[trigger] next[i], next[i + 1]) by {
                    if i + 1 < s.len() {
                        assert(next[i] == s[i] && next[i + 1] == s[i + 1]);
                    }
                }
            } else {
                let s2 = s.push(a);
                assert(is_double_prediction(a));
                assert forall|i: int| 1 <= i < s2.len() - 1 && i % 2 == 1 implies aware_line(#[trigger] s2[i], s2[i + 1]) by {
                    if i + 1 < s.len() {
                        assert(s2[i] == s[i] && s2[i + 1] == s[i + 1]);
                    } else {
                        assert(s2[i] == s.last());
                    }
                }
                assert(s2.last() == a);
            }
        }
    }
}

/// The other child of the branch at `id` than `c`.
pub open spec fn other_child(t: Seq<Node>, id: usize, c: usize) -> usize {
    let b = t[id as int]->Branch_0;
    if c == b.left {
        b.right
    } else {
        b.left
    }
}

/// Every full line after the root whose first slot is a branch with two
/// pointer children and whose second slot is a branch holds one of those
/// children, and, when the other child had no slot before, the child with
/// more leaf children (the left one on a tie).
pub open spec fn best_child_lines(t: Seq<Node>, s: Seq<LinkedNode>) -> bool {
    forall|i: int|
        1 <= i < s.len() - 1 && i % 2 == 1 && (#[trigger] s[i]) is Branch && s[i]->Branch_0.left_child is Ptr
            && s[i]->Branch_0.right_child is Ptr && s[i + 1] is Branch ==> {
            let id = s[i]->Branch_0.id;
            let c = s[i + 1]->Branch_0.id;
            let b = t[id as int]->Branch_0;
            let o = other_child(t, id, c);
            &&& c == b.left || c == b.right
            &&& !is_placed(s.take(i + 1), o as int) ==> leaf_children(t, c as int) > leaf_children(t, o as int) || (leaf_children(
                t,
                c as int,
            ) == leaf_children(t, o as int) && c == b.left)
        }
}

/// The placed set holds exactly the branches that have a slot.
pub open spec fn set_matches(st: PlacementState) -> bool {
    forall|x: usize| #[trigger] st.0.contains(x) <==> is_placed(st.1, x as int)
}

proof fn lemma_is_placed_push(s: Seq<LinkedNode>, n: LinkedNode, x: int)
    ensures
        is_placed(s.push(n), x) <==> is_placed(s, x) || holds_id(n, x),
{
    let s1 = s.push(n);
    if is_placed(s, x) {
        let q = choose|q: int| 0 <= q < s.len() && #[trigger] holds_id(s[q], x);
        assert(holds_id(s1[q], x));
    }
    if holds_id(n, x) {
        assert(holds_id(s1[s.len() as int], x));
    }
    if is_placed(s1, x) {
        let q = choose|q: int| 0 <= q < s1.len() && #[trigger] holds_id(s1[q], x);
        if q < s.len() {
            assert(s1[q] == s[q]);
        }
    }
}

/// Appending slots keeps the lines already there.
proof fn lemma_best_lines_push(t: Seq<Node>, s: Seq<LinkedNode>, n: LinkedNode)
    requires
        best_child_lines(t, s),
        s.len() % 2 == 1 || !(s.last() is Branch && s.last()->Branch_0.left_child is Ptr && s.last()->Branch_0.right_child is Ptr),
        s.len() >= 1,
    ensures
        best_child_lines(t, s.push(n)),
{
    let s1 = s.push(n);
    assert forall|i: int|
        1 <= i < s1.len() - 1 && i % 2 == 1 && (#[trigger] s1[i]) is Branch && s1[i]->Branch_0.left_child is Ptr
            && s1[i]->Branch_0.right_child is Ptr && s1[i + 1] is Branch implies {
            let id = s1[i]->Branch_0.id;
            let c = s1[i + 1]->Branch_0.id;
            let b = t[id as int]->Branch_0;
            let o = other_child(t, id, c);
            &&& c == b.left || c == b.right
            &&& !is_placed(s1.take(i + 1), o as int) ==> leaf_children(t, c as int) > leaf_children(t, o as int) || (leaf_children(
                t,
                c as int,
            ) == leaf_children(t, o as int) && c == b.left)
        } by {
        assert(i + 1 < s.len()) by {
            if i + 1 == s.len() {
                assert(s1[i] == s.last());
            }
        }
        assert(s1[i] == s[i] && s1[i + 1] == s[i + 1]);
        assert(s1.take(i + 1) =~= s.take(i + 1));
    }
}

proof fn lemma_step_single(t: Seq<Node>, prev: PlacementState, id: usize)
    requires
        ir_tree_wf(t),
        0 <= id < t.len(),
        t[id as int] is Branch,
        leaf_children(t, id as int) == 1,
        pass_lines(prev.1, 1),
        best_child_lines(t, prev.1),
        set_matches(prev),
    ensures
        best_child_lines(t, place_single_leaf(t, prev, id).1),
        set_matches(place_single_leaf(t, prev, id)),
{
    let s = prev.1;
    let b = t[id as int]->Branch_0;
    let a = slot_of(t, id, None);
    if !prev.0.contains(id) {
        let child = if t[b.left as int] is Branch { b.left } else { b.right };
        let n2 = slot_of(t, child, Some(id));
        lemma_best_lines_push(t, s, a);
        assert(a->Branch_0.left_child is Prediction || a->Branch_0.right_child is Prediction);
        assert(s.push(a).last() == a);
        lemma_best_lines_push(t, s.push(a), n2);
        assert forall|x: usize| #[trigger] prev.0.insert(id).insert(child).contains(x) <==> is_placed(s.push(a).push(n2), x as int) by {
            lemma_is_placed_push(s, a, x as int);
            lemma_is_placed_push(s.push(a), n2, x as int);
            assert(prev.0.contains(x) <==> is_placed(s, x as int));
        }
    }
}

#[verifier::spinoff_prover]
#[verifier::rlimit(80)]
proof fn lemma_step_double_ptr(t: Seq<Node>, prev: PlacementState, id: usize)
    requires
        ir_tree_wf(t),
        0 <= id < t.len(),
        t[id as int] is Branch,
        leaf_children(t, id as int) == 0,
        pass_lines(prev.1, 0),
        best_child_lines(t, prev.1),
        set_matches(prev),
    ensures
        best_child_lines(t, place_double_ptr(t, prev, id).1),
        set_matches(place_double_ptr(t, prev, id)),
{
    let s = prev.1;
    let b = t[id as int]->Branch_0;
    let a = slot_of(t, id, None);
    let next = place_double_ptr(t, prev, id);
    if !prev.0.contains(id) {
        let placed = prev.0.insert(id);
        let s1 = s.push(a);
        let lp = placed.contains(b.left);
        let rp = placed.contains(b.right);
        lemma_best_lines_push(t, s, a);
        assert forall|x: usize| #[trigger] placed.contains(x) <==> is_placed(s1, x as int) by {
            lemma_is_placed_push(s, a, x as int);
            assert(prev.0.contains(x) <==> is_placed(s, x as int));
        }
        if lp && rp {
            assert(next.1 == s1.push(LinkedNode::Padding));
            assert(s1.len() % 2 == 0);
            assert forall|i: int|
                1 <= i < next.1.len() - 1 && i % 2 == 1 && (#[trigger] next.1[i]) is Branch && next.1[i]->Branch_0.left_child is Ptr
                    && next.1[i]->Branch_0.right_child is Ptr && next.1[i + 1] is Branch implies {
                    let id2 = next.1[i]->Branch_0.id;
                    let c = next.1[i + 1]->Branch_0.id;
                    let b2 = t[id2 as int]->Branch_0;
                    let o = other_child(t, id2, c);
                    &&& c == b2.left || c == b2.right
                    &&& !is_placed(next.1.take(i + 1), o as int) ==> leaf_children(t, c as int) > leaf_children(t, o as int) || (
                    leaf_children(t, c as int) == leaf_children(t, o as int) && c == b2.left)
                } by {
                assert(i + 1 < s1.len());
                assert(next.1[i] == s1[i] && next.1[i + 1] == s1[i + 1]);
                assert(next.1.take(i + 1) =~= s1.take(i + 1));
            }
            assert forall|x: usize| #[trigger] next.0.contains(x) <==> is_placed(next.1, x as int) by {
                lemma_is_placed_push(s1, LinkedNode::Padding, x as int);
            }
        } else {
            let best = if !lp && !rp {
                if leaf_children(t, b.left as int) >= leaf_children(t, b.right as int) {
                    b.left
                } else {
                    b.right
                }
            } else if !lp {
                b.left
            } else {
                b.right
            };
            let n2 = slot_of(t, best, Some(id));
            assert(next.1 == s1.push(n2));
            assert(next.0 == placed.insert(best));
            let s2 = s1.push(n2);
            let L = s.len() as int;
            assert forall|x: usize| #[trigger] next.0.contains(x) <==> is_placed(s2, x as int) by {
                lemma_is_placed_push(s1, n2, x as int);
            }
            assert forall|i: int|
                1 <= i < s2.len() - 1 && i % 2 == 1 && (#[trigger] s2[i]) is Branch && s2[i]->Branch_0.left_child is Ptr
                    && s2[i]->Branch_0.right_child is Ptr && s2[i + 1] is Branch implies {
                    let id2 = s2[i]->Branch_0.id;
                    let c = s2[i + 1]->Branch_0.id;
                    let b2 = t[id2 as int]->Branch_0;
                    let o = other_child(t, id2, c);
                    &&& c == b2.left || c == b2.right
                    &&& !is_placed(s2.take(i + 1), o as int) ==> leaf_children(t, c as int) > leaf_children(t, o as int) || (
                    leaf_children(t, c as int) == leaf_children(t, o as int) && c == b2.left)
                } by {
                if i < L {
                    assert(s2[i] == s1[i] && s2[i + 1] == s1[i + 1]);
                    assert(s2.take(i + 1) =~= s1.take(i + 1));
                } else {
                    assert(i == L);
                    assert(s2[i] == a && s2[i + 1] == n2);
                    assert(s2.take(i + 1) =~= s1);
                    let o = other_child(t, id, best);
                    if !is_placed(s1, o as int) {
                        assert(!placed.contains(o));
                    }
                }
            }
        }
    }
}

proof fn lemma_step_double_pred(t: Seq<Node>, prev: PlacementState, id: usize)
    requires
        ir_tree_wf(t),
        0 <= id < t.len(),
        t[id as int] is Branch,
        leaf_children(t, id as int) == 2,
        pass_lines(prev.1, 2),
        best_child_lines(t, prev.1),
    ensures
        best_child_lines(t, place_double_prediction(t, prev, id).1),
{
    let s = prev.1;
    let a = slot_of(t, id, None);
    if !prev.0.contains(id) {
        lemma_best_lines_push(t, s, a);
    }
}

/// One step of a pass keeps the best-child lines, and in the first two
/// passes the placed set holding exactly the branches with a slot.
proof fn lemma_step_best(t: Seq<Node>, prev: PlacementState, id: usize, k: int)
    requires
        ir_tree_wf(t),
        0 <= k <= 2,
        0 <= id < t.len(),
        t[id as int] is Branch,
        leaf_children(t, id as int) == k,
        pass_lines(prev.1, k),
        best_child_lines(t, prev.1),
        k < 2 ==> set_matches(prev),
    ensures
        ({
            let step_result = if k == 1 {
                place_single_leaf(t, prev, id)
            } else if k == 0 {
                place_double_ptr(t, prev, id)
            } else {
                place_double_prediction(t, prev, id)
            };
            &&& best_child_lines(t, step_result.1)
            &&& k < 2 ==> set_matches(step_result)
        }),
{
    if k == 1 {
        lemma_step_single(t, prev, id);
    } else if k == 0 {
        lemma_step_double_ptr(t, prev, id);
    } else {
        lemma_step_double_pred(t, prev, id);
    }
}

/// A pass keeps its best-child lines, and in the first two passes the placed
/// set holds exactly the branches with a slot.
proof fn lemma_pass_best(t: Seq<Node>, st: PlacementState, ids: Seq<usize>, k: int)
    requires
        ir_tree_wf(t),
        0 <= k <= 2,
        forall|q: int| 0 <= q < ids.len() ==> 0 <= (#[trigger] ids[q]) < t.len() && t[ids[q] as int] is Branch && leaf_children(
            t,
            ids[q] as int,
        ) == k,
        pass_lines(st.1, k),
        best_child_lines(t, st.1),
        k < 2 ==> set_matches(st),
    ensures
        best_child_lines(t, placement_pass(t, st, ids, k).1),
        k < 2 ==> set_matches(placement_pass(t, st, ids, k)),
    decreases ids.len(),
{
    if ids.len() > 0 {
        let p = ids.drop_last();
        assert forall|q: int| 0 <= q < p.len() implies 0 <= (#[trigger] p[q]) < t.len() && t[p[q] as int] is Branch && leaf_children(
            t,
            p[q] as int,
        ) == k by {
            assert(p[q] == ids[q]);
        }
        lemma_pass_best(t, st, p, k);
        lemma_pass_lines(t, st, p, k);
        let id = ids.last();
        assert(id == ids[ids.len() - 1]);
        lemma_step_best(t, placement_pass(t, st, p, k), id, k);
    }
}

/// In the execution-aware order, a branch with two pointer children that
/// starts a line is followed, when the line holds a branch, by one of its
/// children; and when the other child has no slot before that line, by the
/// child with more leaf children, the left one on a tie.
pub proof fn lemma_execution_aware_best_child(t: Seq<Node>)
    requires
        ir_tree_wf(t),
        t.len() <= usize::MAX,
    ensures
        best_child_lines(t, execution_aware_order(t)),
{
    let n = t.len() as int;
    lemma_branches_with_leaves(t, n, 1);
    lemma_branches_with_leaves(t, n, 0);
    lemma_branches_with_leaves(t, n, 2);
    let s0 = root_placed(t);
    assert(pass_lines(s0.1, 1));
    assert forall|x: usize| #[trigger] s0.0.contains(x) <==> is_placed(s0.1, x as int) by {
        if is_placed(s0.1, x as int) {
            let q = choose|q: int| 0 <= q < s0.1.len() && #[trigger] holds_id(s0.1[q], x as int);
            assert(q == 0);
        }
        if x == 0 {
            assert(holds_id(s0.1[0], 0));
        }
    }
    lemma_pass_lines(t, s0, branches_with_leaves(t, n, 1), 1);
    lemma_pass_best(t, s0, branches_with_leaves(t, n, 1), 1);
    let s1 = placement_pass(t, s0, branches_with_leaves(t, n, 1), 1);
    lemma_pass_lines(t, s1, branches_with_leaves(t, n, 0), 0);
    lemma_pass_best(t, s1, branches_with_leaves(t, n, 0), 0);
    let s2 = placement_pass(t, s1, branches_with_leaves(t, n, 0), 0);
    assert(pass_lines(s2.1, 2));
    lemma_pass_best(t, s2, branches_with_leaves(t, n, 2), 2);
}

/// The execution-aware order pairs its slots line by line: the root shares
/// its line with the header, and every following line of two slots holds a
/// branch and one of its pointer children, a branch and padding, or two
/// branches with two leaf children each.
pub proof fn lemma_execution_aware_lines(t: Seq<Node>)
    requires
        ir_tree_wf(t),
        t.len() <= usize::MAX,
    ensures
        execution_aware_order(t).len() >= 1,
        aware_lines(execution_aware_order(t)),
{
    let n = t.len() as int;
    lemma_branches_with_leaves(t, n, 1);
    lemma_branches_with_leaves(t, n, 0);
    lemma_branches_with_leaves(t, n, 2);
    let s0 = root_placed(t);
    assert(pass_lines(s0.1, 1));
    lemma_pass_lines(t, s0, branches_with_leaves(t, n, 1), 1);
    let s1 = placement_pass(t, s0, branches_with_leaves(t, n, 1), 1);
    lemma_pass_lines(t, s1, branches_with_leaves(t, n, 0), 0);
    let s2 = placement_pass(t, s1, branches_with_leaves(t, n, 0), 0);
    assert(pass_lines(s2.1, 2));
    lemma_pass_lines(t, s2, branches_with_leaves(t, n, 2), 2);
}

/// Place nodes so that each even slot is followed by one of its children
/// where possible: the root first (it pairs with the header), then each
/// branch with one leaf followed by its branch child, then each branch with
/// two branch children followed by the unplaced child with more leaves
/// (padding when both are placed), then the branches with two leaves.
#[verifier::spinoff_prover]
#[verifier::rlimit(40)]
pub fn execution_aware_placement(tree: &Tree) -> (r: Vec<LinkedNode>)
    requires
        ir_tree_wf(tree.nodes@),
    ensures
        valid_placement(tree.nodes@, r@),
        places_all_branches(tree.nodes@, r@),
        r@.len() <= 2 * tree.nodes@.len(),
        r@ == execution_aware_order(tree.nodes@),
{
    let ghost t = tree.nodes@;
    let root_id: usize = 0;
    let mut double_prediction: Vec<usize> = Vec::new();
    let mut single_leaf: Vec<usize> = Vec::new();
    let mut double_ptr: Vec<usize> = Vec::new();
    let mut id: usize = 0;
    while id < tree.nodes.len()
        invariant
            t == tree.nodes@,
            root_id == 0,
            ir_tree_wf(t),
            0 <= id <= t.len(),
            forall|k: int| 0 <= k < single_leaf@.len() ==> 0 < #[trigger] single_leaf@[k] < t.len() && t[single_leaf@[k] as int] is Branch
                && leaf_children(t, single_leaf@[k] as int) == 1,
            forall|k: int| 0 <= k < double_ptr@.len() ==> 0 < #[trigger] double_ptr@[k] < t.len() && t[double_ptr@[k] as int] is Branch
                && leaf_children(t, double_ptr@[k] as int) == 0,
            forall|k: int| 0 <= k < double_prediction@.len() ==> 0 < #[trigger] double_prediction@[k] < t.len() && t[double_prediction@[k] as int] is Branch,
            forall|j: int| 0 < j < id && (#[trigger] t[j]) is Branch ==> single_leaf@.contains(j as usize) || double_ptr@.contains(j as usize)
                || double_prediction@.contains(j as usize),
            single_leaf@.len() + double_ptr@.len() + double_prediction@.len() + 1 <= id || (id == 0 && single_leaf@.len()
                + double_ptr@.len() + double_prediction@.len() == 0),
            single_leaf@ == branches_with_leaves(t, id as int, 1),
            double_ptr@ == branches_with_leaves(t, id as int, 0),
            double_prediction@ == branches_with_leaves(t, id as int, 2),
        decreases t.len() - id,
    {
        let ghost sl0 = single_leaf@;
        let ghost dp0 = double_ptr@;
        let ghost dd0 = double_prediction@;
        let ghost mut pushed_to: int = 0;
        if id != root_id {
            match &tree.nodes[id] {
                Node::Branch(branch) => {
                    assert(t[id as int] is Branch);
                    assert(t[id as int]->Branch_0 == *branch);
                    let left_is_leaf = tree.nodes[branch.left].is_leaf();
                    let right_is_leaf = tree.nodes[branch.right].is_leaf();
                    if left_is_leaf && right_is_leaf {
                        double_prediction.push(id);
                        proof {
                            pushed_to = 3;
                        }
                    } else if left_is_leaf || right_is_leaf {
                        single_leaf.push(id);
                        assert(leaf_children(t, id as int) == 1);
                        proof {
                            pushed_to = 1;
                        }
                    } else {
                        double_ptr.push(id);
                        assert(leaf_children(t, id as int) == 0);
                        proof {
                            pushed_to = 2;
                        }
                    }
                },
                Node::Leaf(_) => {},
            }
        }
        proof {
            assert(single_leaf@ == if pushed_to == 1 { sl0.push(id) } else { sl0 });
            assert(double_ptr@ == if pushed_to == 2 { dp0.push(id) } else { dp0 });
            assert(double_prediction@ == if pushed_to == 3 { dd0.push(id) } else { dd0 });
            assert((id as int != 0 && t[id as int] is Branch) ==> pushed_to != 0);
            assert(pushed_to == 2 ==> leaf_children(t, id as int) == 0);
            assert(pushed_to == 1 ==> leaf_children(t, id as int) == 1);
            assert(pushed_to == 3 ==> leaf_children(t, id as int) == 2);
            assert(id != 0 && t[id as int] is Branch ==> (pushed_to == 1 <==> leaf_children(t, id as int) == 1));
            assert(id != 0 && t[id as int] is Branch ==> (pushed_to == 2 <==> leaf_children(t, id as int) == 0));
            assert(id != 0 && t[id as int] is Branch ==> (pushed_to == 3 <==> leaf_children(t, id as int) == 2));
            assert(single_leaf@ == branches_with_leaves(t, id + 1, 1));
            assert(double_ptr@ == branches_with_leaves(t, id + 1, 0));
            assert(double_prediction@ == branches_with_leaves(t, id + 1, 2));
            assert forall|k: int| 0 <= k < double_ptr@.len() implies 0 < #[trigger] double_ptr@[k] < t.len() && t[double_ptr@[k] as int] is Branch
                && leaf_children(t, double_ptr@[k] as int) == 0 by {
                if k < dp0.len() {
                    assert(double_ptr@[k] == dp0[k]);
                }
            }
            assert forall|k: int| 0 <= k < double_prediction@.len() implies 0 < #[trigger] double_prediction@[k] < t.len()
                && t[double_prediction@[k] as int] is Branch by {
                if k < dd0.len() {
                    assert(double_prediction@[k] == dd0[k]);
                }
            }
            assert forall|k: int| 0 <= k < single_leaf@.len() implies 0 < #[trigger] single_leaf@[k] < t.len() && t[single_leaf@[k] as int] is Branch
                && leaf_children(t, single_leaf@[k] as int) == 1 by {
                if k < sl0.len() {
                    assert(single_leaf@[k] == sl0[k]);
                }
            }
            assert forall|j: int| 0 < j < id + 1 && (#[trigger] t[j]) is Branch implies single_leaf@.contains(j as usize)
                || double_ptr@.contains(j as usize) || double_prediction@.contains(j as usize) by {
                if j < id {
                    if sl0.contains(j as usize) {
                        let k = choose|k: int| 0 <= k < sl0.len() && sl0[k] == j as usize;
                        assert(single_leaf@[k] == sl0[k]);
                    } else if dp0.contains(j as usize) {
                        let k = choose|k: int| 0 <= k < dp0.len() && dp0[k] == j as usize;
                        assert(double_ptr@[k] == dp0[k]);
                    } else {
                        let k = choose|k: int| 0 <= k < dd0.len() && dd0[k] == j as usize;
                        assert(double_prediction@[k] == dd0[k]);
                    }
                } else {
                    assert(j == id && j != 0);
                    if pushed_to == 1 {
                        assert(single_leaf@[sl0.len() as int] == id);
                    } else if pushed_to == 2 {
                        assert(double_ptr@[dp0.len() as int] == id);
                    } else {
                        assert(double_prediction@[dd0.len() as int] == id);
                    }
                }
            }
        }
        id = id + 1;
    }
    let ghost n_single = single_leaf@.len();
    let ghost n_ptr = double_ptr@.len();
    let ghost n_pred = double_prediction@.len();
    assert(n_single + n_ptr + n_pred + 1 <= t.len());
    let mut placed: HashSet<usize> = HashSet::new();
    placed.insert(root_id);
    let mut placed_nodes: Vec<LinkedNode> = Vec::new();
    placed_nodes.push(make_linked_node(tree, root_id, None));
    proof {
        assert(holds_id(placed_nodes@[0], 0));
        assert(placed@ =~= set![0usize]);
        assert(placed_nodes@ =~= seq![slot_of(t, 0, None)]);
        assert(single_leaf@.take(0) =~= Seq::<usize>::empty());
    }
    // Pass 1: branches with one leaf, paired with their branch child.
    let mut k: usize = 0;
    while k < single_leaf.len()
        invariant
            t == tree.nodes@,
            ir_tree_wf(t),
            forall|k: int| 0 <= k < single_leaf@.len() ==> 0 < #[trigger] single_leaf@[k] < t.len() && t[single_leaf@[k] as int] is Branch
                && leaf_children(t, single_leaf@[k] as int) == 1,
            0 <= k <= single_leaf@.len(),
            slots_from(t, placed_nodes@),
            forall|j: usize| #[trigger] placed@.contains(j) <==> is_placed(placed_nodes@, j as int),
            forall|q: int| 0 <= q < k ==> #[trigger] placed@.contains(single_leaf@[q]),
            placed_nodes@.len() <= 1 + 2 * k,
            n_single == single_leaf@.len(),
            (placed@, placed_nodes@) == placement_pass(t, root_placed(t), single_leaf@.take(k as int), 1),
        decreases single_leaf@.len() - k,
    {
        let id = single_leaf[k];
        let ghost st0 = (placed@, placed_nodes@);
        proof {
            lemma_placement_pass_step(t, root_placed(t), single_leaf@, 1, k as int);
        }
        if !placed.contains(&id) {
            let node = make_linked_node(tree, id, None);
            let branch_child = match node {
                LinkedNode::Branch(b) => match (b.left_child, b.right_child) {
                    (Branch::Ptr(l), _) => l,
                    (_, Branch::Ptr(r)) => r,
                    _ => {
                        proof {
                            assert(false);
                        }
                        0
                    },
                },
                LinkedNode::Padding => {
                    proof {
                        assert(false);
                    }
                    0
                },
            };
            assert(t[branch_child as int] is Branch && (branch_child as int) < t.len());
            let ghost before = placed_nodes@;
            placed.insert(id);
            placed_nodes.push(node);
            placed.insert(branch_child);
            let child_node = make_linked_node(tree, branch_child, Some(id));
            placed_nodes.push(child_node);
            proof {
                assert(holds_id(placed_nodes@[before.len() as int], id as int));
                assert(holds_id(placed_nodes@[before.len() as int + 1], branch_child as int));
                assert(placed_nodes@[0] == before[0]);
                assert forall|j: usize| #[trigger] placed@.contains(j) <==> is_placed(placed_nodes@, j as int) by {
                    if is_placed(placed_nodes@, j as int) {
                        let q = choose|q: int| 0 <= q < placed_nodes@.len() && #[trigger] holds_id(placed_nodes@[q], j as int);
                        if q < before.len() {
                            assert(placed_nodes@[q] == before[q]);
                        }
                    }
                    if is_placed(before, j as int) {
                        let q = choose|q: int| 0 <= q < before.len() && #[trigger] holds_id(before[q], j as int);
                        assert(placed_nodes@[q] == before[q]);
                    }
                }
                assert forall|p: int| 0 <= p < placed_nodes@.len() && (#[trigger] placed_nodes@[p]) is Branch implies linked_from(t, placed_nodes@[p]->Branch_0) by {
                    if p < before.len() {
                        assert(placed_nodes@[p] == before[p]);
                    }
                }
                assert((placed@, placed_nodes@) == place_single_leaf(t, st0, id));
            }
        }
        k = k + 1;
    }
    // Pass 2: branches with two branch children, paired with the unplaced
    // child that has more leaves.
    let mut k: usize = 0;
    let ghost n1 = placed_nodes@.len();
    assert(n1 <= 1 + 2 * n_single);
    let ghost s1 = (placed@, placed_nodes@);
    proof {
        assert(single_leaf@.take(single_leaf@.len() as int) =~= single_leaf@);
        assert(double_ptr@.take(0) =~= Seq::<usize>::empty());
    }
    while k < double_ptr.len()
        invariant
            t == tree.nodes@,
            ir_tree_wf(t),
            forall|k: int| 0 <= k < single_leaf@.len() ==> 0 < #[trigger] single_leaf@[k] < t.len(),
            forall|k: int| 0 <= k < double_ptr@.len() ==> 0 < #[trigger] double_ptr@[k] < t.len() && t[double_ptr@[k] as int] is Branch
                && leaf_children(t, double_ptr@[k] as int) == 0,
            0 <= k <= double_ptr@.len(),
            slots_from(t, placed_nodes@),
            forall|j: usize| #[trigger] placed@.contains(j) <==> is_placed(placed_nodes@, j as int),
            forall|q: int| 0 <= q < single_leaf@.len() ==> #[trigger] placed@.contains(single_leaf@[q]),
            forall|q: int| 0 <= q < k ==> #[trigger] placed@.contains(double_ptr@[q]),
            placed_nodes@.len() <= n1 + 2 * k,
            n1 <= 1 + 2 * n_single,
            n_ptr == double_ptr@.len(),
            (placed@, placed_nodes@) == placement_pass(t, s1, double_ptr@.take(k as int), 0),
        decreases double_ptr@.len() - k,
    {
        let id = double_ptr[k];
        let ghost st0 = (placed@, placed_nodes@);
        proof {
            lemma_placement_pass_step(t, s1, double_ptr@, 0, k as int);
        }
        if !placed.contains(&id) {
            let node = make_linked_node(tree, id, None);
            let (l, r) = match node {
                LinkedNode::Branch(b) => match (b.left_child, b.right_child) {
                    (Branch::Ptr(l), Branch::Ptr(r)) => (l, r),
                    _ => {
                        proof {
                            assert(false);
                        }
                        (0, 0)
                    },
                },
                LinkedNode::Padding => {
                    proof {
                        assert(false);
                    }
                    (0, 0)
                },
            };
            assert(t[l as int] is Branch && (l as int) < t.len());
            assert(t[r as int] is Branch && (r as int) < t.len());
            let ghost before = placed_nodes@;
            placed.insert(id);
            placed_nodes.push(node);
            let ghost mid = placed_nodes@;
            proof {
                assert(holds_id(placed_nodes@[before.len() as int], id as int));
                assert(placed_nodes@[0] == before[0]);
                assert forall|j: usize| #[trigger] placed@.contains(j) <==> is_placed(placed_nodes@, j as int) by {
                    if is_placed(placed_nodes@, j as int) {
                        let q = choose|q: int| 0 <= q < placed_nodes@.len() && #[trigger] holds_id(placed_nodes@[q], j as int);
                        if q < before.len() {
                            assert(placed_nodes@[q] == before[q]);
                        }
                    }
                    if is_placed(before, j as int) {
                        let q = choose|q: int| 0 <= q < before.len() && #[trigger] holds_id(before[q], j as int);
                        assert(placed_nodes@[q] == before[q]);
                    }
                }
                assert forall|p: int| 0 <= p < placed_nodes@.len() && (#[trigger] placed_nodes@[p]) is Branch implies linked_from(t, placed_nodes@[p]->Branch_0) by {
                    if p < before.len() {
                        assert(placed_nodes@[p] == before[p]);
                    }
                }
            }
            let lp = placed.contains(&l);
            let rp = placed.contains(&r);
            if lp && rp {
                placed_nodes.push(LinkedNode::Padding);
                proof {
                    assert(placed_nodes@[0] == mid[0]);
                    assert forall|j: usize| #[trigger] placed@.contains(j) <==> is_placed(placed_nodes@, j as int) by {
                        if is_placed(placed_nodes@, j as int) {
                            let q = choose|q: int| 0 <= q < placed_nodes@.len() && #[trigger] holds_id(placed_nodes@[q], j as int);
                            if q < mid.len() {
                                assert(placed_nodes@[q] == mid[q]);
                            }
                        }
                        if is_placed(mid, j as int) {
                            let q = choose|q: int| 0 <= q < mid.len() && #[trigger] holds_id(mid[q], j as int);
                            assert(placed_nodes@[q] == mid[q]);
                        }
                    }
                    assert forall|p: int| 0 <= p < placed_nodes@.len() && (#[trigger] placed_nodes@[p]) is Branch implies linked_from(t, placed_nodes@[p]->Branch_0) by {
                        if p < mid.len() {
                            assert(placed_nodes@[p] == mid[p]);
                        }
                    }
                    assert((placed@, placed_nodes@) == place_double_ptr(t, st0, id));
                }
            } else {
                let best_child = if !lp && !rp {
                    if prediction_count(tree, l) >= prediction_count(tree, r) {
                        l
                    } else {
                        r
                    }
                } else if !lp {
                    l
                } else {
                    r
                };
                placed.insert(best_child);
                let child_node = make_linked_node(tree, best_child, Some(id));
                placed_nodes.push(child_node);
                proof {
                    assert(holds_id(placed_nodes@[mid.len() as int], best_child as int));
                    assert(placed_nodes@[0] == mid[0]);
                    assert forall|j: usize| #[trigger] placed@.contains(j) <==> is_placed(placed_nodes@, j as int) by {
                        if is_placed(placed_nodes@, j as int) {
                            let q = choose|q: int| 0 <= q < placed_nodes@.len() && #[trigger] holds_id(placed_nodes@[q], j as int);
                            if q < mid.len() {
                                assert(placed_nodes@[q] == mid[q]);
                            }
                        }
                        if is_placed(mid, j as int) {
                            let q = choose|q: int| 0 <= q < mid.len() && #[trigger] holds_id(mid[q], j as int);
                            assert(placed_nodes@[q] == mid[q]);
                        }
                    }
                    assert forall|p: int| 0 <= p < placed_nodes@.len() && (#[trigger] placed_nodes@[p]) is Branch implies linked_from(t, placed_nodes@[p]->Branch_0) by {
                        if p < mid.len() {
                            assert(placed_nodes@[p] == mid[p]);
                        }
                    }
                    assert((placed@, placed_nodes@) == place_double_ptr(t, st0, id));
                }
            }
        }
        k = k + 1;
    }
    // Pass 3: branches with two leaves.
    let mut k: usize = 0;
    let ghost n2 = placed_nodes@.len();
    assert(n2 <= 1 + 2 * n_single + 2 * n_ptr);
    let ghost s2 = (placed@, placed_nodes@);
    proof {
        assert(double_ptr@.take(double_ptr@.len() as int) =~= double_ptr@);
        assert(double_prediction@.take(0) =~= Seq::<usize>::empty());
    }
    while k < double_prediction.len()
        invariant
            t == tree.nodes@,
            ir_tree_wf(t),
            forall|k: int| 0 <= k < double_prediction@.len() ==> 0 < #[trigger] double_prediction@[k] < t.len() && t[double_prediction@[k] as int] is Branch,
            0 <= k <= double_prediction@.len(),
            slots_from(t, placed_nodes@),
            forall|j: usize| #[trigger] placed@.contains(j) ==> is_placed(placed_nodes@, j as int),
            forall|q: int| 0 <= q < single_leaf@.len() ==> #[trigger] placed@.contains(single_leaf@[q]),
            forall|q: int| 0 <= q < double_ptr@.len() ==> #[trigger] placed@.contains(double_ptr@[q]),
            forall|q: int| 0 <= q < k ==> #[trigger] is_placed(placed_nodes@, double_prediction@[q] as int),
            placed_nodes@.len() <= n2 + k,
            n2 <= 1 + 2 * n_single + 2 * n_ptr,
            n_pred == double_prediction@.len(),
            n_single + n_ptr + n_pred + 1 <= t.len(),
            (placed@, placed_nodes@) == placement_pass(t, s2, double_prediction@.take(k as int), 2),
        decreases double_prediction@.len() - k,
    {
        let id = double_prediction[k];
        let ghost before = placed_nodes@;
        proof {
            lemma_placement_pass_step(t, s2, double_prediction@, 2, k as int);
        }
        if !placed.contains(&id) {
            placed_nodes.push(make_linked_node(tree, id, None));
            proof {
                assert(holds_id(placed_nodes@[before.len() as int], id as int));
                assert(placed_nodes@[0] == before[0]);
                assert forall|j: int| is_placed(before, j) implies #[trigger] is_placed(placed_nodes@, j) by {
                    let q = choose|q: int| 0 <= q < before.len() && #[trigger] holds_id(before[q], j);
                    assert(placed_nodes@[q] == before[q]);
                }
                assert forall|p: int| 0 <= p < placed_nodes@.len() && (#[trigger] placed_nodes@[p]) is Branch implies linked_from(t, placed_nodes@[p]->Branch_0) by {
                    if p < before.len() {
                        assert(placed_nodes@[p] == before[p]);
                    }
                }
            }
        }
        proof {
            if placed@.contains(id) {
                assert(is_placed(placed_nodes@, id as int));
            }
            assert(is_placed(placed_nodes@, id as int));
            assert forall|q: int| 0 <= q < k + 1 implies #[trigger] is_placed(placed_nodes@, double_prediction@[q] as int) by {
                if q < k {
                    assert(is_placed(before, double_prediction@[q] as int));
                }
            }
        }
        k = k + 1;
    }
    proof {
        assert forall|j: int| 0 <= j < t.len() && (#[trigger] t[j]) is Branch implies is_placed(placed_nodes@, j) by {
            if j == 0 {
                assert(holds_id(placed_nodes@[0], 0));
            } else if single_leaf@.contains(j as usize) {
                let q = choose|q: int| 0 <= q < single_leaf@.len() && single_leaf@[q] == j as usize;
                assert(placed@.contains(single_leaf@[q]));
            } else if double_ptr@.contains(j as usize) {
                let q = choose|q: int| 0 <= q < double_ptr@.len() && double_ptr@[q] == j as usize;
                assert(placed@.contains(double_ptr@[q]));
            } else {
                let q = choose|q: int| 0 <= q < double_prediction@.len() && double_prediction@[q] == j as usize;
                assert(is_placed(placed_nodes@, double_prediction@[q] as int));
            }
        }
        lemma_all_placed_valid(t, placed_nodes@);
        assert(double_prediction@.take(double_prediction@.len() as int) =~= double_prediction@);
    }
    placed_nodes
}

/// The tree's branches split on variables that the flags can hold.
pub open spec fn splits_fit(t: Seq<Node>) -> bool {
    forall|i: int| 0 <= i < t.len() && (#[trigger] t[i]) is Branch ==> t[i]->Branch_0.split_with <= 0x3fff
}

/// A valid placement of a tree whose splits fit, short enough for 16-bit
/// pointers, can be compiled.
pub proof fn lemma_placement_compilable(t: Seq<Node>, placed: Seq<LinkedNode>)
    requires
        valid_placement(t, placed),
        splits_fit(t),
        placed.len() <= 0xffff,
    ensures
        placement_compilable(placed),
{
    assert forall|p: int| 0 <= p < placed.len() && (#[trigger] placed[p]) is Branch implies placed[p]->Branch_0.split_with
        <= 0x3fff by {
        assert(linked_from(t, placed[p]->Branch_0));
    }
}

/// `c` is the compilation of some valid placement of the tree `t`.
pub open spec fn compiles_tree(t: Seq<Node>, c: Seq<model::Node>) -> bool {
    exists|placed: Seq<LinkedNode>| valid_placement(t, placed) && placement_compilable(placed) && is_compiled_tree(placed, c)
}

impl PlacementStrategy {
    /// Place the tree's branches with this strategy.
    pub fn place_nodes(&self, tree: &Tree) -> (r: Vec<LinkedNode>)
        requires
            ir_tree_wf(tree.nodes@),
            orders::tree_is_finite(tree.nodes@),
        ensures
            valid_placement(tree.nodes@, r@),
            *self is ExecutionAware ==> r@.len() <= 2 * tree.nodes@.len() && r@ == execution_aware_order(tree.nodes@),
            *self is Random ==> r@.len() <= tree.nodes@.len() && r@.len() == orders::branch_indices(tree.nodes@).len()
                && orders::is_shuffled_placement(tree.nodes@, r@),
            *self is BreadthFirst ==> orders::is_breadth_first_order(tree.nodes@, r@) && r@.len() == orders::unfolded_size(
                tree.nodes@,
            ),
            *self is DepthFirst ==> orders::is_depth_first_order(tree.nodes@, r@) && r@.len() == orders::unfolded_size(
                tree.nodes@,
            ),
    {
        match self {
            PlacementStrategy::ExecutionAware => execution_aware_placement(tree),
            PlacementStrategy::Random => {
                let n = tree.nodes.len();
                let r = orders::random_placement(tree);
                proof {
                    orders::lemma_branch_indices_upto(tree.nodes@, n as int);
                }
                r
            },
            PlacementStrategy::BreadthFirst => orders::breadth_first_placement(tree),
            PlacementStrategy::DepthFirst => orders::depth_first_placement(tree),
        }
    }
}

/// The placement of the tree with the strategy is short enough for 16-bit
/// child pointers: by the tree's length where the placement is bounded by
/// it, by its exact length for the traversal orders.
pub open spec fn placement_fits(strategy: PlacementStrategy, t: Seq<Node>) -> bool {
    match strategy {
        PlacementStrategy::ExecutionAware => 2 * t.len() <= 0xffff,
        PlacementStrategy::Random => t.len() <= 0xffff,
        PlacementStrategy::BreadthFirst => orders::unfolded_size(t) <= 0xffff,
        PlacementStrategy::DepthFirst => orders::unfolded_size(t) <= 0xffff,
    }
}

/// `c` is the tree compiled from the placement that the strategy gives: the
/// execution-aware order, the breadth-first or depth-first order, or a
/// shuffle of the branches with the root first.
pub open spec fn placed_as(strategy: PlacementStrategy, t: Seq<Node>, c: Seq<model::Node>) -> bool {
    match strategy {
        PlacementStrategy::ExecutionAware => is_compiled_tree(execution_aware_order(t), c),
        PlacementStrategy::BreadthFirst => exists|placed: Seq<LinkedNode>|
            orders::is_breadth_first_order(t, placed) && #[trigger] is_compiled_tree(placed, c),
        PlacementStrategy::DepthFirst => exists|placed: Seq<LinkedNode>|
            orders::is_depth_first_order(t, placed) && #[trigger] is_compiled_tree(placed, c),
        PlacementStrategy::Random => exists|placed: Seq<LinkedNode>|
            orders::is_shuffled_placement(t, placed) && #[trigger] is_compiled_tree(placed, c),
    }
}

/// Compile a single tree with the given placement strategy. The compiled
/// tree is a header, the placed branches, and padding to an even length;
/// a placement too long for 16-bit child pointers is refused.
pub fn compile(tree: &Tree, strategy: PlacementStrategy) -> (r: Result<Vec<model::Node>, CompileError>)
    requires
        ir_tree_wf(tree.nodes@),
        orders::tree_is_finite(tree.nodes@),
        splits_fit(tree.nodes@),
    ensures
        r matches Ok(c) ==> compiles_tree(tree.nodes@, c@),
        r matches Err(e) ==> e == CompileError::PlacementTooLong,
        placement_fits(strategy, tree.nodes@) ==> r is Ok,
        (strategy is BreadthFirst || strategy is DepthFirst) ==> (r is Ok <==> placement_fits(strategy, tree.nodes@)),
        strategy is ExecutionAware ==> (r is Ok <==> execution_aware_order(tree.nodes@).len() <= 0xffff),
        strategy is Random ==> (r is Ok <==> orders::branch_indices(tree.nodes@).len() <= 0xffff),
        r matches Ok(c) ==> placed_as(strategy, tree.nodes@, c@),
{
    let placed_nodes = strategy.place_nodes(tree);
    if placed_nodes.len() > 0xffff {
        return Err(CompileError::PlacementTooLong);
    }
    proof {
        lemma_placement_compilable(tree.nodes@, placed_nodes@);
    }
    let r = build_compiled_nodes(&placed_nodes);
    proof {
        let c = r->Ok_0;
        assert(valid_placement(tree.nodes@, placed_nodes@) && placement_compilable(placed_nodes@) && is_compiled_tree(
            placed_nodes@,
            c@,
        ));
        assert(placed_as(strategy, tree.nodes@, c@));
    }
    r
}

/// A compiled tree predicts what its tree predicts, whatever the placement
/// strategy: walking the compiled nodes from the first branch ends on every
/// input on which the tree's walk ends, at the same class.
pub proof fn lemma_compile_preserves_prediction(t: Seq<Node>, c: Seq<model::Node>, features: Seq<u16>)
    requires
        compiles_tree(t, c),
        leaves_fit(t),
        tree_predicts(t, features.len()),
        t.len() > 0 && t[0] is Branch,
    ensures
        exists|fuel: nat| paths_end(c, 1, features.len(), fuel),
        forall|fuel: nat| paths_end(c, 1, features.len(), fuel) ==> walk(c, 1, features, fuel) == Some(tree_prediction(t, features)),
{
    let placed = choose|placed: Seq<LinkedNode>| valid_placement(t, placed) && placement_compilable(placed) && is_compiled_tree(placed, c);
    lemma_compiled_tree_predicts_as_tree(t, placed, c, features);
}

#[verifier::spinoff_prover]
#[verifier::rlimit(40)]
pub proof fn lemma_compiled_depth(t: Seq<Node>, placed: Seq<LinkedNode>, c: Seq<model::Node>, first: int, j: int, fuel: nat)
    requires
        valid_placement(t, placed),
        placement_compilable(placed),
        compiled_slots(placed, c, first),
        1 <= first <= 2,
        placed.len() + first <= 0x1_0000,
        ir_paths_end(t, j, 0x1_0000, fuel),
        t[j] is Branch,
        is_placed(placed, j),
    ensures
        depth_ends(c, position_in(placed, j) + first, fuel),
    decreases fuel,
{
    lemma_position_in(placed, j);
    let p = position_in(placed, j);
    let e = placed[p]->Branch_0;
    assert(placed[p] is Branch);
    assert(linked_from(t, e));
    let b = t[j]->Branch_0;
    let cb = c[p + first].branch();
    assert(cb == compiled_branch(placed, e, first));
    lemma_flags_decode(e.split_with, e.left_child is Prediction, e.right_child is Prediction);
    assert(ir_paths_end(t, b.left as int, 0x1_0000, (fuel - 1) as nat));
    assert(ir_paths_end(t, b.right as int, 0x1_0000, (fuel - 1) as nat));
    if t[b.left as int] is Branch {
        assert(e.left_child == Branch::Ptr(b.left));
        lemma_position_in(placed, b.left as int);
        lemma_compiled_depth(t, placed, c, first, b.left as int, (fuel - 1) as nat);
        assert(cb.left as int == position_in(placed, b.left as int) + first);
    }
    if t[b.right as int] is Branch {
        assert(e.right_child == Branch::Ptr(b.right));
        lemma_position_in(placed, b.right as int);
        lemma_compiled_depth(t, placed, c, first, b.right as int, (fuel - 1) as nat);
        assert(cb.right as int == position_in(placed, b.right as int) + first);
    }
}

/// The compilation of a finite tree starts with a header whose first branch
/// is node 1, and every path from that branch ends.
pub proof fn lemma_compiled_tree_ok(t: Seq<Node>, c: Seq<model::Node>)
    requires
        compiles_tree(t, c),
        orders::tree_is_finite(t),
        t.len() > 0 && t[0] is Branch,
    ensures
        compiled_tree_ok(c),
        c[0].header().first_node_idx == 1,
{
    let placed = choose|placed: Seq<LinkedNode>| valid_placement(t, placed) && placement_compilable(placed) && is_compiled_tree(placed, c);
    let f = choose|fuel: nat| ir_paths_end(t, 0, 0x1_0000, fuel);
    assert(is_placed(placed, 0));
    lemma_position_in(placed, 0);
    assert(position_in(placed, 0) == 0) by {
        if position_in(placed, 0) > 0 {
            assert(!holds_id(placed[0], 0));
        }
    }
    lemma_compiled_depth(t, placed, c, 1, 0, f);
}

} // verus!
