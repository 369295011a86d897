//! Placement that pairs each branch at the start of a cache line with one of
//! its children, taking the nodes in index order and deferring branches with
//! two predictions to the end.

use std::collections::VecDeque;

use vstd::prelude::*;

use super::tree_compiler::{child_ref, compile_branch, compiled_slots, holds_id, ir_tree_wf, is_placed, lemma_all_placed_valid,
    lemma_compiled_slots_predict, linked_from, placement_compilable, places_all_branches, slots_from, splits_fit, valid_placement,
    Branch, CompileError, LinkedBranchNode, LinkedNode};
use super::{leaves_fit, tree_prediction, tree_predicts, Node, Tree};
use crate::model;
use super::{cell_header, concat_trees};
use super::tree_partition::{chunk_start, is_order_of, largest_equal_cell, lemma_chunk_start, sat_add, trees_view};
use crate::model::{chain_ok, headers_from, headers_walkable, lemma_headers_from_bounds, paths_end, tree_header_indices,
    tree_headers_of, tree_len_at, walk, CacheMetadata, TreeHeader};
use crate::model::header_bytes;

verus! {

/// The slot is a branch whose two children are predictions.
pub open spec fn is_double_prediction(n: LinkedNode) -> bool {
    n matches LinkedNode::Branch(e) && e.left_child is Prediction && e.right_child is Prediction
}

/// A line of two slots is used well: two branches with two predictions each,
/// or a branch followed by one of its pointer children.
pub open spec fn line_paired(a: LinkedNode, b: LinkedNode) -> bool {
    ||| is_double_prediction(a) && is_double_prediction(b)
    ||| (a matches LinkedNode::Branch(ea) && b matches LinkedNode::Branch(eb) && (ea.left_child == Branch::Ptr(eb.id)
        || ea.right_child == Branch::Ptr(eb.id)))
}

/// Every full line of two slots, from slot 0, is used well.
pub open spec fn lines_paired(p: Seq<LinkedNode>) -> bool {
    forall|i: int| 0 <= i < p.len() - 1 && i % 2 == 0 ==> line_paired(#[trigger] p[i], p[i + 1])
}

/// Every slot is a branch made from the tree.
pub open spec fn slots_linked(t: Seq<Node>, p: Seq<LinkedNode>) -> bool {
    forall|q: int| 0 <= q < p.len() ==> ((#[trigger] p[q]) matches LinkedNode::Branch(e) && linked_from(t, e))
}

/// The root of the tree has two leaf children.
pub open spec fn root_is_double_prediction(t: Seq<Node>) -> bool {
    t[t[0]->Branch_0.left as int] is Leaf && t[t[0]->Branch_0.right as int] is Leaf
}

/// No two slots hold the same branch.
pub open spec fn held_once(s: Seq<LinkedNode>) -> bool {
    forall|a: int, b: int|
        0 <= a < s.len() && 0 <= b < s.len() && a != b && (#[trigger] s[a]) is Branch && (#[trigger] s[b]) is Branch
            ==> s[a]->Branch_0.id != s[b]->Branch_0.id
}

/// No slot holds the branch `id`.
pub open spec fn not_held(s: Seq<LinkedNode>, id: usize) -> bool {
    forall|q: int| 0 <= q < s.len() && (#[trigger] s[q]) is Branch ==> s[q]->Branch_0.id != id
}

/// No branch has a slot in both `p` and `d`.
pub open spec fn held_apart(p: Seq<LinkedNode>, d: Seq<LinkedNode>) -> bool {
    forall|q: int| 0 <= q < p.len() && (#[trigger] p[q]) is Branch ==> not_held(d, p[q]->Branch_0.id)
}

/// Each branch has at most one slot, placed or deferred, and a waiting node
/// has none.
pub open spec fn slots_apart(waiting: Seq<usize>, placed: Seq<LinkedNode>, deferred: Seq<LinkedNode>) -> bool {
    &&& held_once(placed)
    &&& held_once(deferred)
    &&& held_apart(placed, deferred)
    &&& forall|k: int| 0 <= k < waiting.len() ==> not_held(placed, #[trigger] waiting[k]) && not_held(deferred, waiting[k])
}

proof fn lemma_not_held_push(s: Seq<LinkedNode>, e: LinkedBranchNode, x: usize)
    requires
        not_held(s, x),
        e.id != x,
    ensures
        not_held(s.push(LinkedNode::Branch(e)), x),
{
    let s1 = s.push(LinkedNode::Branch(e));
    assert forall|q: int| 0 <= q < s1.len() && (#[trigger] s1[q]) is Branch implies s1[q]->Branch_0.id != x by {
        if q < s.len() {
            assert(s1[q] == s[q]);
        }
    }
}

proof fn lemma_held_once_push(s: Seq<LinkedNode>, e: LinkedBranchNode)
    requires
        held_once(s),
        not_held(s, e.id),
    ensures
        held_once(s.push(LinkedNode::Branch(e))),
{
    let s1 = s.push(LinkedNode::Branch(e));
    assert forall|a: int, b: int|
        0 <= a < s1.len() && 0 <= b < s1.len() && a != b && (#[trigger] s1[a]) is Branch && (#[trigger] s1[b]) is Branch implies s1[a]->Branch_0.id
        != s1[b]->Branch_0.id by {
        if a < s.len() {
            assert(s1[a] == s[a]);
        }
        if b < s.len() {
            assert(s1[b] == s[b]);
        }
    }
}

proof fn lemma_held_once_concat(p: Seq<LinkedNode>, d: Seq<LinkedNode>)
    requires
        held_once(p),
        held_once(d),
        held_apart(p, d),
    ensures
        held_once(p + d),
{
    let s = p + d;
    assert forall|a: int, b: int|
        0 <= a < s.len() && 0 <= b < s.len() && a != b && (#[trigger] s[a]) is Branch && (#[trigger] s[b]) is Branch implies s[a]->Branch_0.id
        != s[b]->Branch_0.id by {
        if a < p.len() && b < p.len() {
            assert(s[a] == p[a] && s[b] == p[b]);
        } else if a < p.len() {
            assert(s[a] == p[a] && s[b] == d[b - p.len()]);
            assert(not_held(d, p[a]->Branch_0.id));
        } else if b < p.len() {
            assert(s[b] == p[b] && s[a] == d[a - p.len()]);
            assert(not_held(d, p[b]->Branch_0.id));
        } else {
            assert(s[a] == d[a - p.len()] && s[b] == d[b - p.len()]);
        }
    }
}

/// The state of the pairing loop while node `id` is in hand: the waiting
/// nodes are distinct nodes of the tree without `id`; every branch waits, is
/// in hand, or has a slot; every slot is made from the tree; and the root is
/// first unless it has two leaf children.
pub open spec fn pairing_state(t: Seq<Node>, waiting: Seq<usize>, id: int, placed: Seq<LinkedNode>, deferred: Seq<LinkedNode>) -> bool {
    &&& t.len() <= usize::MAX
    &&& waiting.no_duplicates()
    &&& forall|k: int| 0 <= k < waiting.len() ==> (#[trigger] waiting[k] as int) < t.len()
    &&& 0 <= id < t.len()
    &&& !waiting.contains(id as usize)
    &&& forall|j: int| 0 <= j < t.len() && (#[trigger] t[j]) is Branch ==> waiting.contains(j as usize) || j == id || is_placed(
        placed,
        j,
    ) || is_placed(deferred, j)
    &&& slots_linked(t, placed)
    &&& slots_linked(t, deferred)
    &&& placed.len() + deferred.len() + waiting.len() + 1 <= t.len()
    &&& !root_is_double_prediction(t) ==> (placed.len() == 0 ==> id == 0) && (placed.len() > 0 ==> holds_id(placed[0], 0))
    &&& slots_apart(waiting, placed, deferred)
    &&& not_held(placed, id as usize) && not_held(deferred, id as usize)
}

/// The position of `id` among the waiting nodes.
fn waiting_position(waiting: &VecDeque<usize>, id: usize) -> (r: Option<usize>)
    ensures
        r matches Some(p) ==> p < waiting@.len() && waiting@[p as int] == id,
        r is None ==> !waiting@.contains(id),
{
    let mut i: usize = 0;
    while i < waiting.len()
        invariant
            0 <= i <= waiting@.len(),
            forall|k: int| 0 <= k < i ==> waiting@[k] != id,
        decreases waiting@.len() - i,
    {
        if waiting[i] == id {
            return Some(i);
        }
        i = i + 1;
    }
    None
}

proof fn lemma_remove_keeps(s: Seq<usize>, p: int, j: usize)
    requires
        0 <= p < s.len(),
        s.contains(j),
        s[p] != j,
    ensures
        s.remove(p).contains(j),
{
    let k = choose|k: int| 0 <= k < s.len() && s[k] == j;
    if k < p {
        assert(s.remove(p)[k] == j);
    } else {
        assert(s.remove(p)[k - 1] == j);
    }
}

proof fn lemma_remove_no_dup(s: Seq<usize>, p: int)
    requires
        0 <= p < s.len(),
        s.no_duplicates(),
    ensures
        s.remove(p).no_duplicates(),
        !s.remove(p).contains(s[p]),
        forall|k: int| 0 <= k < s.remove(p).len() ==> #[trigger] s.remove(p)[k] == (if k < p { s[k] } else { s[k + 1] }),
{
    let r = s.remove(p);
    assert forall|a: int, b: int| 0 <= a < r.len() && 0 <= b < r.len() && a != b implies r[a] != r[b] by {
        let a0 = if a < p { a } else { a + 1 };
        let b0 = if b < p { b } else { b + 1 };
        assert(r[a] == s[a0] && r[b] == s[b0]);
    }
    if r.contains(s[p]) {
        let k = choose|k: int| 0 <= k < r.len() && r[k] == s[p];
        let k0 = if k < p { k } else { k + 1 };
        assert(s[k0] == s[p]);
    }
}

proof fn lemma_placed_push(a: Seq<LinkedNode>, n: LinkedNode, j: int)
    requires
        is_placed(a, j),
    ensures
        is_placed(a.push(n), j),
{
    let q = choose|q: int| 0 <= q < a.len() && #[trigger] holds_id(a[q], j);
    assert(holds_id(a.push(n)[q], j));
}

/// Resolve a child of the branch in hand: a leaf still waiting leaves the
/// waiting nodes as its prediction; a branch stays and is pointed to.
/// `None` when the child is not waiting.
fn take_child(tree: &Tree, waiting: &mut VecDeque<usize>, child: usize) -> (r: Option<Branch>)
    requires
        (child as int) < tree.nodes@.len(),
        old(waiting)@.no_duplicates(),
    ensures
        r matches Some(c) ==> c == child_ref(tree.nodes@, child as int),
        r matches Some(c) ==> (c is Prediction ==> final(waiting)@ == old(waiting)@.remove(old(waiting)@.index_of(child))
            && old(waiting)@.contains(child)),
        r matches Some(c) ==> (c is Ptr ==> final(waiting)@ == old(waiting)@ && old(waiting)@.contains(child)),
        r is None ==> final(waiting)@ == old(waiting)@,
        r is None <==> child_taken(tree.nodes@, old(waiting)@, child) is None,
        r matches Some(c) ==> child_taken(tree.nodes@, old(waiting)@, child) == Some((c, final(waiting)@)),
{
    let pos = match waiting_position(waiting, child) {
        Some(p) => p,
        None => {
            return None;
        },
    };
    proof {
        let k = old(waiting)@.index_of(child);
        assert(old(waiting)@.contains(child));
        assert(old(waiting)@[k] == child);
        assert(k == pos as int);
    }
    match &tree.nodes[child] {
        Node::Leaf(l) => {
            let p = l.prediction;
            let _ = waiting.remove(pos);
            Some(Branch::Prediction(p))
        },
        Node::Branch(_) => Some(Branch::Ptr(child)),
    }
}

/// The state of the pairing loop between two nodes in hand: every branch
/// waits or has a slot, and the root is first unless it has two leaf children.
pub open spec fn pairing_done(t: Seq<Node>, waiting: Seq<usize>, placed: Seq<LinkedNode>, deferred: Seq<LinkedNode>) -> bool {
    &&& t.len() <= usize::MAX
    &&& waiting.no_duplicates()
    &&& forall|k: int| 0 <= k < waiting.len() ==> (#[trigger] waiting[k] as int) < t.len()
    &&& forall|j: int| 0 <= j < t.len() && (#[trigger] t[j]) is Branch ==> waiting.contains(j as usize) || is_placed(placed, j)
        || is_placed(deferred, j)
    &&& slots_linked(t, placed)
    &&& slots_linked(t, deferred)
    &&& placed.len() + deferred.len() + waiting.len() <= t.len()
    &&& !root_is_double_prediction(t) ==> placed.len() > 0 && holds_id(placed[0], 0)
    &&& slots_apart(waiting, placed, deferred)
}

/// Placing the node in hand (in `placed` or `deferred`), after its leaf
/// children left the waiting nodes, gives a state between two nodes.
proof fn lemma_pairing_place(
    t: Seq<Node>,
    w0: Seq<usize>,
    w1: Seq<usize>,
    id: int,
    placed: Seq<LinkedNode>,
    deferred: Seq<LinkedNode>,
    e: LinkedBranchNode,
    to_deferred: bool,
)
    requires
        ir_tree_wf(t),
        pairing_state(t, w0, id, placed, deferred),
        e.id == id,
        linked_from(t, e),
        w1.len() <= w0.len(),
        w1.no_duplicates(),
        forall|k: int| 0 <= k < w1.len() ==> w0.contains(#[trigger] w1[k]),
        forall|j: usize| #[trigger] w0.contains(j) && (j as int) < t.len() && t[j as int] is Branch ==> w1.contains(j),
        to_deferred ==> placed.len() % 2 == 0 && is_double_prediction(LinkedNode::Branch(e)),
    ensures
        to_deferred ==> pairing_done(t, w1, placed, deferred.push(LinkedNode::Branch(e))),
        !to_deferred ==> pairing_done(t, w1, placed.push(LinkedNode::Branch(e)), deferred),
{
    let n = LinkedNode::Branch(e);
    let p1 = if to_deferred { placed } else { placed.push(n) };
    let d1 = if to_deferred { deferred.push(n) } else { deferred };
    assert forall|k: int| 0 <= k < w1.len() implies (#[trigger] w1[k] as int) < t.len() by {
        let q = choose|q: int| 0 <= q < w0.len() && w0[q] == w1[k];
    }
    assert forall|j: int| 0 <= j < t.len() && (#[trigger] t[j]) is Branch implies w1.contains(j as usize) || is_placed(p1, j)
        || is_placed(d1, j) by {
        if j == id {
            if to_deferred {
                assert(holds_id(d1[deferred.len() as int], j));
            } else {
                assert(holds_id(p1[placed.len() as int], j));
            }
        } else if w0.contains(j as usize) {
            assert((j as usize) as int == j);
            assert(w1.contains(j as usize));
        } else if is_placed(placed, j) {
            if !to_deferred {
                lemma_placed_push(placed, n, j);
            }
        } else {
            if to_deferred {
                lemma_placed_push(deferred, n, j);
            }
        }
    }
    assert forall|q: int| 0 <= q < p1.len() implies ((#[trigger] p1[q]) matches LinkedNode::Branch(f) && linked_from(t, f)) by {
        if q < placed.len() {
            assert(p1[q] == placed[q]);
        }
    }
    assert forall|q: int| 0 <= q < d1.len() implies ((#[trigger] d1[q]) matches LinkedNode::Branch(f) && linked_from(t, f)) by {
        if q < deferred.len() {
            assert(d1[q] == deferred[q]);
        }
    }
    if !root_is_double_prediction(t) {
        if placed.len() == 0 {
            assert(id == 0);
            assert(!to_deferred);
            assert(holds_id(p1[0], 0));
        } else {
            assert(p1[0] == placed[0]);
        }
    }
    // The branch in hand had no slot, so each branch keeps at most one.
    let x = id as usize;
    assert(e.id == x);
    if to_deferred {
        lemma_held_once_push(deferred, e);
        assert forall|q: int| 0 <= q < p1.len() && (#[trigger] p1[q]) is Branch implies not_held(d1, p1[q]->Branch_0.id) by {
            assert(p1[q]->Branch_0.id != x);
            lemma_not_held_push(deferred, e, p1[q]->Branch_0.id);
        }
    } else {
        lemma_held_once_push(placed, e);
        assert forall|q: int| 0 <= q < p1.len() && (#[trigger] p1[q]) is Branch implies not_held(d1, p1[q]->Branch_0.id) by {
            if q < placed.len() {
                assert(p1[q] == placed[q]);
            }
        }
    }
    assert forall|k: int| 0 <= k < w1.len() implies not_held(p1, #[trigger] w1[k]) && not_held(d1, w1[k]) by {
        let q = choose|q: int| 0 <= q < w0.len() && w0[q] == w1[k];
        assert(not_held(placed, w0[q]) && not_held(deferred, w0[q]));
        assert(w1[k] != x);
        if to_deferred {
            lemma_not_held_push(deferred, e, w1[k]);
        } else {
            lemma_not_held_push(placed, e, w1[k]);
        }
    }
}

/// Taking a waiting node in hand gives a state with that node in hand.
proof fn lemma_pairing_take(t: Seq<Node>, w: Seq<usize>, pos: int, placed: Seq<LinkedNode>, deferred: Seq<LinkedNode>)
    requires
        pairing_done(t, w, placed, deferred),
        0 <= pos < w.len(),
    ensures
        pairing_state(t, w.remove(pos), w[pos] as int, placed, deferred),
{
    lemma_remove_no_dup(w, pos);
    let w1 = w.remove(pos);
    assert(not_held(placed, w[pos]) && not_held(deferred, w[pos]));
    assert forall|k: int| 0 <= k < w1.len() implies not_held(placed, #[trigger] w1[k]) && not_held(deferred, w1[k]) by {
        if k < pos {
            assert(w1[k] == w[k]);
        } else {
            assert(w1[k] == w[k + 1]);
        }
    }
    assert forall|k: int| 0 <= k < w1.len() implies (#[trigger] w1[k] as int) < t.len() by {
        if k < pos {
            assert(w1[k] == w[k]);
        } else {
            assert(w1[k] == w[k + 1]);
        }
    }
    assert forall|j: int| 0 <= j < t.len() && (#[trigger] t[j]) is Branch implies w1.contains(j as usize) || j == w[pos] as int
        || is_placed(placed, j) || is_placed(deferred, j) by {
        assert((j as usize) as int == j);
        if w.contains(j as usize) && j != w[pos] as int {
            lemma_remove_keeps(w, pos, j as usize);
        }
    }
}

/// Where the pairing loop stands with node `id` in hand: the nodes still
/// waiting, the branch that `id` was reached from, and the slots so far.
pub struct PairingState {
    pub waiting: Seq<usize>,
    pub id: usize,
    pub parent: Option<usize>,
    pub placed: Seq<LinkedNode>,
    pub deferred: Seq<LinkedNode>,
}

/// What one step of the pairing loop comes to.
pub enum PairingStep {
    Failed,
    Done(Seq<LinkedNode>, Seq<LinkedNode>),
    Next(PairingState),
}

/// A child of the branch in hand as it is looked up among the waiting nodes:
/// not there, or its reference and the waiting nodes without it if it is a
/// leaf.
pub open spec fn child_taken(t: Seq<Node>, waiting: Seq<usize>, child: usize) -> Option<(Branch, Seq<usize>)> {
    if !waiting.contains(child) {
        None
    } else if t[child as int] is Leaf {
        Some((child_ref(t, child as int), waiting.remove(waiting.index_of(child))))
    } else {
        Some((child_ref(t, child as int), waiting))
    }
}

/// One step of the pairing loop: resolve the children of the branch in
/// hand, defer it if it has two predictions and would start a line, else
/// place it; then take its first pointer child if a line was started, or
/// the next waiting node, or stop.
pub open spec fn pairing_step(t: Seq<Node>, st: PairingState) -> PairingStep {
    if !(st.id < t.len()) || t[st.id as int] is Leaf {
        PairingStep::Failed
    } else {
        let b = t[st.id as int]->Branch_0;
        match child_taken(t, st.waiting, b.left) {
            None => PairingStep::Failed,
            Some((lc, w1)) => match child_taken(t, w1, b.right) {
                None => PairingStep::Failed,
                Some((rc, w2)) => {
                    let e = LinkedBranchNode {
                        id: st.id,
                        parent_id: st.parent,
                        left_child: lc,
                        right_child: rc,
                        split_at: b.split_at,
                        split_with: b.split_with,
                    };
                    let defer = lc is Prediction && rc is Prediction && st.placed.len() % 2 == 0;
                    let placed = if defer { st.placed } else { st.placed.push(LinkedNode::Branch(e)) };
                    let deferred = if defer { st.deferred.push(LinkedNode::Branch(e)) } else { st.deferred };
                    let next: Option<usize> = if placed.len() % 2 == 1 {
                        match (lc, rc) {
                            (Branch::Ptr(l), _) => Some(l),
                            (_, Branch::Ptr(r)) => Some(r),
                            _ => None,
                        }
                    } else {
                        None
                    };
                    match next {
                        Some(c) => if w2.contains(c) {
                            PairingStep::Next(
                                PairingState {
                                    waiting: w2.remove(w2.index_of(c)),
                                    id: c,
                                    parent: Some(st.id),
                                    placed,
                                    deferred,
                                },
                            )
                        } else {
                            PairingStep::Failed
                        },
                        None => if w2.len() == 0 {
                            PairingStep::Done(placed, deferred)
                        } else {
                            PairingStep::Next(
                                PairingState { waiting: w2.remove(0), id: w2[0], parent: Some(st.id), placed, deferred },
                            )
                        },
                    }
                },
            },
        }
    }
}

/// Run the pairing loop from `st` to its end: the placed and the deferred
/// slots, or `None` when a step fails.
pub open spec fn pairing_run(t: Seq<Node>, st: PairingState) -> Option<(Seq<LinkedNode>, Seq<LinkedNode>)>
    decreases st.waiting.len(),
{
    match pairing_step(t, st) {
        PairingStep::Failed => None,
        PairingStep::Done(p, d) => Some((p, d)),
        PairingStep::Next(next) => if next.waiting.len() < st.waiting.len() {
            pairing_run(t, next)
        } else {
            None
        },
    }
}

/// The loop starts with the root in hand and every other node waiting.
pub open spec fn pairing_start(t: Seq<Node>) -> PairingState {
    PairingState {
        waiting: Seq::new((t.len() - 1) as nat, |i: int| (i + 1) as usize),
        id: 0,
        parent: None,
        placed: Seq::empty(),
        deferred: Seq::empty(),
    }
}

/// The pairing placement of the tree: the placed slots then the deferred
/// ones, if the loop ends and every line of two slots is used well.
pub open spec fn paired_order(t: Seq<Node>) -> Option<Seq<LinkedNode>> {
    match pairing_run(t, pairing_start(t)) {
        Some((p, d)) => if lines_paired(p + d) {
            Some(p + d)
        } else {
            None
        },
        None => None,
    }
}

/// A step to a next state shortens the waiting nodes, so the run goes on
/// from there.
proof fn lemma_pairing_run_next(t: Seq<Node>, st: PairingState, next: PairingState)
    requires
        pairing_step(t, st) == PairingStep::Next(next),
    ensures
        pairing_run(t, st) == pairing_run(t, next),
{
    let b = t[st.id as int]->Branch_0;
    let (lc, w1) = child_taken(t, st.waiting, b.left)->Some_0;
    let (rc, w2) = child_taken(t, w1, b.right)->Some_0;
    assert(w1.len() <= st.waiting.len());
    assert(w2.len() <= w1.len());
    assert(next.waiting.len() < st.waiting.len());
}

/// Place the branches of a tree, taking its nodes in index order: each branch
/// at an even slot is followed by its left pointer child, else its right one;
/// a branch with two leaf children that would start a line is deferred to
/// the end. `None` when a child is not waiting when its parent is placed, when
/// a leaf is reached by index order, or when a line of two slots is neither
/// two branches with two predictions nor a branch followed by one of its
/// children.
pub fn paired_placement(tree: &Tree) -> (r: Option<Vec<LinkedNode>>)
    requires
        ir_tree_wf(tree.nodes@),
    ensures
        r matches Some(p) ==> ({
            &&& slots_linked(tree.nodes@, p@)
            &&& places_all_branches(tree.nodes@, p@)
            &&& lines_paired(p@)
            &&& held_once(p@)
            &&& p@.len() <= tree.nodes@.len()
            &&& !root_is_double_prediction(tree.nodes@) ==> holds_id(p@[0], 0)
        }),
        r is Some <==> paired_order(tree.nodes@) is Some,
        r matches Some(p) ==> paired_order(tree.nodes@) == Some(p@),
{
    let ghost t = tree.nodes@;
    let n = tree.nodes.len();
    let mut waiting: VecDeque<usize> = VecDeque::new();
    let mut k: usize = 0;
    while k < n
        invariant
            n == t.len(),
            0 <= k <= n,
            waiting@.len() == k,
            forall|q: int| 0 <= q < k ==> (#[trigger] waiting@[q]) as int == q,
        decreases n - k,
    {
        waiting.push_back(k);
        k = k + 1;
    }
    let mut placed: Vec<LinkedNode> = Vec::new();
    let mut deferred: Vec<LinkedNode> = Vec::new();
    let mut parent_id: Option<usize> = None;
    let ghost w = waiting@;
    let mut id: usize = match waiting.pop_front() {
        Some(x) => x,
        None => {
            return None;
        },
    };
    proof {
        assert(w.no_duplicates());
        assert(waiting@ == w.remove(0));
        lemma_remove_no_dup(w, 0);
        assert forall|j: int| 0 <= j < t.len() && (#[trigger] t[j]) is Branch implies waiting@.contains(j as usize) || j
            == id as int || is_placed(placed@, j) || is_placed(deferred@, j) by {
            if j > 0 {
                assert(waiting@[j - 1] == j as usize);
            }
        }
        assert forall|k: int| 0 <= k < waiting@.len() implies (#[trigger] waiting@[k] as int) < t.len() by {
            assert(waiting@[k] == w[k + 1]);
        }
        assert(pairing_state(t, waiting@, id as int, placed@, deferred@));
        assert(waiting@ =~= pairing_start(t).waiting);
    }
    loop
        invariant_except_break
            pairing_state(t, waiting@, id as int, placed@, deferred@),
            pairing_run(
                t,
                (PairingState { waiting: waiting@, id, parent: parent_id, placed: placed@, deferred: deferred@ }),
            ) == pairing_run(t, pairing_start(t)),
        invariant
            t == tree.nodes@,
            ir_tree_wf(t),
        ensures
            pairing_done(t, waiting@, placed@, deferred@),
            waiting@.len() == 0,
            pairing_run(t, pairing_start(t)) == Some((placed@, deferred@)),
        decreases waiting@.len(),
    {
        let ghost st = PairingState { waiting: waiting@, id, parent: parent_id, placed: placed@, deferred: deferred@ };
        let branch = match &tree.nodes[id] {
            Node::Branch(b) => b,
            Node::Leaf(_) => {
                return None;
            },
        };
        assert(t[id as int] == Node::Branch(*branch));
        let ghost w0 = waiting@;
        let left_child = match take_child(tree, &mut waiting, branch.left) {
            Some(c) => c,
            None => {
                proof {
                    assert(pairing_step(t, st) == PairingStep::Failed);
                }
                return None;
            },
        };
        let ghost wl = waiting@;
        proof {
            if left_child is Prediction {
                lemma_remove_no_dup(w0, w0.index_of(branch.left));
            }
        }
        let right_child = match take_child(tree, &mut waiting, branch.right) {
            Some(c) => c,
            None => {
                proof {
                    assert(pairing_step(t, st) == PairingStep::Failed);
                }
                return None;
            },
        };
        proof {
            if right_child is Prediction {
                lemma_remove_no_dup(wl, wl.index_of(branch.right));
            }
        }
        let e = LinkedBranchNode {
            id,
            parent_id,
            left_child,
            right_child,
            split_at: branch.split_at,
            split_with: branch.split_with,
        };
        let ghost w1 = waiting@;
        proof {
            assert(linked_from(t, e));
            assert forall|k: int| 0 <= k < w1.len() implies w0.contains(#[trigger] w1[k]) by {
                if right_child is Prediction {
                    let pr = wl.index_of(branch.right);
                    let k1 = if k < pr { k } else { k + 1 };
                    assert(w1[k] == wl[k1]);
                    if left_child is Prediction {
                        let pl = w0.index_of(branch.left);
                        let k2 = if k1 < pl { k1 } else { k1 + 1 };
                        assert(wl[k1] == w0[k2]);
                    }
                } else if left_child is Prediction {
                    let pl = w0.index_of(branch.left);
                    let k2 = if k < pl { k } else { k + 1 };
                    assert(w1[k] == w0[k2]);
                }
            }
            assert forall|j: usize| #[trigger] w0.contains(j) && (j as int) < t.len() && t[j as int] is Branch implies w1.contains(j) by {
                if left_child is Prediction {
                    lemma_remove_keeps(w0, w0.index_of(branch.left), j);
                }
                if right_child is Prediction {
                    lemma_remove_keeps(wl, wl.index_of(branch.right), j);
                }
            }
        }
        let ghost p0 = placed@;
        let ghost d0 = deferred@;
        if left_child.is_prediction() && right_child.is_prediction() && placed.len() % 2 == 0 {
            deferred.push(LinkedNode::Branch(e));
            proof {
                lemma_pairing_place(t, w0, w1, id as int, p0, d0, e, true);
            }
        } else {
            placed.push(LinkedNode::Branch(e));
            proof {
                lemma_pairing_place(t, w0, w1, id as int, p0, d0, e, false);
            }
        }
        parent_id = Some(id);
        // A line was started: fill its second slot with a child.
        if placed.len() % 2 == 1 {
            let next: Option<usize> = match (left_child, right_child) {
                (Branch::Ptr(l), _) => Some(l),
                (_, Branch::Ptr(r)) => Some(r),
                _ => None,
            };
            if let Some(c) = next {
                let pos = match waiting_position(&waiting, c) {
                    Some(p) => p,
                    None => {
                        proof {
                            assert(pairing_step(t, st) == PairingStep::Failed);
                        }
                        return None;
                    },
                };
                proof {
                    lemma_pairing_take(t, waiting@, pos as int, placed@, deferred@);
                }
                let ghost wb = waiting@;
                id = match waiting.remove(pos) {
                    Some(x) => x,
                    None => {
                        return None;
                    },
                };
                assert(waiting@ == wb.remove(pos as int));
                proof {
                    assert(wb.index_of(c) == pos as int) by {
                        let i = wb.index_of(c);
                        assert(wb[i] == c);
                    }
                    let next = PairingState { waiting: waiting@, id, parent: parent_id, placed: placed@, deferred: deferred@ };
                    assert(pairing_step(t, st) == PairingStep::Next(next));
                    lemma_pairing_run_next(t, st, next);
                }
                continue;
            }
        }
        let ghost wb = waiting@;
        match waiting.pop_front() {
            Some(x) => {
                proof {
                    lemma_pairing_take(t, wb, 0, placed@, deferred@);
                    assert(waiting@ == wb.remove(0));
                }
                id = x;
                proof {
                    let next = PairingState { waiting: waiting@, id, parent: parent_id, placed: placed@, deferred: deferred@ };
                    assert(pairing_step(t, st) == PairingStep::Next(next));
                    lemma_pairing_run_next(t, st, next);
                }
            },
            None => {
                proof {
                    assert(pairing_step(t, st) == PairingStep::Done(placed@, deferred@));
                }
                break;
            },
        }
    }
    // The deferred branches go last.
    let mut all = placed;
    let ghost pv = all@;
    let mut q: usize = 0;
    while q < deferred.len()
        invariant
            0 <= q <= deferred@.len(),
            all@ == pv + deferred@.subrange(0, q as int),
        decreases deferred@.len() - q,
    {
        all.push(deferred[q]);
        q = q + 1;
        assert(all@ =~= pv + deferred@.subrange(0, q as int));
    }
    assert(deferred@.subrange(0, deferred@.len() as int) =~= deferred@);
    proof {
        let a = all@;
        assert forall|q: int| 0 <= q < a.len() implies ((#[trigger] a[q]) matches LinkedNode::Branch(f) && linked_from(t, f)) by {
            if q < pv.len() {
                assert(a[q] == pv[q]);
            } else {
                assert(a[q] == deferred@[q - pv.len()]);
            }
        }
        assert forall|j: int| 0 <= j < t.len() && (#[trigger] t[j]) is Branch implies is_placed(a, j) by {
            if is_placed(pv, j) {
                let q = choose|q: int| 0 <= q < pv.len() && #[trigger] holds_id(pv[q], j);
                assert(a[q] == pv[q]);
            } else {
                let q = choose|q: int| 0 <= q < deferred@.len() && #[trigger] holds_id(deferred@[q], j);
                assert(a[pv.len() + q] == deferred@[q]);
            }
        }
        if !root_is_double_prediction(t) {
            assert(a[0] == pv[0]);
        }
        lemma_held_once_concat(pv, deferred@);
    }
    // Check that every line of two slots is used well.
    let ghost dv = deferred@;
    let mut i: usize = 0;
    while i + 1 < all.len()
        invariant
            0 <= i,
            i % 2 == 0,
            t == tree.nodes@,
            pairing_run(t, pairing_start(t)) == Some((pv, dv)),
            all@ == pv + dv,
            forall|k: int| 0 <= k < i && k < all@.len() - 1 && k % 2 == 0 ==> line_paired(#[trigger] all@[k], all@[k + 1]),
        decreases all@.len() - i,
    {
        let a = &all[i];
        let b = &all[i + 1];
        let ok = match (a, b) {
            (LinkedNode::Branch(ea), LinkedNode::Branch(eb)) => {
                (ea.left_child.is_prediction() && ea.right_child.is_prediction() && eb.left_child.is_prediction()
                    && eb.right_child.is_prediction()) || ea.left_child == Branch::Ptr(eb.id) || ea.right_child == Branch::Ptr(eb.id)
            },
            _ => false,
        };
        if !ok {
            proof {
                assert(!line_paired(all@[i as int], all@[i + 1]));
                assert(!lines_paired(pv + dv));
            }
            return None;
        }
        i = i + 2;
    }
    Some(all)
}

/// A placement that the pairing placement can give: slots made from the
/// tree, every branch placed exactly once, every line used well, and the root
/// first unless it has two leaf children.
pub open spec fn paired_ok(t: Seq<Node>, placed: Seq<LinkedNode>) -> bool {
    &&& slots_linked(t, placed)
    &&& places_all_branches(t, placed)
    &&& lines_paired(placed)
    &&& held_once(placed)
    &&& !root_is_double_prediction(t) ==> placed.len() > 0 && holds_id(placed[0], 0)
}

/// The compiled tree has the header (first branch at node 2), padding, then
/// slot `p` at node `p + 2`, then padding to an even length.
pub open spec fn is_paired_tree(placed: Seq<LinkedNode>, c: Seq<model::Node>) -> bool {
    let tail = if placed.len() % 2 == 1 { 1int } else { 0int };
    &&& c.len() == placed.len() + tail + 2
    &&& c[0].header() == (TreeHeader { tree_len: c.len() as u32, first_node_idx: 2, cache_metadata: CacheMetadata(0) })
    &&& c[1].spec_is_padding()
    &&& compiled_slots(placed, c, 2)
    &&& tail == 1 ==> c[c.len() - 1].spec_is_padding()
}

/// `c` compiles the pairing placement of the tree `t` (its `paired_order`).
#[verifier::opaque]
pub open spec fn compiles_paired(t: Seq<Node>, c: Seq<model::Node>) -> bool {
    exists|placed: Seq<LinkedNode>|
        paired_ok(t, placed) && placement_compilable(placed) && placed.len() < 0xffff && is_paired_tree(placed, c) && paired_order(t)
            == Some(placed)
}

/// The pairing placement of the tree succeeds and is short enough for
/// 16-bit child pointers.
#[verifier::opaque]
pub open spec fn paired_fits(t: Seq<Node>) -> bool {
    paired_order(t) matches Some(p) && p.len() < 0xffff
}

/// Compile a tree with the pairing placement: the header (first branch at
/// node 2, empty cache metadata) and padding, the placed branches with child
/// pointers shifted by two, and padding to an even length.
#[verifier::spinoff_prover]
#[verifier::rlimit(40)]
pub fn compile_paired_tree(tree: &Tree) -> (r: Result<Vec<model::Node>, CompileError>)
    requires
        ir_tree_wf(tree.nodes@),
        splits_fit(tree.nodes@),
    ensures
        r matches Ok(c) ==> compiles_paired(tree.nodes@, c@),
        r matches Ok(c) ==> is_paired_tree(paired_order(tree.nodes@)->Some_0, c@),
        r matches Err(e) ==> e == CompileError::PlacementFailed || e == CompileError::PlacementTooLong,
        r is Ok <==> paired_fits(tree.nodes@),
{
    reveal(paired_fits);
    let ghost t = tree.nodes@;
    let placed_nodes = match paired_placement(tree) {
        Some(p) => p,
        None => {
            return Err(CompileError::PlacementFailed);
        },
    };
    if placed_nodes.len() >= 0xffff {
        return Err(CompileError::PlacementTooLong);
    }
    let ghost pv = placed_nodes@;
    proof {
        assert forall|p: int| 0 <= p < pv.len() && (#[trigger] pv[p]) is Branch implies ({
            let e = pv[p]->Branch_0;
            &&& e.split_with <= 0x3fff
            &&& (e.left_child matches Branch::Ptr(j) ==> is_placed(pv, j as int))
            &&& (e.right_child matches Branch::Ptr(j) ==> is_placed(pv, j as int))
        }) by {
            let e = pv[p]->Branch_0;
            assert(linked_from(t, e));
            let b = t[e.id as int]->Branch_0;
            if let Branch::Ptr(j) = e.left_child {
                assert(t[b.left as int] is Branch);
            }
            if let Branch::Ptr(j) = e.right_child {
                assert(t[b.right as int] is Branch);
            }
        }
        assert(placement_compilable(pv));
    }
    let tail_padding: usize = if placed_nodes.len() % 2 == 0 { 0 } else { 1 };
    let tree_len = (placed_nodes.len() + tail_padding + 2) as u32;
    let mut optimized_tree: Vec<model::Node> = Vec::new();
    let header = TreeHeader { tree_len, first_node_idx: 2, cache_metadata: CacheMetadata::new_empty() };
    optimized_tree.push(model::Node::from_header(header));
    optimized_tree.push(model::Node::padding());
    let mut i: usize = 0;
    while i < placed_nodes.len()
        invariant
            pv == placed_nodes@,
            placement_compilable(pv),
            pv.len() < 0xffff,
            0 <= i <= pv.len(),
            optimized_tree@.len() == i + 2,
            optimized_tree@[0].header() == header,
            optimized_tree@[1].spec_is_padding(),
            forall|p: int| 0 <= p < i ==> match #[trigger] pv[p] {
                LinkedNode::Branch(e) => optimized_tree@[p + 2].branch() == super::tree_compiler::compiled_branch(pv, e, 2),
                LinkedNode::Padding => optimized_tree@[p + 2].spec_is_padding(),
            },
        decreases pv.len() - i,
    {
        let new = match &placed_nodes[i] {
            LinkedNode::Padding => model::Node::padding(),
            LinkedNode::Branch(b) => {
                assert(pv[i as int] is Branch);
                compile_branch(b, placed_nodes.as_slice(), 2)
            },
        };
        let ghost before = optimized_tree@;
        optimized_tree.push(new);
        assert forall|p: int| 0 <= p < i + 1 implies match #[trigger] pv[p] {
            LinkedNode::Branch(e) => optimized_tree@[p + 2].branch() == super::tree_compiler::compiled_branch(pv, e, 2),
            LinkedNode::Padding => optimized_tree@[p + 2].spec_is_padding(),
        } by {
            if p < i {
                assert(optimized_tree@[p + 2] == before[p + 2]);
            }
        }
        i = i + 1;
    }
    if tail_padding == 1 {
        optimized_tree.push(model::Node::padding());
    }
    proof {
        let c = optimized_tree@;
        assert(c[0].header() == header);
        assert(c[1].spec_is_padding());
        assert(compiled_slots(pv, c, 2));
        assert(paired_ok(t, pv));
        assert(is_paired_tree(pv, c));
        assert(compiles_paired(t, c)) by {
            reveal(compiles_paired);
        }
    }
    Ok(optimized_tree)
}

/// A tree compiled with the pairing placement predicts what the tree
/// predicts, when its root does not have two leaf children: walking the
/// compiled nodes from node 2 ends for every input on which the tree's walk
/// ends, and at the same class.
pub proof fn lemma_paired_tree_predicts(t: Seq<Node>, c: Seq<model::Node>, features: Seq<u16>)
    requires
        ir_tree_wf(t),
        compiles_paired(t, c),
        !root_is_double_prediction(t),
        leaves_fit(t),
        tree_predicts(t, features.len()),
    ensures
        exists|fuel: nat| paths_end(c, 2, features.len(), fuel),
        forall|fuel: nat| paths_end(c, 2, features.len(), fuel) ==> walk(c, 2, features, fuel) == Some(tree_prediction(t, features)),
{
    reveal(compiles_paired);
    let placed = choose|placed: Seq<LinkedNode>|
        paired_ok(t, placed) && placement_compilable(placed) && placed.len() < 0xffff && is_paired_tree(placed, c);
    assert forall|p: int| 0 <= p < placed.len() && (#[trigger] placed[p]) is Branch implies linked_from(t, placed[p]->Branch_0) by {}
    assert(slots_from(t, placed));
    lemma_all_placed_valid(t, placed);
    lemma_compiled_slots_predict(t, placed, c, 2, features);
}

/// Whether the tree headers follow one another from node 0 to the end, each
/// with a non-zero length.
pub fn headers_follow(nodes: &[model::Node]) -> (b: bool)
    ensures
        b == headers_walkable(nodes@),
{
    let n = nodes.len();
    if n == 0 {
        return false;
    }
    let mut cur: usize = 0;
    loop
        invariant
            n == nodes@.len(),
            0 <= cur < n,
            chain_ok(nodes@, cur as int) <==> chain_ok(nodes@, 0),
        decreases n - cur,
    {
        let tl = nodes[cur].as_header().tree_len() as usize;
        if tl == 0 || cur > usize::MAX - tl {
            return false;
        }
        let next = cur + tl;
        if next >= n {
            assert(chain_ok(nodes@, cur as int));
            return true;
        }
        assert(chain_ok(nodes@, next as int) <==> chain_ok(nodes@, cur as int));
        cur = next;
    }
}

/// The header indices from index 0 increase.
proof fn lemma_headers_increase(nodes: Seq<model::Node>)
    requires
        headers_walkable(nodes),
    ensures
        forall|a: int, b: int| 0 <= a < b < tree_headers_of(nodes).len() ==> tree_headers_of(nodes)[a] < tree_headers_of(nodes)[b],
{
    let hs = tree_headers_of(nodes);
    lemma_headers_from_bounds(nodes, 0);
    assert forall|a: int, b: int| 0 <= a < b < hs.len() implies hs[a] < hs[b] by {
        lemma_increase_from(nodes, a, b);
    }
}

#[verifier::spinoff_prover]
proof fn lemma_increase_from(nodes: Seq<model::Node>, a: int, b: int)
    requires
        headers_walkable(nodes),
        0 <= a < b < tree_headers_of(nodes).len(),
    ensures
        tree_headers_of(nodes)[a] < tree_headers_of(nodes)[b],
    decreases b - a,
{
    let hs = tree_headers_of(nodes);
    lemma_headers_from_bounds(nodes, 0);
    assert(chain_ok(nodes, hs[b - 1] as int));
    assert(hs[b] == hs[b - 1] + tree_len_at(nodes, hs[b - 1] as int));
    if a < b - 1 {
        lemma_increase_from(nodes, a, b - 1);
    }
}

/// The cells that `split_cells` marks: going through the cells in order, cell
/// `i` takes `base` trees, one more for the first `extra` cells, from the
/// tree at `tree_pos`; a cell that starts past the last header is skipped.
/// Gives the marks (header index, number of trees), the next tree position,
/// and the error of the first cell that would hold no tree or more than a
/// `u16` counts.
pub open spec fn split_plan(hs: Seq<usize>, base: int, extra: int, cells: int) -> (Seq<(int, int)>, int, Option<CompileError>)
    decreases cells,
{
    if cells <= 0 {
        (Seq::empty(), 0, None)
    } else {
        let prev = split_plan(hs, base, extra, cells - 1);
        let i = cells - 1;
        let num = base + if i < extra { 1int } else { 0int };
        if prev.2 is Some || prev.1 >= hs.len() {
            prev
        } else if num == 0 {
            (prev.0, prev.1, Some(CompileError::EmptyCell))
        } else if num > 0xffff {
            (prev.0, prev.1, Some(CompileError::TooManyTreesInCell))
        } else {
            (prev.0.push((hs[prev.1] as int, num)), sat_add(prev.1, num), None)
        }
    }
}

/// With one header per counted tree and cells that fit, the plan walks the
/// equal chunks: after `i` cells it stands at the start of chunk `i`.
proof fn lemma_split_plan_walks(hs: Seq<usize>, cells: int, i: int)
    requires
        cells > 1,
        0 <= i <= cells,
        hs.len() <= usize::MAX,
        (hs.len() as int) / cells < 0xffff || (hs.len() as int) % cells == 0,
        (hs.len() as int) / cells <= 0xffff,
    ensures
        split_plan(hs, (hs.len() as int) / cells, (hs.len() as int) % cells, i).1 == chunk_start(hs.len() as int, cells, i),
        split_plan(hs, (hs.len() as int) / cells, (hs.len() as int) % cells, i).2 is None,
    decreases i,
{
    let n = hs.len() as int;
    if i == 0 {
        lemma_chunk_start(n, cells, 0);
    } else {
        lemma_split_plan_walks(hs, cells, i - 1);
        lemma_chunk_start(n, cells, i - 1);
        lemma_chunk_start(n, cells, cells - 1);
        vstd::arithmetic::div_mod::lemma_fundamental_div_mod(n, cells);
        if n / cells == 0 {
            assert(n % cells == n) by (nonlinear_arith)
                requires
                    n == cells * (n / cells) + n % cells,
                    n / cells == 0,
            ;
        }
        if chunk_start(n, cells, i - 1) >= n {
            // The chunks from here on are empty.
            assert(chunk_start(n, cells, i) == n) by {
                lemma_chunk_start_monotone(n, cells, i, cells);
            }
        }
    }
}

/// Chunk starts do not decrease.
proof fn lemma_chunk_start_monotone(n: int, cells: int, a: int, b: int)
    requires
        cells > 0,
        n >= 0,
        0 <= a <= b <= cells,
    ensures
        chunk_start(n, cells, a) <= chunk_start(n, cells, b),
    decreases b - a,
{
    if a < b {
        lemma_chunk_start(n, cells, a);
        lemma_chunk_start_monotone(n, cells, a + 1, b);
    }
}

/// With one header per counted tree, the split into more than one cell
/// fails exactly when the largest equal chunk holds more than a `u16`
/// counts.
pub proof fn lemma_split_plan_fits(hs: Seq<usize>, cells: int)
    requires
        cells > 1,
        hs.len() <= usize::MAX,
        (hs.len() as int) / cells <= 0xffff,
    ensures
        split_plan(hs, (hs.len() as int) / cells, (hs.len() as int) % cells, cells).2 is None <==> largest_equal_cell(
            hs.len() as int,
            cells,
        ) <= 0xffff,
{
    let n = hs.len() as int;
    let base = n / cells;
    let extra = n % cells;
    if base < 0xffff || extra == 0 {
        lemma_split_plan_walks(hs, cells, cells);
    } else {
        assert(n > 0) by (nonlinear_arith)
            requires
                cells > 1,
                n / cells == 0xffff,
        ;
        assert(split_plan(hs, base, extra, 0) == (Seq::<(int, int)>::empty(), 0int, None::<CompileError>));
        assert(split_plan(hs, base, extra, 1).2 == Some(CompileError::TooManyTreesInCell));
        lemma_split_plan_error_stays(hs, base, extra, 1, cells);
    }
}

proof fn lemma_split_plan_error_stays(hs: Seq<usize>, base: int, extra: int, c1: int, c2: int)
    requires
        0 <= c1 <= c2,
        split_plan(hs, base, extra, c1).2 is Some,
    ensures
        split_plan(hs, base, extra, c2) == split_plan(hs, base, extra, c1),
    decreases c2 - c1,
{
    if c1 < c2 {
        lemma_split_plan_error_stays(hs, base, extra, c1, c2 - 1);
    }
}

/// `new` is `old` with the header at each mark's index marked as the header
/// of a cell of the mark's number of trees.
pub open spec fn marks_applied(old: Seq<model::Node>, new: Seq<model::Node>, marks: Seq<(int, int)>) -> bool {
    &&& new.len() == old.len()
    &&& forall|q: int| 0 <= q < marks.len() ==> 0 <= (#[trigger] marks[q]).0 < old.len() && new[marks[q].0].0@ == header_bytes(
        cell_header(old[marks[q].0].header(), marks[q].1),
    )
    &&& forall|i: int| 0 <= i < old.len() && (forall|q: int| 0 <= q < marks.len() ==> (#[trigger] marks[q]).0 != i) ==> new[i] == old[i]
}

/// What `split_cells` does: on success it marks the first header of each
/// cell; on an error found before any cell it leaves the nodes as they were,
/// and on one found at a later cell it has marked the cells before it.
pub open spec fn split_result(old: Seq<model::Node>, new: Seq<model::Node>, num_cells: int, total_trees: int, r: Result<(), CompileError>) -> bool {
    if num_cells <= 1 {
        if total_trees > 0xffff {
            r == Err::<(), CompileError>(CompileError::TooManyTreesInCell) && new == old
        } else if total_trees == 0 {
            r == Err::<(), CompileError>(CompileError::EmptyCell) && new == old
        } else {
            r is Ok && marks_applied(old, new, seq![(0int, total_trees)])
        }
    } else {
        let base = total_trees / num_cells;
        let extra = total_trees % num_cells;
        let plan = split_plan(tree_headers_of(old), base, extra, num_cells);
        if base > 0xffff {
            r == Err::<(), CompileError>(CompileError::TooManyTreesInCell) && new == old
        } else if plan.2 is Some {
            r == Err::<(), CompileError>(plan.2->Some_0) && marks_applied(old, new, plan.0)
        } else {
            r is Ok && marks_applied(old, new, plan.0)
        }
    }
}

/// Mark the header at `idx` as the header of a cell of `num_trees` trees.
fn mark_header(nodes: &mut Vec<model::Node>, idx: usize, num_trees: u16)
    requires
        idx < old(nodes)@.len(),
        num_trees > 0,
    ensures
        final(nodes)@ == old(nodes)@.update(idx as int, final(nodes)@[idx as int]),
        final(nodes)@[idx as int].0@ == header_bytes(cell_header(old(nodes)@[idx as int].header(), num_trees as int)),
{
    let mut header = nodes[idx].as_header();
    let metadata = match CacheMetadata::new_cell_header(num_trees) {
        Ok(m) => m,
        Err(_) => {
            proof {
                assert(false);
            }
            return;
        },
    };
    header.set_cache_metadata(metadata);
    nodes.set(idx, model::Node::from_header(header));
}

/// Split the model to distribute trees as evenly as possible between the
/// provided number of cells: mark the header of each cell's first tree with
/// the cell's number of trees (every tree in one cell when there is at most
/// one).
pub fn split_cells(nodes: &mut Vec<model::Node>, num_cells: u8, total_trees: usize) -> (r: Result<(), CompileError>)
    requires
        num_cells <= 1 ==> old(nodes)@.len() > 0,
        num_cells > 1 ==> headers_walkable(old(nodes)@),
    ensures
        split_result(old(nodes)@, final(nodes)@, num_cells as int, total_trees as int, r),
        r matches Err(e) ==> e == CompileError::EmptyCell || e == CompileError::TooManyTreesInCell,
{
    let ghost old_nodes = nodes@;
    // Avoid division by zero: the first cache holds all the trees.
    if num_cells <= 1 {
        if total_trees > 0xffff {
            return Err(CompileError::TooManyTreesInCell);
        }
        if total_trees == 0 {
            return Err(CompileError::EmptyCell);
        }
        mark_header(nodes, 0, total_trees as u16);
        proof {
            let marks = seq![(0int, total_trees as int)];
            assert forall|i: int| 0 <= i < old_nodes.len() && (forall|q: int| 0 <= q < marks.len() ==> (#[trigger] marks[q]).0 != i)
                implies nodes@[i] == old_nodes[i] by {
                assert(marks[0].0 != i);
            }
        }
        return Ok(());
    }
    let cells = num_cells as usize;
    let base_usize = total_trees / cells;
    if base_usize > 0xffff {
        return Err(CompileError::TooManyTreesInCell);
    }
    let base = base_usize as u16;
    let extra = total_trees % cells;
    let header_indices = tree_header_indices(nodes.as_slice());
    proof {
        lemma_headers_from_bounds(old_nodes, 0);
        lemma_headers_increase(old_nodes);
    }
    let ghost hs = header_indices@;
    let mut tree_pos: usize = 0;
    let mut cell_idx: usize = 0;
    let ghost mut marks: Seq<(int, int)> = Seq::empty();
    while cell_idx < cells
        invariant
            old_nodes == old(nodes)@,
            hs == tree_headers_of(old_nodes),
            header_indices@ == hs,
            forall|k: int| 0 <= k < hs.len() ==> (#[trigger] hs[k] as int) < old_nodes.len(),
            forall|a: int, b: int| 0 <= a < b < hs.len() ==> hs[a] < hs[b],
            cells == num_cells as usize,
            num_cells > 1,
            base == total_trees / cells,
            extra == total_trees % cells,
            0 <= cell_idx <= cells,
            split_plan(hs, base as int, extra as int, cell_idx as int) == (marks, tree_pos as int, None::<CompileError>),
            forall|q: int| 0 <= q < marks.len() ==> exists|k: int| 0 <= k < tree_pos && k < hs.len() && (#[trigger] marks[q]).0
                == hs[k],
            marks_applied(old_nodes, nodes@, marks),
        decreases cells - cell_idx,
    {
        let num_trees_usize: usize = base as usize + if cell_idx < extra { 1 } else { 0 };
        // Skip cells that would have no trees.
        if tree_pos >= header_indices.len() {
            cell_idx = cell_idx + 1;
            continue;
        }
        if num_trees_usize == 0 || num_trees_usize > 0xffff {
            proof {
                assert(num_trees_usize as int == base as int + if (cell_idx as int) < extra as int { 1int } else { 0int });
                assert(split_plan(hs, base as int, extra as int, cell_idx + 1).2 == Some(
                    if num_trees_usize == 0 { CompileError::EmptyCell } else { CompileError::TooManyTreesInCell },
                ));
                lemma_split_plan_error_stays(hs, base as int, extra as int, cell_idx + 1, cells as int);
            }
            return Err(if num_trees_usize == 0 { CompileError::EmptyCell } else { CompileError::TooManyTreesInCell });
        }
        let num_trees = num_trees_usize as u16;
        let header_idx = header_indices[tree_pos];
        let ghost before = nodes@;
        let ghost old_marks = marks;
        mark_header(nodes, header_idx, num_trees);
        proof {
            marks = marks.push((header_idx as int, num_trees as int));
            assert forall|q: int| 0 <= q < old_marks.len() implies (#[trigger] old_marks[q]).0 != header_idx as int by {
                let k = choose|k: int| 0 <= k < tree_pos && k < hs.len() && old_marks[q].0 == hs[k];
            }
            assert forall|q: int| 0 <= q < marks.len() implies 0 <= (#[trigger] marks[q]).0 < old_nodes.len() && nodes@[marks[q].0].0@
                == header_bytes(cell_header(old_nodes[marks[q].0].header(), marks[q].1)) by {
                if q < old_marks.len() {
                    assert(marks[q] == old_marks[q]);
                    assert(nodes@[marks[q].0] == before[marks[q].0]);
                }
            }
            assert forall|i: int| 0 <= i < old_nodes.len() && (forall|q: int| 0 <= q < marks.len() ==> (#[trigger] marks[q]).0 != i)
                implies nodes@[i] == old_nodes[i] by {
                assert(marks[old_marks.len() as int].0 != i);
                assert forall|q: int| 0 <= q < old_marks.len() implies (#[trigger] old_marks[q]).0 != i by {
                    assert(marks[q] == old_marks[q]);
                }
            }
            assert forall|q: int| 0 <= q < marks.len() implies exists|k: int| 0 <= k < tree_pos + num_trees && k < hs.len()
                && (#[trigger] marks[q]).0 == hs[k] by {
                if q < old_marks.len() {
                    assert(marks[q] == old_marks[q]);
                } else {
                    assert(marks[q].0 == hs[tree_pos as int]);
                }
            }
        }
        tree_pos = tree_pos.saturating_add(num_trees as usize);
        cell_idx = cell_idx + 1;
    }
    Ok(())
}

/// Tree `order[a]` comes before tree `order[b]` when it is shorter, or as long
/// and first in the forest.
pub open spec fn shortest_first(trees: Seq<Tree>, order: Seq<usize>) -> bool {
    &&& forall|a: int, b: int| 0 <= a < b < order.len() ==> trees[#[trigger] order[a] as int].nodes@.len() <= trees[
        #[trigger] order[b] as int].nodes@.len()
    &&& forall|a: int, b: int| 0 <= a < b < order.len() && trees[#[trigger] order[a] as int].nodes@.len() == trees[
        #[trigger] order[b] as int].nodes@.len() ==> order[a] < order[b]
}

/// The trees' indices ordered by length, shortest first; trees of equal
/// length keep their order.
pub fn order_by_length(trees: &Vec<Tree>) -> (r: Vec<usize>)
    ensures
        is_order_of(r@, trees@.len() as int),
        shortest_first(trees@, r@),
{
    let mut out: Vec<usize> = Vec::new();
    let mut i: usize = 0;
    while i < trees.len()
        invariant
            0 <= i <= trees@.len(),
            is_order_of(out@, i as int),
            shortest_first(trees@, out@),
        decreases trees@.len() - i,
    {
        let len = trees[i].nodes.len();
        let mut p: usize = 0;
        while p < out.len() && trees[out[p]].nodes.len() <= len
            invariant
                0 <= p <= out@.len(),
                is_order_of(out@, i as int),
                i < trees@.len(),
                len == trees@[i as int].nodes@.len(),
                forall|k: int| 0 <= k < p ==> trees@[(#[trigger] out@[k]) as int].nodes@.len() <= len,
            decreases out@.len() - p,
        {
            p = p + 1;
        }
        let ghost before = out@;
        out.insert(p, i);
        proof {
            let o = out@;
            assert(o =~= before.insert(p as int, i));
            assert forall|k: int| 0 <= k < o.len() implies (#[trigger] o[k] as int) < i + 1 by {
                if k < p {
                    assert(o[k] == before[k]);
                } else if k > p {
                    assert(o[k] == before[k - 1]);
                }
            }
            assert forall|a: int, b: int| 0 <= a < o.len() && 0 <= b < o.len() && a != b implies o[a] != o[b] by {
                if a != p as int && b != p as int {
                    let a0 = if a < p { a } else { a - 1 };
                    let b0 = if b < p { b } else { b - 1 };
                    assert(o[a] == before[a0] && o[b] == before[b0]);
                } else if a == p as int {
                    let b0 = if b < p { b } else { b - 1 };
                    assert(o[b] == before[b0]);
                } else {
                    let a0 = if a < p { a } else { a - 1 };
                    assert(o[a] == before[a0]);
                }
            }
            if p < before.len() {
                assert(trees@[before[p as int] as int].nodes@.len() > len);
            }
            assert forall|a: int, b: int| 0 <= a < b < o.len() implies trees@[#[trigger] o[a] as int].nodes@.len() <= trees@[
                #[trigger] o[b] as int].nodes@.len() by {
                if a < p && b < p {
                    assert(o[a] == before[a] && o[b] == before[b]);
                } else if a < p && b == p {
                    assert(o[a] == before[a]);
                } else if a < p {
                    assert(o[a] == before[a] && o[b] == before[b - 1]);
                } else if a == p {
                    assert(o[b] == before[b - 1]);
                    assert(trees@[before[b - 1] as int].nodes@.len() >= trees@[before[p as int] as int].nodes@.len());
                } else {
                    assert(o[a] == before[a - 1] && o[b] == before[b - 1]);
                }
            }
            assert forall|a: int, b: int| 0 <= a < b < o.len() && trees@[#[trigger] o[a] as int].nodes@.len() == trees@[
                #[trigger] o[b] as int].nodes@.len() implies o[a] < o[b] by {
                if a < p && b < p {
                    assert(o[a] == before[a] && o[b] == before[b]);
                } else if a < p && b == p {
                    assert(o[a] == before[a]);
                    assert((before[a] as int) < i);
                } else if a < p {
                    assert(o[a] == before[a] && o[b] == before[b - 1]);
                } else if a == p {
                    assert(o[b] == before[b - 1]);
                    assert(trees@[before[b - 1] as int].nodes@.len() >= trees@[before[p as int] as int].nodes@.len());
                } else {
                    assert(o[a] == before[a - 1] && o[b] == before[b - 1]);
                }
            }
        }
        i = i + 1;
    }
    out
}

/// The trees compiled with the pairing placement, shortest first (trees of
/// equal length keep their order), laid one after the other.
pub open spec fn compiled_paired_forest(trees: Seq<Tree>, nodes: Seq<model::Node>) -> bool {
    exists|order: Seq<usize>, compiled: Seq<Seq<model::Node>>|
        #![trigger is_order_of(order, trees.len() as int), concat_trees(compiled)]
        {
            &&& is_order_of(order, trees.len() as int)
            &&& shortest_first(trees, order)
            &&& compiled.len() == trees.len()
            &&& forall|i: int| 0 <= i < trees.len() ==> compiles_paired(trees[order[i] as int].nodes@, #[trigger] compiled[i])
            &&& nodes == concat_trees(compiled)
        }
}

/// Compile every tree with the pairing placement, shortest first, and lay
/// the compiled trees one after the other.
#[verifier::spinoff_prover]
#[verifier::rlimit(60)]
pub fn compile_paired_trees(trees: &Vec<Tree>) -> (r: Result<Vec<model::Node>, CompileError>)
    requires
        forall|i: int| 0 <= i < trees@.len() ==> ir_tree_wf(#[trigger] trees@[i].nodes@) && splits_fit(trees@[i].nodes@),
    ensures
        r matches Ok(nodes) ==> compiled_paired_forest(trees@, nodes@),
        r matches Err(e) ==> e == CompileError::PlacementFailed || e == CompileError::PlacementTooLong,
        r is Ok <==> forall|i: int| 0 <= i < trees@.len() ==> paired_fits(#[trigger] trees@[i].nodes@),
{
    let order = order_by_length(trees);
    let mut nodes: Vec<model::Node> = Vec::new();
    let ghost mut compiled: Seq<Seq<model::Node>> = Seq::empty();
    let mut k: usize = 0;
    while k < order.len()
        invariant
            forall|i: int| 0 <= i < trees@.len() ==> ir_tree_wf(#[trigger] trees@[i].nodes@) && splits_fit(trees@[i].nodes@),
            is_order_of(order@, trees@.len() as int),
            0 <= k <= order@.len(),
            compiled.len() == k,
            forall|i: int| 0 <= i < k ==> compiles_paired(trees@[order@[i] as int].nodes@, #[trigger] compiled[i]),
            forall|i: int| 0 <= i < k ==> paired_fits(trees@[#[trigger] order@[i] as int].nodes@),
            nodes@ == concat_trees(compiled),
        decreases order@.len() - k,
    {
        let idx = order[k];
        assert(ir_tree_wf(trees@[idx as int].nodes@));
        let c = match compile_paired_tree(&trees[idx]) {
            Ok(c) => c,
            Err(e) => {
                assert(!paired_fits(trees@[idx as int].nodes@));
                return Err(e);
            },
        };
        assert(paired_fits(trees@[idx as int].nodes@));
        assert(compiles_paired(trees@[idx as int].nodes@, c@));
        let ghost before = compiled;
        super::append_nodes(&mut nodes, &c);
        proof {
            compiled = compiled.push(c@);
            assert(compiled.drop_last() =~= before);
            assert(compiled[k as int] == c@);
            assert(order@[k as int] == idx);
            assert(compiles_paired(trees@[order@[k as int] as int].nodes@, compiled[k as int]));
            assert forall|i: int| 0 <= i < k + 1 implies compiles_paired(trees@[order@[i] as int].nodes@, #[trigger] compiled[i]) by {
                if i < k {
                    assert(compiled[i] == before[i]);
                } else {
                    assert(order@[i] == idx);
                }
            }
            assert forall|i: int| 0 <= i < k + 1 implies paired_fits(trees@[#[trigger] order@[i] as int].nodes@) by {
                if i == k {
                    assert(order@[i] == idx);
                }
            }
        }
        k = k + 1;
    }
    proof {
        assert(shortest_first(trees@, order@));
        super::tree_partition::lemma_order_covers(order@, trees@.len() as int);
        assert forall|i: int| 0 <= i < trees@.len() implies paired_fits(#[trigger] trees@[i].nodes@) by {
            assert(order@.contains(i as usize));
            let k = choose|k: int| 0 <= k < order@.len() && order@[k] == i as usize;
            assert(compiles_paired(trees@[order@[k] as int].nodes@, compiled[k]));
        }
    }
    Ok(nodes)
}

} // verus!
