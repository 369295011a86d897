//! Placement orders that do not pair nodes: a seeded shuffle, breadth-first
//! and depth-first.

use vstd::prelude::*;

use std::collections::VecDeque;

use super::{child_ref, holds_id, ir_tree_wf, is_placed, lemma_all_placed_valid, linked_from, make_linked_node,
    places_all_branches, slots_from, valid_placement, Branch, LinkedBranchNode, LinkedNode};
use crate::compiler::{ir_paths_end, Node, Tree};

verus! {

/// The seed of the shuffles, so that compilations are reproducible.
pub const SHUFFLE_SEED: u64 = 0xAEF3210F_2311DAFF;

#[verifier::external_type_specification]
#[verifier::external_body]
pub struct ExRng(fastrand::Rng);

/// `fastrand::Rng::with_seed`: a generator whose output is fixed by the
/// seed. Nothing is stated of the generator.
#[verifier::external_body]
pub(crate) fn rng_with_seed(seed: u64) -> (r: fastrand::Rng) {
    fastrand::Rng::with_seed(seed)
}

/// `fastrand::Rng::shuffle`: reorders `items` in place. The contract states
/// that the result is a permutation of the items; which permutation comes
/// out depends on the generator's state and on the machine's pointer width,
/// and is not stated.
#[verifier::external_body]
pub(crate) fn shuffle_indices(rng: &mut fastrand::Rng, items: &mut Vec<usize>)
    ensures
        final(items)@.len() == old(items)@.len(),
        final(items)@.to_multiset() == old(items)@.to_multiset(),
{
    rng.shuffle(items);
}

/// The indices of the branches among the first `n` nodes, in increasing order.
pub open spec fn branch_indices_upto(t: Seq<Node>, n: int) -> Seq<usize>
    decreases n,
{
    if n <= 0 {
        Seq::empty()
    } else {
        let prev = branch_indices_upto(t, n - 1);
        if t[n - 1] is Branch {
            prev.push((n - 1) as usize)
        } else {
            prev
        }
    }
}

/// The indices of the tree's branches, in increasing order.
pub open spec fn branch_indices(t: Seq<Node>) -> Seq<usize> {
    branch_indices_upto(t, t.len() as int)
}

/// The indices below `n` are those of the branches below `n`, each once.
pub proof fn lemma_branch_indices_upto(t: Seq<Node>, n: int)
    requires
        0 <= n <= t.len(),
        t.len() <= usize::MAX,
    ensures
        forall|k: int| 0 <= k < branch_indices_upto(t, n).len() ==> (#[trigger] branch_indices_upto(t, n)[k]) < n
            && t[branch_indices_upto(t, n)[k] as int] is Branch,
        forall|j: usize| (j as int) < n && t[j as int] is Branch ==> #[trigger] branch_indices_upto(t, n).contains(j),
        branch_indices_upto(t, n).no_duplicates(),
        branch_indices_upto(t, n).len() <= n,
    decreases n,
{
    if n > 0 {
        lemma_branch_indices_upto(t, n - 1);
        let prev = branch_indices_upto(t, n - 1);
        let s = branch_indices_upto(t, n);
        if t[n - 1] is Branch {
            assert(s == prev.push((n - 1) as usize));
            assert forall|j: usize| (j as int) < n && t[j as int] is Branch implies #[trigger] s.contains(j) by {
                if (j as int) < n - 1 {
                    assert(prev.contains(j));
                    let k = choose|k: int| 0 <= k < prev.len() && prev[k] == j;
                    assert(s[k] == prev[k]);
                } else {
                    assert(s[prev.len() as int] == j);
                }
            }
            assert forall|a: int, b: int| 0 <= a < s.len() && 0 <= b < s.len() && a != b implies s[a] != s[b] by {
                if a < prev.len() && b < prev.len() {
                    assert(s[a] == prev[a] && s[b] == prev[b]);
                } else if a < prev.len() {
                    assert(s[a] == prev[a] && prev[a] < n - 1);
                } else if b < prev.len() {
                    assert(s[b] == prev[b] && prev[b] < n - 1);
                }
            }
        }
    }
}

/// The indices of the tree's branches, in increasing order.
pub fn collect_branch_indices(tree: &Tree) -> (r: Vec<usize>)
    ensures
        r@ == branch_indices(tree.nodes@),
{
    let mut r: Vec<usize> = Vec::new();
    let mut i: usize = 0;
    while i < tree.nodes.len()
        invariant
            0 <= i <= tree.nodes@.len(),
            r@ == branch_indices_upto(tree.nodes@, i as int),
        decreases tree.nodes@.len() - i,
    {
        if tree.nodes[i].is_branch() {
            r.push(i);
        }
        i = i + 1;
    }
    r
}

/// `s` with the root index swapped to the front.
pub open spec fn root_first(s: Seq<usize>) -> Seq<usize> {
    if s.contains(0usize) {
        s.update(0, 0usize).update(s.index_of(0usize), s[0])
    } else {
        s
    }
}

/// A permutation of the branch indices holds each branch index once, and
/// nothing else.
proof fn lemma_order_members(t: Seq<Node>, s: Seq<usize>)
    requires
        t.len() <= usize::MAX,
        s.to_multiset() == branch_indices(t).to_multiset(),
    ensures
        forall|j: usize| #[trigger] s.contains(j) <==> ((j as int) < t.len() && t[j as int] is Branch),
        s.no_duplicates(),
{
    let b = branch_indices(t);
    lemma_branch_indices_upto(t, t.len() as int);
    s.to_multiset_ensures();
    b.to_multiset_ensures();
    assert forall|j: usize| #[trigger] s.contains(j) <==> ((j as int) < t.len() && t[j as int] is Branch) by {
        assert(s.contains(j) <==> s.to_multiset().count(j) > 0);
        assert(b.contains(j) <==> b.to_multiset().count(j) > 0);
        if b.contains(j) {
            let k = choose|k: int| 0 <= k < b.len() && b[k] == j;
            assert(t[b[k] as int] is Branch);
        }
    }
    b.lemma_multiset_has_no_duplicates();
    s.lemma_multiset_has_no_duplicates_conv();
}

/// `placed` holds the branches in the order of some permutation of the
/// tree's branch indices, the root swapped to the front, none with a parent.
pub open spec fn is_shuffled_placement(t: Seq<Node>, placed: Seq<LinkedNode>) -> bool {
    exists|order: Seq<usize>|
        #![trigger order.to_multiset()]
        {
            &&& order.to_multiset() == branch_indices(t).to_multiset()
            &&& placed.len() == order.len()
            &&& forall|p: int| 0 <= p < placed.len() ==> #[trigger] placed[p] == LinkedNode::Branch(
                linked_of(t, root_first(order)[p], None),
            )
        }
}

/// Place the branches in the given order, after swapping the root to the
/// front: `order` is a permutation of the tree's branch indices.
pub fn place_in_order(tree: &Tree, order: Vec<usize>) -> (r: Vec<LinkedNode>)
    requires
        ir_tree_wf(tree.nodes@),
        order@.to_multiset() == branch_indices(tree.nodes@).to_multiset(),
    ensures
        r@.len() == order@.len(),
        forall|p: int| 0 <= p < r@.len() ==> ((#[trigger] r@[p]) matches LinkedNode::Branch(e) && e.id == root_first(order@)[p]
            && e.parent_id is None),
        forall|p: int| 0 <= p < r@.len() ==> #[trigger] r@[p] == LinkedNode::Branch(linked_of(tree.nodes@, root_first(order@)[p], None)),
        valid_placement(tree.nodes@, r@),
        places_all_branches(tree.nodes@, r@),
{
    let ghost t = tree.nodes@;
    let ghost s = order@;
    let n = tree.nodes.len();
    proof {
        lemma_order_members(t, s);
        assert(s.contains(0usize));
    }
    let mut order = order;
    let mut p: usize = 0;
    while p < order.len() && order[p] != 0
        invariant
            order@ == s,
            s.contains(0usize),
            0 <= p <= s.len(),
            forall|q: int| 0 <= q < p ==> s[q] != 0usize,
        decreases s.len() - p,
    {
        p = p + 1;
    }
    if p == order.len() {
        proof {
            let q = choose|q: int| 0 <= q < s.len() && s[q] == 0usize;
            assert(s[q] != 0usize);
        }
    }
    proof {
        assert(s[p as int] == 0usize);
        assert(s.index_of(0usize) == p as int) by {
            let i = s.index_of(0usize);
            assert(s[i] == 0usize);
        }
    }
    let first = order[0];
    order.set(0, 0);
    order.set(p, first);
    let ghost w = order@;
    assert(w == root_first(s));
    proof {
        assert forall|j: usize| #[trigger] w.contains(j) <==> s.contains(j) by {
            if w.contains(j) {
                let k = choose|k: int| 0 <= k < w.len() && w[k] == j;
                if k == 0 {
                    assert(s[p as int] == j);
                } else if k == p as int {
                    assert(s[0] == j);
                } else {
                    assert(s[k] == j);
                }
            }
            if s.contains(j) {
                let k = choose|k: int| 0 <= k < s.len() && s[k] == j;
                if k == 0 {
                    assert(w[p as int] == j);
                } else if k == p as int {
                    assert(w[0] == j);
                } else {
                    assert(w[k] == j);
                }
            }
        }
        assert forall|k: int| 0 <= k < w.len() implies (#[trigger] w[k] as int) < t.len() && t[w[k] as int] is Branch by {
            assert(w.contains(w[k]));
        }
    }
    let mut r: Vec<LinkedNode> = Vec::new();
    let mut k: usize = 0;
    while k < order.len()
        invariant
            t == tree.nodes@,
            n == t.len(),
            ir_tree_wf(t),
            order@ == w,
            0 <= k <= w.len(),
            r@.len() == k,
            forall|k: int| 0 <= k < w.len() ==> (#[trigger] w[k] as int) < t.len() && t[w[k] as int] is Branch,
            forall|q: int| 0 <= q < k ==> ((#[trigger] r@[q]) matches LinkedNode::Branch(e) && e.id == w[q] && e.parent_id is None
                && linked_from(t, e)),
        decreases w.len() - k,
    {
        r.push(make_linked_node(tree, order[k], None));
        k = k + 1;
    }
    proof {
        assert(w[0] == 0usize);
        assert(holds_id(r@[0], 0));
        assert forall|q: int| 0 <= q < r@.len() && (#[trigger] r@[q]) is Branch implies linked_from(t, r@[q]->Branch_0) by {}
        assert(slots_from(t, r@));
        assert forall|j: int| 0 <= j < t.len() && (#[trigger] t[j]) is Branch implies is_placed(r@, j) by {
            let ju = j as usize;
            assert(ju as int == j);
            assert(s.contains(ju));
            assert(w.contains(ju));
            let q = choose|q: int| 0 <= q < w.len() && w[q] == ju;
            assert(holds_id(r@[q], j));
        }
        lemma_all_placed_valid(t, r@);
    }
    r
}

/// Place the branches in a random but reproducible order, the root first.
pub fn random_placement(tree: &Tree) -> (r: Vec<LinkedNode>)
    requires
        ir_tree_wf(tree.nodes@),
    ensures
        r@.len() == branch_indices(tree.nodes@).len(),
        forall|p: int| 0 <= p < r@.len() ==> ((#[trigger] r@[p]) matches LinkedNode::Branch(e) && e.parent_id is None),
        valid_placement(tree.nodes@, r@),
        places_all_branches(tree.nodes@, r@),
        is_shuffled_placement(tree.nodes@, r@),
{
    let mut rng = rng_with_seed(SHUFFLE_SEED);
    let mut indices = collect_branch_indices(tree);
    shuffle_indices(&mut rng, &mut indices);
    let ghost order = indices@;
    let r = place_in_order(tree, indices);
    assert(order.to_multiset() == branch_indices(tree.nodes@).to_multiset());
    r
}

/// Every path from the root ends at a leaf: the tree has no cycle.
pub open spec fn tree_is_finite(t: Seq<Node>) -> bool {
    exists|fuel: nat| ir_paths_end(t, 0, 0x1_0000, fuel)
}

/// The number of branches of the tree under node `j` unfolded along every
/// path (a shared subtree counts once per path), within `fuel` steps.
pub open spec fn unfolded_branches(t: Seq<Node>, j: int, fuel: nat) -> nat
    decreases fuel,
{
    if fuel == 0 || !(0 <= j < t.len()) {
        0
    } else {
        match t[j] {
            Node::Leaf(_) => 0,
            Node::Branch(b) => 1 + unfolded_branches(t, b.left as int, (fuel - 1) as nat) + unfolded_branches(
                t,
                b.right as int,
                (fuel - 1) as nat,
            ),
        }
    }
}

proof fn lemma_unfolded_more_fuel(t: Seq<Node>, j: int, f1: nat, f2: nat)
    requires
        ir_paths_end(t, j, 0x1_0000, f1),
        f1 <= f2,
    ensures
        ir_paths_end(t, j, 0x1_0000, f2),
        unfolded_branches(t, j, f1) == unfolded_branches(t, j, f2),
    decreases f1,
{
    if let Node::Branch(b) = t[j] {
        lemma_unfolded_more_fuel(t, b.left as int, (f1 - 1) as nat, (f2 - 1) as nat);
        lemma_unfolded_more_fuel(t, b.right as int, (f1 - 1) as nat, (f2 - 1) as nat);
    }
}

/// The number of branches of the tree unfolded along every path from the
/// root: what a traversal that places a shared subtree once per path places.
pub open spec fn unfolded_size(t: Seq<Node>) -> nat {
    unfolded_branches(t, 0, choose|fuel: nat| ir_paths_end(t, 0, 0x1_0000, fuel))
}

/// The unfolded branches still to visit from the pending nodes `q`.
pub open spec fn pending_weight(t: Seq<Node>, q: Seq<usize>, fuel: nat) -> nat
    decreases q.len(),
{
    if q.len() == 0 {
        0
    } else {
        unfolded_branches(t, q.last() as int, fuel) + pending_weight(t, q.drop_last(), fuel)
    }
}

proof fn lemma_pending_weight_push(t: Seq<Node>, q: Seq<usize>, x: usize, fuel: nat)
    ensures
        pending_weight(t, q.push(x), fuel) == pending_weight(t, q, fuel) + unfolded_branches(t, x as int, fuel),
{
    assert(q.push(x).drop_last() =~= q);
}

proof fn lemma_pending_weight_front(t: Seq<Node>, q: Seq<usize>, fuel: nat)
    requires
        q.len() > 0,
    ensures
        pending_weight(t, q, fuel) == unfolded_branches(t, q[0] as int, fuel) + pending_weight(
            t,
            q.subrange(1, q.len() as int),
            fuel,
        ),
    decreases q.len(),
{
    if q.len() == 1 {
        assert(q.subrange(1, 1) =~= Seq::<usize>::empty());
        assert(q.drop_last() =~= Seq::<usize>::empty());
    } else {
        lemma_pending_weight_front(t, q.drop_last(), fuel);
        assert(q.subrange(1, q.len() as int).drop_last() =~= q.drop_last().subrange(1, q.len() - 1));
        assert(q.subrange(1, q.len() as int).last() == q.last());
    }
}

/// A pointer child of a placed branch is placed already or waits in `q`.
pub open spec fn child_pending(placed: Seq<LinkedNode>, q: Seq<usize>, c: Branch) -> bool {
    c matches Branch::Ptr(j) ==> is_placed(placed, j as int) || q.contains(j)
}

/// Both pointer children of the slot are placed or wait in `q`.
pub open spec fn children_pending(placed: Seq<LinkedNode>, q: Seq<usize>, n: LinkedNode) -> bool {
    n matches LinkedNode::Branch(e) ==> child_pending(placed, q, e.left_child) && child_pending(placed, q, e.right_child)
}

proof fn lemma_placed_grows(a: Seq<LinkedNode>, b: Seq<LinkedNode>, j: int)
    requires
        is_placed(a, j),
        a.len() <= b.len(),
        forall|k: int| 0 <= k < a.len() ==> b[k] == a[k],
    ensures
        is_placed(b, j),
{
    let q = choose|q: int| 0 <= q < a.len() && #[trigger] holds_id(a[q], j);
    assert(holds_id(b[q], j));
}

/// Pending children stay pending, or become placed, when `q0` loses its
/// first node to a new last slot of `b` and gains nodes at its end to give `q1`.
proof fn lemma_children_stay_pending(a: Seq<LinkedNode>, b: Seq<LinkedNode>, q0: Seq<usize>, q1: Seq<usize>, c: Branch)
    requires
        child_pending(a, q0, c),
        q0.len() > 0,
        b.len() == a.len() + 1,
        forall|k: int| 0 <= k < a.len() ==> b[k] == a[k],
        holds_id(b[a.len() as int], q0[0] as int),
        q1.len() >= q0.len() - 1,
        forall|k: int| 0 <= k < q0.len() - 1 ==> q1[k] == q0[k + 1],
    ensures
        child_pending(b, q1, c),
{
    if let Branch::Ptr(j) = c {
        if is_placed(a, j as int) {
            lemma_placed_grows(a, b, j as int);
        } else {
            let k = choose|k: int| 0 <= k < q0.len() && q0[k] == j;
            if k == 0 {
                assert(holds_id(b[a.len() as int], j as int));
            } else {
                assert(q1[k - 1] == j);
            }
        }
    }
}

/// Place the branches reachable from the root in breadth-first order.
pub fn breadth_first_placement(tree: &Tree) -> (r: Vec<LinkedNode>)
    requires
        ir_tree_wf(tree.nodes@),
        tree_is_finite(tree.nodes@),
    ensures
        valid_placement(tree.nodes@, r@),
        forall|p: int| 0 <= p < r@.len() ==> ((#[trigger] r@[p]) matches LinkedNode::Branch(e) && e.parent_id is None),
        is_breadth_first_order(tree.nodes@, r@),
        r@.len() == unfolded_size(tree.nodes@),
{
    let ghost t = tree.nodes@;
    let ghost fuel = choose|fuel: nat| ir_paths_end(t, 0, 0x1_0000, fuel);
    let mut placed_nodes: Vec<LinkedNode> = Vec::new();
    let mut queue: VecDeque<usize> = VecDeque::new();
    queue.push_back(0);
    proof {
        reveal(bfs_prefix);
        lemma_pending_weight_push(t, Seq::empty(), 0, fuel);
        assert(queue@ == Seq::<usize>::empty().push(0));
    }
    loop
        invariant
            t == tree.nodes@,
            ir_tree_wf(t),
            forall|k: int| 0 <= k < queue@.len() ==> (#[trigger] queue@[k] as int) < t.len() && t[queue@[k] as int] is Branch
                && ir_paths_end(t, queue@[k] as int, 0x1_0000, fuel),
            placed_nodes@.len() == 0 ==> queue@ == seq![0usize],
            placed_nodes@.len() > 0 ==> holds_id(placed_nodes@[0], 0),
            forall|p: int| 0 <= p < placed_nodes@.len() ==> ((#[trigger] placed_nodes@[p]) matches LinkedNode::Branch(e)
                && e.parent_id is None && linked_from(t, e)),
            forall|p: int| 0 <= p < placed_nodes@.len() ==> children_pending(placed_nodes@, queue@, #[trigger] placed_nodes@[p]),
            queue@ == bfs_queue(t, placed_nodes@.len()),
            bfs_prefix(t, placed_nodes@),
            fuel == choose|fuel: nat| ir_paths_end(t, 0, 0x1_0000, fuel),
            placed_nodes@.len() + pending_weight(t, queue@, fuel) == unfolded_size(t),
        ensures
            queue@.len() == 0,
        decreases pending_weight(t, queue@, fuel),
    {
        let ghost q0 = queue@;
        let ghost before = placed_nodes@;
        let id = match queue.pop_front() {
            Some(id) => id,
            None => break,
        };
        proof {
            lemma_pending_weight_front(t, q0, fuel);
        }
        let branch = match &tree.nodes[id] {
            Node::Branch(b) => b,
            Node::Leaf(_) => {
                proof {
                    assert(false);
                }
                return placed_nodes;
            },
        };
        assert(t[id as int] == Node::Branch(*branch));
        let ghost rest = queue@;
        let left_child = match &tree.nodes[branch.left] {
            Node::Leaf(l) => Branch::Prediction(l.prediction),
            Node::Branch(_) => {
                queue.push_back(branch.left);
                Branch::Ptr(branch.left)
            },
        };
        let ghost mid = queue@;
        let right_child = match &tree.nodes[branch.right] {
            Node::Leaf(l) => Branch::Prediction(l.prediction),
            Node::Branch(_) => {
                queue.push_back(branch.right);
                Branch::Ptr(branch.right)
            },
        };
        let e = LinkedBranchNode {
            id,
            parent_id: None,
            left_child,
            right_child,
            split_at: branch.split_at,
            split_with: branch.split_with,
        };
        placed_nodes.push(LinkedNode::Branch(e));
        proof {
            let b = *branch;
            assert(ir_paths_end(t, b.left as int, 0x1_0000, (fuel - 1) as nat));
            assert(ir_paths_end(t, b.right as int, 0x1_0000, (fuel - 1) as nat));
            lemma_unfolded_more_fuel(t, b.left as int, (fuel - 1) as nat, fuel);
            lemma_unfolded_more_fuel(t, b.right as int, (fuel - 1) as nat, fuel);
            if t[b.left as int] is Branch {
                lemma_pending_weight_push(t, rest, b.left, fuel);
                assert(mid == rest.push(b.left));
            } else {
                assert(mid == rest);
            }
            if t[b.right as int] is Branch {
                lemma_pending_weight_push(t, mid, b.right, fuel);
                assert(queue@ == mid.push(b.right));
            } else {
                assert(queue@ == mid);
            }
            assert(pending_weight(t, queue@, fuel) + 1 == pending_weight(t, q0, fuel));
            assert(linked_from(t, e));
            assert forall|k: int| 0 <= k < queue@.len() implies (#[trigger] queue@[k] as int) < t.len() && t[queue@[k] as int] is Branch
                && ir_paths_end(t, queue@[k] as int, 0x1_0000, fuel) by {
                if k < rest.len() {
                    assert(queue@[k] == q0[k + 1]);
                }
            }
            assert(forall|k: int| 0 <= k < q0.len() - 1 ==> queue@[k] == q0[k + 1]);
            assert(placed_nodes@[before.len() as int] == LinkedNode::Branch(e));
            assert forall|p: int| 0 <= p < placed_nodes@.len() implies children_pending(placed_nodes@, queue@, #[trigger] placed_nodes@[p]) by {
                if p < before.len() {
                    assert(placed_nodes@[p] == before[p]);
                    assert(children_pending(before, q0, before[p]));
                    if let LinkedNode::Branch(f) = before[p] {
                        lemma_children_stay_pending(before, placed_nodes@, q0, queue@, f.left_child);
                        lemma_children_stay_pending(before, placed_nodes@, q0, queue@, f.right_child);
                    }
                } else {
                    if let Branch::Ptr(j) = left_child {
                        assert(mid[rest.len() as int] == j);
                        assert(queue@[rest.len() as int] == j);
                    }
                    if let Branch::Ptr(j) = right_child {
                        assert(queue@[queue@.len() - 1] == j);
                    }
                }
            }
            if before.len() == 0 {
                assert(id == 0);
            } else {
                assert(placed_nodes@[0] == before[0]);
            }
            assert(rest == q0.subrange(1, q0.len() as int));
            assert(queue@ == bfs_next_queue(q0, e));
            assert(e == linked_of(t, q0[0], None));
            lemma_bfs_trace_step(t, before, placed_nodes@, q0, e);
        }
    }
    proof {
        assert(placed_nodes@.len() > 0);
        assert forall|p: int| 0 <= p < placed_nodes@.len() && (#[trigger] placed_nodes@[p]) is Branch implies {
            let e = placed_nodes@[p]->Branch_0;
            &&& (e.left_child matches Branch::Ptr(j) ==> is_placed(placed_nodes@, j as int))
            &&& (e.right_child matches Branch::Ptr(j) ==> is_placed(placed_nodes@, j as int))
        } by {
            assert(children_pending(placed_nodes@, queue@, placed_nodes@[p]));
        }
        reveal(bfs_prefix);
    }
    placed_nodes
}

/// The node indices on a depth-first stack.
pub open spec fn stack_ids(s: Seq<(usize, Option<usize>)>) -> Seq<usize> {
    Seq::new(s.len(), |i: int| s[i].0)
}

/// Pending children stay pending, or become placed, when `q0` loses its last
/// node to a new last slot of `b` and gains nodes at its end to give `q1`.
proof fn lemma_children_stay_pending_stack(a: Seq<LinkedNode>, b: Seq<LinkedNode>, q0: Seq<usize>, q1: Seq<usize>, c: Branch)
    requires
        child_pending(a, q0, c),
        q0.len() > 0,
        b.len() == a.len() + 1,
        forall|k: int| 0 <= k < a.len() ==> b[k] == a[k],
        holds_id(b[a.len() as int], q0.last() as int),
        q1.len() >= q0.len() - 1,
        forall|k: int| 0 <= k < q0.len() - 1 ==> q1[k] == q0[k],
    ensures
        child_pending(b, q1, c),
{
    if let Branch::Ptr(j) = c {
        if is_placed(a, j as int) {
            lemma_placed_grows(a, b, j as int);
        } else {
            let k = choose|k: int| 0 <= k < q0.len() && q0[k] == j;
            if k == q0.len() - 1 {
                assert(holds_id(b[a.len() as int], j as int));
            } else {
                assert(q1[k] == j);
            }
        }
    }
}

/// Place the branches reachable from the root in depth-first pre-order, left
/// before right, each with the index of the branch it was reached from.
#[verifier::rlimit(60)]
pub fn depth_first_placement(tree: &Tree) -> (r: Vec<LinkedNode>)
    requires
        ir_tree_wf(tree.nodes@),
        tree_is_finite(tree.nodes@),
    ensures
        valid_placement(tree.nodes@, r@),
        r@[0] == make_root_slot(tree.nodes@),
        is_depth_first_order(tree.nodes@, r@),
        r@.len() == unfolded_size(tree.nodes@),
{
    let ghost t = tree.nodes@;
    let ghost fuel = choose|fuel: nat| ir_paths_end(t, 0, 0x1_0000, fuel);
    let mut placed_nodes: Vec<LinkedNode> = Vec::new();
    let mut stack: Vec<(usize, Option<usize>)> = Vec::new();
    stack.push((0, None));
    proof {
        reveal(dfs_prefix);
        lemma_pending_weight_push(t, Seq::empty(), 0, fuel);
        assert(stack_ids(stack@) == Seq::<usize>::empty().push(0));
    }
    loop
        invariant
            t == tree.nodes@,
            ir_tree_wf(t),
            dfs_inv(t, fuel, placed_nodes@, stack@),
            stack@ == dfs_stack(t, placed_nodes@.len()),
            dfs_prefix(t, placed_nodes@),
            fuel == choose|fuel: nat| ir_paths_end(t, 0, 0x1_0000, fuel),
            placed_nodes@.len() + pending_weight(t, stack_ids(stack@), fuel) == unfolded_size(t),
        ensures
            stack@.len() == 0,
        decreases pending_weight(t, stack_ids(stack@), fuel),
    {
        let ghost s0 = stack@;
        let ghost before = placed_nodes@;
        let (id, parent_id) = match stack.pop() {
            Some(x) => x,
            None => break,
        };
        proof {
            assert(s0.len() > 0);
            assert(id == s0.last().0 && parent_id == s0.last().1);
        }
        let branch = match &tree.nodes[id] {
            Node::Branch(b) => b,
            Node::Leaf(_) => {
                proof {
                    assert(false);
                }
                return placed_nodes;
            },
        };
        assert(t[id as int] == Node::Branch(*branch));
        let left_child = match &tree.nodes[branch.left] {
            Node::Leaf(l) => Branch::Prediction(l.prediction),
            Node::Branch(_) => Branch::Ptr(branch.left),
        };
        let right_child = match &tree.nodes[branch.right] {
            Node::Leaf(l) => Branch::Prediction(l.prediction),
            Node::Branch(_) => Branch::Ptr(branch.right),
        };
        let e = LinkedBranchNode {
            id,
            parent_id,
            left_child,
            right_child,
            split_at: branch.split_at,
            split_with: branch.split_with,
        };
        placed_nodes.push(LinkedNode::Branch(e));
        // Push right before left so left is popped first (pre-order traversal).
        if let Branch::Ptr(r) = right_child {
            stack.push((r, Some(id)));
        }
        if let Branch::Ptr(l) = left_child {
            stack.push((l, Some(id)));
        }
        proof {
            assert(stack@ == dfs_next_stack(s0, e));
            lemma_dfs_step(t, fuel, before, s0, e);
            assert(e == linked_of(t, id, parent_id));
            lemma_dfs_trace_step(t, before, placed_nodes@, s0, e);
        }
    }
    proof {
        assert(placed_nodes@.len() > 0);
        assert forall|p: int| 0 <= p < placed_nodes@.len() && (#[trigger] placed_nodes@[p]) is Branch implies {
            let e = placed_nodes@[p]->Branch_0;
            &&& (e.left_child matches Branch::Ptr(j) ==> is_placed(placed_nodes@, j as int))
            &&& (e.right_child matches Branch::Ptr(j) ==> is_placed(placed_nodes@, j as int))
        } by {
            assert(children_pending(placed_nodes@, stack_ids(stack@), placed_nodes@[p]));
        }
        reveal(dfs_prefix);
    }
    placed_nodes
}

/// The stack after popping the branch of `e` and pushing its pointer
/// children, right before left.
pub open spec fn dfs_next_stack(s0: Seq<(usize, Option<usize>)>, e: LinkedBranchNode) -> Seq<(usize, Option<usize>)> {
    let base = s0.drop_last();
    let m = match e.right_child {
        Branch::Ptr(r) => base.push((r, Some(e.id))),
        Branch::Prediction(_) => base,
    };
    match e.left_child {
        Branch::Ptr(l) => m.push((l, Some(e.id))),
        Branch::Prediction(_) => m,
    }
}

/// One step of the depth-first loop extends the trace by the top of the
/// stack.
proof fn lemma_dfs_trace_step(
    t: Seq<Node>,
    before: Seq<LinkedNode>,
    after: Seq<LinkedNode>,
    s0: Seq<(usize, Option<usize>)>,
    e: LinkedBranchNode,
)
    requires
        s0 == dfs_stack(t, before.len()),
        s0.len() > 0,
        e == linked_of(t, s0.last().0, s0.last().1),
        after == before.push(LinkedNode::Branch(e)),
        dfs_prefix(t, before),
    ensures
        dfs_stack(t, after.len()) == dfs_next_stack(s0, e),
        dfs_prefix(t, after),
{
    reveal(dfs_prefix);
    assert forall|k: int| 0 <= k < after.len() implies dfs_stack(t, k as nat).len() > 0 && #[trigger] after[k]
        == LinkedNode::Branch(linked_of(t, dfs_stack(t, k as nat).last().0, dfs_stack(t, k as nat).last().1)) by {
        if k < before.len() {
            assert(after[k] == before[k]);
        }
    }
}

/// The slot made from the branch at index `id` of the tree, reached from
/// `parent`.
pub open spec fn linked_of(t: Seq<Node>, id: usize, parent: Option<usize>) -> LinkedBranchNode {
    let b = t[id as int]->Branch_0;
    LinkedBranchNode {
        id,
        parent_id: parent,
        left_child: child_ref(t, b.left as int),
        right_child: child_ref(t, b.right as int),
        split_at: b.split_at,
        split_with: b.split_with,
    }
}

/// The depth-first stack after `k` branches have been placed: it starts with
/// the root, and each step pops the top branch and pushes its pointer
/// children, right before left.
pub open spec fn dfs_stack(t: Seq<Node>, k: nat) -> Seq<(usize, Option<usize>)>
    decreases k,
{
    if k == 0 {
        seq![(0usize, None::<usize>)]
    } else {
        let s = dfs_stack(t, (k - 1) as nat);
        if s.len() == 0 {
            s
        } else {
            dfs_next_stack(s, linked_of(t, s.last().0, s.last().1))
        }
    }
}

/// Slot `k` of `placed` holds the top of the depth-first stack after `k`
/// steps.
#[verifier::opaque]
pub open spec fn dfs_prefix(t: Seq<Node>, placed: Seq<LinkedNode>) -> bool {
    forall|k: int| 0 <= k < placed.len() ==> dfs_stack(t, k as nat).len() > 0 && #[trigger] placed[k] == LinkedNode::Branch(
        linked_of(t, dfs_stack(t, k as nat).last().0, dfs_stack(t, k as nat).last().1),
    )
}

/// `placed` is exactly the depth-first pre-order of the tree: slot `k` holds
/// the top of the stack after `k` steps, and the stack is empty after the
/// last slot.
pub open spec fn is_depth_first_order(t: Seq<Node>, placed: Seq<LinkedNode>) -> bool {
    &&& dfs_stack(t, placed.len()).len() == 0
    &&& forall|k: int| 0 <= k < placed.len() ==> dfs_stack(t, k as nat).len() > 0 && #[trigger] placed[k] == LinkedNode::Branch(
        linked_of(t, dfs_stack(t, k as nat).last().0, dfs_stack(t, k as nat).last().1),
    )
}

/// The queue after popping the branch of `e` from its front and appending
/// its pointer children, left before right.
pub open spec fn bfs_next_queue(q0: Seq<usize>, e: LinkedBranchNode) -> Seq<usize> {
    let base = q0.subrange(1, q0.len() as int);
    let m = match e.left_child {
        Branch::Ptr(l) => base.push(l),
        Branch::Prediction(_) => base,
    };
    match e.right_child {
        Branch::Ptr(r) => m.push(r),
        Branch::Prediction(_) => m,
    }
}

/// The breadth-first queue after `k` branches have been placed: it starts
/// with the root, and each step pops the front branch and appends its
/// pointer children, left before right.
pub open spec fn bfs_queue(t: Seq<Node>, k: nat) -> Seq<usize>
    decreases k,
{
    if k == 0 {
        seq![0usize]
    } else {
        let q = bfs_queue(t, (k - 1) as nat);
        if q.len() == 0 {
            q
        } else {
            bfs_next_queue(q, linked_of(t, q[0], None))
        }
    }
}

/// Slot `k` of `placed` holds the front of the breadth-first queue after `k`
/// steps.
#[verifier::opaque]
pub open spec fn bfs_prefix(t: Seq<Node>, placed: Seq<LinkedNode>) -> bool {
    forall|k: int| 0 <= k < placed.len() ==> bfs_queue(t, k as nat).len() > 0 && #[trigger] placed[k] == LinkedNode::Branch(
        linked_of(t, bfs_queue(t, k as nat)[0], None),
    )
}

/// One step of the breadth-first loop extends the trace by the front of the
/// queue.
proof fn lemma_bfs_trace_step(t: Seq<Node>, before: Seq<LinkedNode>, after: Seq<LinkedNode>, q0: Seq<usize>, e: LinkedBranchNode)
    requires
        q0 == bfs_queue(t, before.len()),
        q0.len() > 0,
        e == linked_of(t, q0[0], None),
        after == before.push(LinkedNode::Branch(e)),
        bfs_prefix(t, before),
    ensures
        bfs_queue(t, after.len()) == bfs_next_queue(q0, e),
        bfs_prefix(t, after),
{
    reveal(bfs_prefix);
    assert forall|k: int| 0 <= k < after.len() implies bfs_queue(t, k as nat).len() > 0 && #[trigger] after[k]
        == LinkedNode::Branch(linked_of(t, bfs_queue(t, k as nat)[0], None)) by {
        if k < before.len() {
            assert(after[k] == before[k]);
        }
    }
}

/// `placed` is exactly the breadth-first order of the tree: slot `k` holds
/// the front of the queue after `k` steps, and the queue is empty after the
/// last slot.
pub open spec fn is_breadth_first_order(t: Seq<Node>, placed: Seq<LinkedNode>) -> bool {
    &&& bfs_queue(t, placed.len()).len() == 0
    &&& forall|k: int| 0 <= k < placed.len() ==> bfs_queue(t, k as nat).len() > 0 && #[trigger] placed[k] == LinkedNode::Branch(
        linked_of(t, bfs_queue(t, k as nat)[0], None),
    )
}

/// The stack holds branches whose paths end within `fuel`.
pub open spec fn stack_ok(t: Seq<Node>, fuel: nat, s: Seq<(usize, Option<usize>)>) -> bool {
    forall|k: int| 0 <= k < s.len() ==> (#[trigger] s[k].0 as int) < t.len() && t[s[k].0 as int] is Branch
        && ir_paths_end(t, s[k].0 as int, 0x1_0000, fuel)
}

/// Every slot is made from the tree, and the pointer children of every slot
/// are placed or on the stack.
pub open spec fn slots_pending(t: Seq<Node>, placed: Seq<LinkedNode>, s: Seq<(usize, Option<usize>)>) -> bool {
    &&& forall|p: int| 0 <= p < placed.len() ==> ((#[trigger] placed[p]) matches LinkedNode::Branch(e) && linked_from(t, e))
    &&& forall|p: int| 0 <= p < placed.len() ==> children_pending(placed, stack_ids(s), #[trigger] placed[p])
}

/// What the depth-first loop keeps: the stack holds branches whose paths end
/// within `fuel`, the root slot is first, every slot is made from the tree,
/// and the pointer children of every slot are placed or on the stack.
pub open spec fn dfs_inv(t: Seq<Node>, fuel: nat, placed: Seq<LinkedNode>, s: Seq<(usize, Option<usize>)>) -> bool {
    &&& stack_ok(t, fuel, s)
    &&& placed.len() == 0 ==> s == seq![(0usize, None::<usize>)]
    &&& placed.len() > 0 ==> placed[0] == make_root_slot(t)
    &&& slots_pending(t, placed, s)
}

proof fn lemma_dfs_weight(t: Seq<Node>, fuel: nat, s0: Seq<(usize, Option<usize>)>, e: LinkedBranchNode)
    requires
        ir_tree_wf(t),
        stack_ok(t, fuel, s0),
        s0.len() > 0,
        e.id == s0.last().0,
        linked_from(t, e),
    ensures
        stack_ok(t, fuel, dfs_next_stack(s0, e)),
        pending_weight(t, stack_ids(dfs_next_stack(s0, e)), fuel) + 1 == pending_weight(t, stack_ids(s0), fuel),
{
    let s1 = dfs_next_stack(s0, e);
    let id = e.id;
    let b = t[id as int]->Branch_0;
    let q0 = stack_ids(s0);
    let rest = s0.drop_last();
    let mid = match e.right_child {
        Branch::Ptr(r) => rest.push((r, Some(e.id))),
        Branch::Prediction(_) => rest,
    };
    let qr = stack_ids(rest);
    let qm = stack_ids(mid);
    let q1 = stack_ids(s1);
    assert(s0[s0.len() - 1].0 == id);
    assert(ir_paths_end(t, id as int, 0x1_0000, fuel));
    assert(qr =~= q0.drop_last());
    assert(q0.last() == id);
    assert(ir_paths_end(t, b.left as int, 0x1_0000, (fuel - 1) as nat));
    assert(ir_paths_end(t, b.right as int, 0x1_0000, (fuel - 1) as nat));
    lemma_unfolded_more_fuel(t, b.left as int, (fuel - 1) as nat, fuel);
    lemma_unfolded_more_fuel(t, b.right as int, (fuel - 1) as nat, fuel);
    assert(pending_weight(t, q0, fuel) == unfolded_branches(t, id as int, fuel) + pending_weight(t, qr, fuel));
    if t[b.right as int] is Branch {
        assert(qm =~= qr.push(b.right));
        lemma_pending_weight_push(t, qr, b.right, fuel);
    } else {
        assert(qm =~= qr);
    }
    if t[b.left as int] is Branch {
        assert(q1 =~= qm.push(b.left));
        lemma_pending_weight_push(t, qm, b.left, fuel);
    } else {
        assert(q1 =~= qm);
    }
    assert forall|k: int| 0 <= k < s1.len() implies (#[trigger] s1[k].0 as int) < t.len() && t[s1[k].0 as int] is Branch
        && ir_paths_end(t, s1[k].0 as int, 0x1_0000, fuel) by {
        if k < rest.len() {
            assert(s1[k] == s0[k]);
        } else if k < mid.len() {
            assert(s1[k] == mid[k]);
        }
    }
}

proof fn lemma_dfs_pending(t: Seq<Node>, before: Seq<LinkedNode>, s0: Seq<(usize, Option<usize>)>, e: LinkedBranchNode)
    requires
        slots_pending(t, before, s0),
        s0.len() > 0,
        e.id == s0.last().0,
        linked_from(t, e),
    ensures
        slots_pending(t, before.push(LinkedNode::Branch(e)), dfs_next_stack(s0, e)),
{
    let after = before.push(LinkedNode::Branch(e));
    let s1 = dfs_next_stack(s0, e);
    let q0 = stack_ids(s0);
    let rest = s0.drop_last();
    let mid = match e.right_child {
        Branch::Ptr(r) => rest.push((r, Some(e.id))),
        Branch::Prediction(_) => rest,
    };
    let qr = stack_ids(rest);
    let qm = stack_ids(mid);
    let q1 = stack_ids(s1);
    assert(q0.last() == e.id);
    assert(forall|k: int| 0 <= k < q0.len() - 1 ==> q1[k] == q0[k]);
    assert(after[before.len() as int] == LinkedNode::Branch(e));
    assert forall|p: int| 0 <= p < after.len() implies children_pending(after, q1, #[trigger] after[p]) by {
        if p < before.len() {
            assert(after[p] == before[p]);
            assert(children_pending(before, q0, before[p]));
            if let LinkedNode::Branch(f) = before[p] {
                lemma_children_stay_pending_stack(before, after, q0, q1, f.left_child);
                lemma_children_stay_pending_stack(before, after, q0, q1, f.right_child);
            }
        } else {
            if let Branch::Ptr(j) = e.right_child {
                assert(qm[qr.len() as int] == j);
                assert(q1[qr.len() as int] == j);
            }
            if let Branch::Ptr(j) = e.left_child {
                assert(q1[q1.len() - 1] == j);
            }
        }
    }
    assert forall|p: int| 0 <= p < after.len() implies ((#[trigger] after[p]) matches LinkedNode::Branch(f) && linked_from(t, f)) by {
        if p < before.len() {
            assert(after[p] == before[p]);
        }
    }
}

/// One step of the depth-first loop keeps its invariant and lowers the
/// weight of the pending nodes.
proof fn lemma_dfs_step(t: Seq<Node>, fuel: nat, before: Seq<LinkedNode>, s0: Seq<(usize, Option<usize>)>, e: LinkedBranchNode)
    requires
        ir_tree_wf(t),
        dfs_inv(t, fuel, before, s0),
        s0.len() > 0,
        e.id == s0.last().0,
        e.parent_id == s0.last().1,
        linked_from(t, e),
    ensures
        dfs_inv(t, fuel, before.push(LinkedNode::Branch(e)), dfs_next_stack(s0, e)),
        pending_weight(t, stack_ids(dfs_next_stack(s0, e)), fuel) + 1 == pending_weight(t, stack_ids(s0), fuel),
{
    lemma_dfs_weight(t, fuel, s0, e);
    lemma_dfs_pending(t, before, s0, e);
    let after = before.push(LinkedNode::Branch(e));
    if before.len() == 0 {
        assert(s0 == seq![(0usize, None::<usize>)]);
        assert(e.id == 0 && e.parent_id is None);
        assert(after[0] == make_root_slot(t));
    } else {
        assert(after[0] == before[0]);
    }
}

/// The slot of the root: the branch at index 0 with its children resolved and
/// no parent.
pub open spec fn make_root_slot(t: Seq<Node>) -> LinkedNode {
    let b = t[0]->Branch_0;
    LinkedNode::Branch(LinkedBranchNode {
        id: 0,
        split_with: b.split_with,
        split_at: b.split_at,
        left_child: child_ref(t, b.left as int),
        right_child: child_ref(t, b.right as int),
        parent_id: None,
    })
}

} // verus!
