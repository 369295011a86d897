use std::collections::{HashMap, HashSet};

use vstd::prelude::*;
use vstd::set_lib::{lemma_int_range, lemma_len_subset, set_int_range};

use super::{tree_at, tree_headers_of, tree_len_at, first_node_at, headers_walkable,
    lemma_headers_step, chain_ok, Model, Node, Branch};
use crate::Error;

verus! {

/// Branch `b` has `j` as a pointer child.
pub open spec fn points_to(b: Branch, j: int) -> bool {
    ||| (!b.flags.spec_left_prediction() && b.left as int == j)
    ||| (!b.flags.spec_right_prediction() && b.right as int == j)
}

/// Some non-padding node of the tree at or after `root_idx` points to `j`,
/// and `j` is below `nodes_len`.
pub open spec fn is_referenced(tree: Seq<Node>, root_idx: int, nodes_len: int, j: int) -> bool {
    &&& j < nodes_len
    &&& exists|i: int| root_idx <= i < tree.len() && !tree[i].spec_is_padding() && #[trigger] points_to(tree[i].branch(), j)
}

/// Node `i` can be the root of the tree: at or after `root_idx`, not padding,
/// and not referenced.
pub open spec fn is_root_candidate(tree: Seq<Node>, root_idx: int, nodes_len: int, i: int) -> bool {
    &&& root_idx <= i < tree.len()
    &&& !tree[i].spec_is_padding()
    &&& !is_referenced(tree, root_idx, nodes_len, i)
}

/// The root of the tree: the first root candidate.
pub open spec fn tree_root(tree: Seq<Node>, root_idx: int, nodes_len: int) -> Option<int> {
    if exists|i: int| #[trigger] is_root_candidate(tree, root_idx, nodes_len, i) {
        Some(choose|i: int| is_root_candidate(tree, root_idx, nodes_len, i)
            && forall|j: int| root_idx <= j < i ==> !is_root_candidate(tree, root_idx, nodes_len, j))
    } else {
        None
    }
}

/// The root of a tree is a root candidate, and no earlier node is one.
pub proof fn lemma_tree_root(tree: Seq<Node>, root_idx: int, nodes_len: int)
    ensures
        tree_root(tree, root_idx, nodes_len) matches Some(i) ==> is_root_candidate(tree, root_idx, nodes_len, i)
            && forall|j: int| root_idx <= j < i ==> !is_root_candidate(tree, root_idx, nodes_len, j),
        tree_root(tree, root_idx, nodes_len) is None ==> forall|i: int| !is_root_candidate(tree, root_idx, nodes_len, i),
{
    if exists|i: int| #[trigger] is_root_candidate(tree, root_idx, nodes_len, i) {
        let i0 = choose|i: int| #[trigger] is_root_candidate(tree, root_idx, nodes_len, i);
        lemma_first_candidate(tree, root_idx, nodes_len, i0);
    }
}

proof fn lemma_first_candidate(tree: Seq<Node>, root_idx: int, nodes_len: int, i0: int)
    requires
        is_root_candidate(tree, root_idx, nodes_len, i0),
    ensures
        exists|i: int| is_root_candidate(tree, root_idx, nodes_len, i)
            && forall|j: int| root_idx <= j < i ==> !is_root_candidate(tree, root_idx, nodes_len, j),
    decreases i0 - root_idx,
{
    if exists|j: int| root_idx <= j < i0 && #[trigger] is_root_candidate(tree, root_idx, nodes_len, j) {
        let j = choose|j: int| root_idx <= j < i0 && #[trigger] is_root_candidate(tree, root_idx, nodes_len, j);
        lemma_first_candidate(tree, root_idx, nodes_len, j);
    }
}

/// Every path from node `idx` goes through non-padding in-bounds nodes and
/// ends within `fuel` branches.
pub open spec fn reach_ends(tree: Seq<Node>, idx: int, fuel: nat) -> bool
    decreases fuel,
{
    fuel > 0 && 0 <= idx < tree.len() && !tree[idx].spec_is_padding() && {
        let b = tree[idx].branch();
        &&& (!b.flags.spec_left_prediction() ==> reach_ends(tree, b.left as int, (fuel - 1) as nat))
        &&& (!b.flags.spec_right_prediction() ==> reach_ends(tree, b.right as int, (fuel - 1) as nat))
    }
}

/// The trees of a model whose header chain is walkable lie within its nodes.
pub open spec fn trees_in_bounds(nodes: Seq<Node>) -> bool {
    &&& headers_walkable(nodes)
    &&& forall|k: int| 0 <= k < tree_headers_of(nodes).len() ==> {
        let h = #[trigger] tree_headers_of(nodes)[k] as int;
        h + tree_len_at(nodes, h) <= nodes.len()
    }
}

/// The tree whose header is at `h` has a root, from which every path ends.
#[verifier::opaque]
pub open spec fn tree_is_acyclic(nodes: Seq<Node>, h: int) -> bool {
    let tree = tree_at(nodes, h);
    &&& tree_root(tree, first_node_at(nodes, h), nodes.len() as int) is Some
    &&& exists|fuel: nat| reach_ends(tree, tree_root(tree, first_node_at(nodes, h), nodes.len() as int)->0, fuel)
}

spec fn black(m: Map<usize, bool>, k: usize) -> bool {
    m.contains_key(k) && m[k]
}

spec fn gray(m: Map<usize, bool>, k: usize) -> bool {
    m.contains_key(k) && !m[k]
}

spec fn child_ok(tree: Seq<Node>, m: Map<usize, bool>, rank: Map<usize, nat>, b: usize, c: int) -> bool {
    0 <= c <= usize::MAX && black(m, c as usize) && rank.contains_key(c as usize) && rank[c as usize] < rank[b]
}

/// Black nodes are in-bounds branches whose pointer children are black with a
/// lower rank.
spec fn black_closed(tree: Seq<Node>, m: Map<usize, bool>, rank: Map<usize, nat>) -> bool {
    forall|b: usize| #[trigger] black(m, b) ==> {
        &&& (b as int) < tree.len()
        &&& !tree[b as int].spec_is_padding()
        &&& rank.contains_key(b)
        &&& (!tree[b as int].branch().flags.spec_left_prediction() ==> child_ok(tree, m, rank, b, tree[b as int].branch().left as int))
        &&& (!tree[b as int].branch().flags.spec_right_prediction() ==> child_ok(tree, m, rank, b, tree[b as int].branch().right as int))
    }
}

proof fn lemma_black_reach_ends(tree: Seq<Node>, m: Map<usize, bool>, rank: Map<usize, nat>, b: usize)
    requires
        black_closed(tree, m, rank),
        black(m, b),
    ensures
        reach_ends(tree, b as int, rank[b] + 1),
    decreases rank[b],
{
    let br = tree[b as int].branch();
    if !br.flags.spec_left_prediction() {
        lemma_black_reach_ends(tree, m, rank, br.left as usize);
        lemma_reach_ends_more_fuel(tree, br.left as int, rank[br.left as usize] + 1, rank[b]);
    }
    if !br.flags.spec_right_prediction() {
        lemma_black_reach_ends(tree, m, rank, br.right as usize);
        lemma_reach_ends_more_fuel(tree, br.right as int, rank[br.right as usize] + 1, rank[b]);
    }
}

/// More fuel never hurts.
pub proof fn lemma_reach_ends_more_fuel(tree: Seq<Node>, idx: int, f1: nat, f2: nat)
    requires
        reach_ends(tree, idx, f1),
        f1 <= f2,
    ensures
        reach_ends(tree, idx, f2),
    decreases f1,
{
    let b = tree[idx].branch();
    if !b.flags.spec_left_prediction() {
        lemma_reach_ends_more_fuel(tree, b.left as int, (f1 - 1) as nat, (f2 - 1) as nat);
    }
    if !b.flags.spec_right_prediction() {
        lemma_reach_ends_more_fuel(tree, b.right as int, (f1 - 1) as nat, (f2 - 1) as nat);
    }
}

/// Find the root of a tree: the first non-padding node at or after
/// `root_idx` that no node at or after `root_idx` points to.
pub fn find_root(tree_nodes: &[Node], root_idx: usize, nodes_len: usize) -> (r: Option<usize>)
    ensures
        match tree_root(tree_nodes@, root_idx as int, nodes_len as int) {
            Some(i) => r == Some(i as usize),
            None => r is None,
        },
{
    let ghost tree = tree_nodes@;
    let mut referenced: HashSet<usize> = HashSet::new();
    let mut i: usize = root_idx;
    while i < tree_nodes.len()
        invariant
            tree == tree_nodes@,
            root_idx <= i,
            forall|j: usize| #[trigger] referenced@.contains(j) <==> (j < nodes_len && exists|k: int|
                root_idx <= k < i && k < tree.len() && !tree[k].spec_is_padding() && #[trigger] points_to(tree[k].branch(), j as int)),
        decreases tree_nodes@.len() - i,
    {
        let node = &tree_nodes[i];
        if !node.is_padding() {
            let branch = node.as_branch();
            let ghost before = referenced@;
            if !branch.flags().left_prediction() {
                let ptr = branch.left_ptr() as usize;
                if ptr < nodes_len {
                    referenced.insert(ptr);
                }
            }
            let ghost mid = referenced@;
            assert(forall|j: usize| #[trigger] mid.contains(j) <==> (before.contains(j) || (j < nodes_len
                && !branch.flags.spec_left_prediction() && branch.left as int == j as int)));
            if !branch.flags().right_prediction() {
                let ptr = branch.right_ptr() as usize;
                if ptr < nodes_len {
                    referenced.insert(ptr);
                }
            }
            assert(forall|j: usize| #[trigger] referenced@.contains(j) <==> (mid.contains(j) || (j < nodes_len
                && !branch.flags.spec_right_prediction() && branch.right as int == j as int)));
            assert(forall|j: usize| #[trigger] referenced@.contains(j) <==> (before.contains(j) || (j < nodes_len
                && points_to(tree[i as int].branch(), j as int))));
            assert forall|j: usize| #[trigger] referenced@.contains(j) <==> (j < nodes_len && exists|k: int|
                root_idx <= k < i + 1 && k < tree.len() && !tree[k].spec_is_padding() && #[trigger] points_to(tree[k].branch(), j as int)) by {
                if referenced@.contains(j) {
                    if before.contains(j) {
                        let k = choose|k: int| root_idx <= k < i && k < tree.len() && !tree[k].spec_is_padding() && #[trigger] points_to(tree[k].branch(), j as int);
                        assert(root_idx <= k < i + 1 && k < tree.len() && !tree[k].spec_is_padding() && points_to(tree[k].branch(), j as int));
                    } else {
                        assert(root_idx <= i < i + 1 && i < tree.len() && !tree[i as int].spec_is_padding() && points_to(tree[i as int].branch(), j as int));
                    }
                }
                if j < nodes_len && exists|k: int|
                    root_idx <= k < i + 1 && k < tree.len() && !tree[k].spec_is_padding() && #[trigger] points_to(tree[k].branch(), j as int) {
                    let k = choose|k: int| root_idx <= k < i + 1 && k < tree.len() && !tree[k].spec_is_padding() && #[trigger] points_to(tree[k].branch(), j as int);
                    if k < i {
                        assert(before.contains(j));
                    }
                }
            }
        } else {
            assert forall|j: usize| #[trigger] referenced@.contains(j) <==> (j < nodes_len && exists|k: int|
                root_idx <= k < i + 1 && k < tree.len() && !tree[k].spec_is_padding() && #[trigger] points_to(tree[k].branch(), j as int)) by {
                if j < nodes_len && exists|k: int|
                    root_idx <= k < i + 1 && k < tree.len() && !tree[k].spec_is_padding() && #[trigger] points_to(tree[k].branch(), j as int) {
                    let k = choose|k: int| root_idx <= k < i + 1 && k < tree.len() && !tree[k].spec_is_padding() && #[trigger] points_to(tree[k].branch(), j as int);
                    assert(k != i);
                }
            }
        }
        i = i + 1;
    }
    assert forall|j: usize| #[trigger] referenced@.contains(j) <==> is_referenced(tree, root_idx as int, nodes_len as int, j as int) by {
        if is_referenced(tree, root_idx as int, nodes_len as int, j as int) {
            let k = choose|k: int| root_idx <= k < tree.len() && !tree[k].spec_is_padding() && #[trigger] points_to(tree[k].branch(), j as int);
            assert(root_idx <= k < i && k < tree.len() && !tree[k].spec_is_padding() && points_to(tree[k].branch(), j as int));
        }
    }
    let mut i: usize = root_idx;
    while i < tree_nodes.len()
        invariant
            tree == tree_nodes@,
            root_idx <= i,
            forall|j: usize| #[trigger] referenced@.contains(j) <==> is_referenced(tree, root_idx as int, nodes_len as int, j as int),
            forall|j: int| root_idx <= j < i ==> !is_root_candidate(tree, root_idx as int, nodes_len as int, j),
        decreases tree_nodes@.len() - i,
    {
        if !tree_nodes[i].is_padding() && !referenced.contains(&i) {
            assert(!referenced@.contains(i));
            assert(!is_referenced(tree, root_idx as int, nodes_len as int, i as int));
            assert(is_root_candidate(tree, root_idx as int, nodes_len as int, i as int));
            let ghost r = tree_root(tree, root_idx as int, nodes_len as int);
            let ghost c = choose|c: int| is_root_candidate(tree, root_idx as int, nodes_len as int, c)
                && forall|j: int| root_idx <= j < c ==> !is_root_candidate(tree, root_idx as int, nodes_len as int, j);
            assert(c == i) by {
                if c < i {
                } else if c > i {
                    assert(!is_root_candidate(tree, root_idx as int, nodes_len as int, i as int));
                }
            }
            return Some(i);
        }
        i = i + 1;
    }
    assert(!exists|c: int| #[trigger] is_root_candidate(tree, root_idx as int, nodes_len as int, c));
    None
}


/// The number of stack entries whose children have not been pushed yet.
spec fn unpushed(s: Seq<(usize, bool)>) -> nat
    decreases s.len(),
{
    if s.len() == 0 {
        0
    } else {
        unpushed(s.drop_last()) + (if !s.last().1 { 1nat } else { 0nat })
    }
}

spec fn dfs_inv(
    tree: Seq<Node>,
    root: usize,
    nodes_len: usize,
    stack: Seq<(usize, bool)>,
    m: Map<usize, bool>,
    rank: Map<usize, nat>,
    counter: nat,
    visited: Set<int>,
) -> bool {
    &&& forall|q: int| 0 <= q < stack.len() && (#[trigger] stack[q]).1 ==> gray(m, stack[q].0)
    &&& forall|p: int, q: int| 0 <= p < stack.len() && 0 <= q < stack.len() && p != q && (#[trigger] stack[p]).1 && (#[trigger] stack[q]).1
        ==> stack[p].0 != stack[q].0
    &&& forall|g: usize| #[trigger] gray(m, g) ==> (g as int) < tree.len() && !tree[g as int].spec_is_padding()
    &&& forall|p: int, c: int| 0 <= p < stack.len() && (#[trigger] stack[p]).1 && #[trigger] points_to(tree[stack[p].0 as int].branch(), c)
        ==> (black(m, c as usize) || exists|q: int| p < q < stack.len() && (#[trigger] stack[q]).0 as int == c)
    &&& black_closed(tree, m, rank)
    &&& forall|b: usize| #[trigger] rank.contains_key(b) ==> rank[b] < counter
    &&& (black(m, root) || exists|q: int| 0 <= q < stack.len() && (#[trigger] stack[q]).0 == root)
    &&& forall|k: usize| #[trigger] m.contains_key(k) <==> visited.contains(k as int)
    &&& visited.subset_of(set_int_range(0, tree.len() as int))
    &&& visited.finite()
}

/// The least fuel within which every path from `x` ends.
spec fn min_fuel(tree: Seq<Node>, x: int) -> nat {
    choose|f: nat| reach_ends(tree, x, f) && forall|g: nat| g < f ==> !reach_ends(tree, x, g)
}

proof fn lemma_min_fuel_exists(tree: Seq<Node>, x: int, f: nat)
    requires
        reach_ends(tree, x, f),
    ensures
        exists|m: nat| reach_ends(tree, x, m) && forall|g: nat| g < m ==> !reach_ends(tree, x, g),
    decreases f,
{
    if exists|g: nat| g < f && reach_ends(tree, x, g) {
        let g = choose|g: nat| g < f && reach_ends(tree, x, g);
        lemma_min_fuel_exists(tree, x, g);
    } else {
        assert(forall|g: nat| g < f ==> !reach_ends(tree, x, g));
    }
}

proof fn lemma_min_fuel(tree: Seq<Node>, x: int, f: nat)
    requires
        reach_ends(tree, x, f),
    ensures
        reach_ends(tree, x, min_fuel(tree, x)),
        min_fuel(tree, x) <= f,
{
    lemma_min_fuel_exists(tree, x, f);
}

/// A pointer child's paths end within less fuel than its parent's.
proof fn lemma_min_fuel_child(tree: Seq<Node>, x: int, c: int, f: nat)
    requires
        reach_ends(tree, x, f),
        points_to(tree[x].branch(), c),
    ensures
        reach_ends(tree, c, f),
        min_fuel(tree, c) < min_fuel(tree, x),
{
    lemma_min_fuel(tree, x, f);
    let m = min_fuel(tree, x);
    assert(reach_ends(tree, c, (m - 1) as nat));
    lemma_min_fuel(tree, c, (m - 1) as nat);
    assert(reach_ends(tree, c, (f - 1) as nat));
    lemma_reach_ends_more_fuel(tree, c, (f - 1) as nat, f);
}

/// Every stack node's paths end within `fuel`.
spec fn stack_fuel(tree: Seq<Node>, s: Seq<(usize, bool)>, fuel: nat) -> bool {
    forall|q: int| 0 <= q < s.len() ==> reach_ends(tree, (#[trigger] s[q]).0 as int, fuel)
}

/// Entry `q` was pushed by entry `par[q]`, the nearest expanded entry below
/// it, one of whose children it is.
spec fn pushed_by(tree: Seq<Node>, s: Seq<(usize, bool)>, par: Seq<int>, q: int) -> bool {
    &&& 0 <= par[q] < q
    &&& s[par[q]].1
    &&& points_to(tree[s[par[q]].0 as int].branch(), s[q].0 as int)
    &&& forall|r: int| par[q] < r < q ==> !(#[trigger] s[r]).1
}

/// Every entry above the bottom was pushed by the nearest expanded entry
/// below it.
spec fn stack_parents(tree: Seq<Node>, s: Seq<(usize, bool)>, par: Seq<int>) -> bool {
    &&& par.len() == s.len()
    &&& forall|q: int| 0 < q < s.len() ==> #[trigger] pushed_by(tree, s, par, q)
}

/// The paths of expanded entries end within less and less fuel going up.
spec fn stack_ranked(tree: Seq<Node>, s: Seq<(usize, bool)>) -> bool {
    forall|p: int, q: int| 0 <= p < q < s.len() && (#[trigger] s[p]).1 && (#[trigger] s[q]).1 ==> min_fuel(tree, s[p].0 as int)
        > min_fuel(tree, s[q].0 as int)
}

/// Every node in progress is an expanded entry.
spec fn gray_on_stack(s: Seq<(usize, bool)>, m: Map<usize, bool>) -> bool {
    forall|g: usize| #[trigger] gray(m, g) ==> exists|q: int| 0 <= q < s.len() && (#[trigger] s[q]).1 && s[q].0 == g
}

/// Where every path from the root ends within `fuel`, the search keeps these.
#[verifier::opaque]
spec fn dfs_complete(tree: Seq<Node>, s: Seq<(usize, bool)>, par: Seq<int>, m: Map<usize, bool>, fuel: nat) -> bool {
    &&& stack_fuel(tree, s, fuel)
    &&& stack_parents(tree, s, par)
    &&& stack_ranked(tree, s)
    &&& gray_on_stack(s, m)
}

/// Dropping the top entry keeps what the entries below it have.
proof fn lemma_complete_drop_top(tree: Seq<Node>, s: Seq<(usize, bool)>, par: Seq<int>, fuel: nat)
    requires
        stack_fuel(tree, s, fuel),
        stack_parents(tree, s, par),
        stack_ranked(tree, s),
        s.len() > 0,
    ensures
        stack_fuel(tree, s.drop_last(), fuel),
        stack_parents(tree, s.drop_last(), par.drop_last()),
        stack_ranked(tree, s.drop_last()),
{
    let s1 = s.drop_last();
    let par1 = par.drop_last();
    assert forall|q: int| 0 <= q < s1.len() implies reach_ends(tree, (#[trigger] s1[q]).0 as int, fuel) by {
        assert(s1[q] == s[q]);
    }
    assert forall|q: int| 0 < q < s1.len() implies #[trigger] pushed_by(tree, s1, par1, q) by {
        assert(pushed_by(tree, s, par, q));
        assert(par1[q] == par[q]);
        assert(s1[q] == s[q]);
        assert(s1[par[q]] == s[par[q]]);
        assert forall|r: int| par1[q] < r < q implies !(#[trigger] s1[r]).1 by {
            assert(s1[r] == s[r]);
        }
    }
    assert forall|p: int, q: int| 0 <= p < q < s1.len() && (#[trigger] s1[p]).1 && (#[trigger] s1[q]).1 implies min_fuel(
        tree,
        s1[p].0 as int,
    ) > min_fuel(tree, s1[q].0 as int) by {
        assert(s1[p] == s[p] && s1[q] == s[q]);
    }
}

proof fn lemma_complete_pop_expanded(tree: Seq<Node>, s: Seq<(usize, bool)>, par: Seq<int>, m: Map<usize, bool>, fuel: nat)
    requires
        dfs_complete(tree, s, par, m, fuel),
        s.len() > 0,
        s.last().1,
        forall|p: int, q: int| 0 <= p < s.len() && 0 <= q < s.len() && p != q && (#[trigger] s[p]).1 && (#[trigger] s[q]).1
            ==> s[p].0 != s[q].0,
    ensures
        dfs_complete(tree, s.drop_last(), par.drop_last(), m.insert(s.last().0, true), fuel),
{
    reveal(dfs_complete);
    let t = s.len() - 1;
    let s1 = s.drop_last();
    let m1 = m.insert(s.last().0, true);
    lemma_complete_drop_top(tree, s, par, fuel);
    assert forall|g: usize| #[trigger] gray(m1, g) implies exists|q: int| 0 <= q < s1.len() && (#[trigger] s1[q]).1 && s1[q].0 == g by {
        assert(g != s[t].0);
        assert(gray(m, g));
        let q = choose|q: int| 0 <= q < s.len() && (#[trigger] s[q]).1 && s[q].0 == g;
        assert(q != t);
        assert(s1[q] == s[q]);
    }
}

proof fn lemma_complete_pop_done(tree: Seq<Node>, s: Seq<(usize, bool)>, par: Seq<int>, m: Map<usize, bool>, fuel: nat)
    requires
        dfs_complete(tree, s, par, m, fuel),
        s.len() > 0,
        !s.last().1,
    ensures
        dfs_complete(tree, s.drop_last(), par.drop_last(), m, fuel),
{
    reveal(dfs_complete);
    let t = s.len() - 1;
    let s1 = s.drop_last();
    lemma_complete_drop_top(tree, s, par, fuel);
    assert forall|g: usize| #[trigger] gray(m, g) implies exists|q: int| 0 <= q < s1.len() && (#[trigger] s1[q]).1 && s1[q].0 == g by {
        let q = choose|q: int| 0 <= q < s.len() && (#[trigger] s[q]).1 && s[q].0 == g;
        assert(q != t);
        assert(s1[q] == s[q]);
    }
}

/// Where every path from the root ends, the search never meets a node in
/// progress again.
proof fn lemma_complete_no_cycle(tree: Seq<Node>, s: Seq<(usize, bool)>, par: Seq<int>, m: Map<usize, bool>, fuel: nat)
    requires
        dfs_complete(tree, s, par, m, fuel),
        s.len() > 0,
        !s.last().1,
    ensures
        !gray(m, s.last().0),
{
    reveal(dfs_complete);
    let t = s.len() - 1;
    let idx = s[t].0;
    if !gray(m, idx) {
        return;
    }
    let j = choose|q: int| 0 <= q < s.len() && (#[trigger] s[q]).1 && s[q].0 == idx;
    assert(j != t);
    assert(pushed_by(tree, s, par, t));
    let p = par[t];
    assert(s[p].1);
    assert(j <= p) by {
        if j > p {
            assert(!s[j].1);
        }
    }
    assert(reach_ends(tree, s[p].0 as int, fuel));
    lemma_min_fuel_child(tree, s[p].0 as int, idx as int, fuel);
    if j < p {
        assert(min_fuel(tree, s[j].0 as int) > min_fuel(tree, s[p].0 as int));
    }
}

/// Expanding the top entry keeps every entry's paths ending within `fuel`.
proof fn lemma_expand_fuel(
    tree: Seq<Node>,
    s: Seq<(usize, bool)>,
    par: Seq<int>,
    m: Map<usize, bool>,
    s1: Seq<(usize, bool)>,
    par1: Seq<int>,
    fuel: nat,
)
    requires
        stack_fuel(tree, s, fuel),
        stack_parents(tree, s, par),
        stack_ranked(tree, s),
        gray_on_stack(s, m),
        s.len() > 0,
        !s.last().1,
        !m.contains_key(s.last().0),
        s1.len() >= s.len(),
        par1.len() == s1.len(),
        s1[s.len() - 1] == (s.last().0, true),
        forall|q: int| 0 <= q < s.len() - 1 ==> s1[q] == s[q],
        forall|q: int| 0 <= q < s.len() ==> par1[q] == par[q],
        forall|q: int| s.len() <= q < s1.len() ==> !(#[trigger] s1[q]).1,
        forall|q: int| s.len() <= q < s1.len() ==> #[trigger] par1[q] == s.len() - 1,
        forall|q: int| s.len() <= q < s1.len() ==> points_to(tree[s.last().0 as int].branch(), (#[trigger] s1[q]).0 as int),
    ensures
        stack_fuel(tree, s1, fuel),
{
    let t = s.len() - 1;
    let idx = s[t].0;
    assert(reach_ends(tree, idx as int, fuel));
    assert forall|q: int| 0 <= q < s1.len() implies reach_ends(tree, (#[trigger] s1[q]).0 as int, fuel) by {
        if q > t {
            lemma_min_fuel_child(tree, idx as int, s1[q].0 as int, fuel);
        } else if q < t {
            assert(s1[q] == s[q]);
        }
    }
}

/// Expanding the top entry keeps every entry pushed by its parent entry.
proof fn lemma_expand_parents(
    tree: Seq<Node>,
    s: Seq<(usize, bool)>,
    par: Seq<int>,
    m: Map<usize, bool>,
    s1: Seq<(usize, bool)>,
    par1: Seq<int>,
    fuel: nat,
)
    requires
        stack_fuel(tree, s, fuel),
        stack_parents(tree, s, par),
        stack_ranked(tree, s),
        gray_on_stack(s, m),
        s.len() > 0,
        !s.last().1,
        !m.contains_key(s.last().0),
        s1.len() >= s.len(),
        par1.len() == s1.len(),
        s1[s.len() - 1] == (s.last().0, true),
        forall|q: int| 0 <= q < s.len() - 1 ==> s1[q] == s[q],
        forall|q: int| 0 <= q < s.len() ==> par1[q] == par[q],
        forall|q: int| s.len() <= q < s1.len() ==> !(#[trigger] s1[q]).1,
        forall|q: int| s.len() <= q < s1.len() ==> #[trigger] par1[q] == s.len() - 1,
        forall|q: int| s.len() <= q < s1.len() ==> points_to(tree[s.last().0 as int].branch(), (#[trigger] s1[q]).0 as int),
    ensures
        stack_parents(tree, s1, par1),
{
    let t = s.len() - 1;
    assert forall|q: int| 0 < q < s1.len() implies #[trigger] pushed_by(tree, s1, par1, q) by {
        if q > t {
            assert(!s1[q].1);
            assert(par1[q] == t);
            assert forall|r: int| par1[q] < r < q implies !(#[trigger] s1[r]).1 by {
                assert(s.len() <= r < s1.len());
            }
        } else {
            assert(pushed_by(tree, s, par, q));
            assert(par1[q] == par[q]);
            assert(s1[par[q]] == s[par[q]]);
            assert forall|r: int| par[q] < r < q implies !(#[trigger] s1[r]).1 by {
                assert(s1[r] == s[r]);
            }
            if q < t {
                assert(s1[q] == s[q]);
            }
        }
    }
}

/// Expanding the top entry keeps the expanded entries ranked.
proof fn lemma_expand_ranked(
    tree: Seq<Node>,
    s: Seq<(usize, bool)>,
    par: Seq<int>,
    m: Map<usize, bool>,
    s1: Seq<(usize, bool)>,
    par1: Seq<int>,
    fuel: nat,
)
    requires
        stack_fuel(tree, s, fuel),
        stack_parents(tree, s, par),
        stack_ranked(tree, s),
        gray_on_stack(s, m),
        s.len() > 0,
        !s.last().1,
        !m.contains_key(s.last().0),
        s1.len() >= s.len(),
        par1.len() == s1.len(),
        s1[s.len() - 1] == (s.last().0, true),
        forall|q: int| 0 <= q < s.len() - 1 ==> s1[q] == s[q],
        forall|q: int| 0 <= q < s.len() ==> par1[q] == par[q],
        forall|q: int| s.len() <= q < s1.len() ==> !(#[trigger] s1[q]).1,
        forall|q: int| s.len() <= q < s1.len() ==> #[trigger] par1[q] == s.len() - 1,
        forall|q: int| s.len() <= q < s1.len() ==> points_to(tree[s.last().0 as int].branch(), (#[trigger] s1[q]).0 as int),
    ensures
        stack_ranked(tree, s1),
{
    let t = s.len() - 1;
    let idx = s[t].0;
    assert forall|p: int, q: int| 0 <= p < q < s1.len() && (#[trigger] s1[p]).1 && (#[trigger] s1[q]).1 implies min_fuel(
        tree,
        s1[p].0 as int,
    ) > min_fuel(tree, s1[q].0 as int) by {
        assert(q <= t);
        assert(s1[p] == s[p]);
        if q < t {
            assert(s1[q] == s[q]);
        } else {
            assert(pushed_by(tree, s, par, t));
            let pp = par[t];
            assert(s[pp].1);
            assert(p <= pp) by {
                if p > pp {
                    assert(!s[p].1);
                }
            }
            assert(reach_ends(tree, s[pp].0 as int, fuel));
            lemma_min_fuel_child(tree, s[pp].0 as int, idx as int, fuel);
            if p < pp {
                assert(min_fuel(tree, s[p].0 as int) > min_fuel(tree, s[pp].0 as int));
            }
        }
    }
}

/// Expanding the top entry keeps every node in progress on the stack.
proof fn lemma_expand_gray(
    tree: Seq<Node>,
    s: Seq<(usize, bool)>,
    par: Seq<int>,
    m: Map<usize, bool>,
    s1: Seq<(usize, bool)>,
    par1: Seq<int>,
    fuel: nat,
)
    requires
        stack_fuel(tree, s, fuel),
        stack_parents(tree, s, par),
        stack_ranked(tree, s),
        gray_on_stack(s, m),
        s.len() > 0,
        !s.last().1,
        !m.contains_key(s.last().0),
        s1.len() >= s.len(),
        par1.len() == s1.len(),
        s1[s.len() - 1] == (s.last().0, true),
        forall|q: int| 0 <= q < s.len() - 1 ==> s1[q] == s[q],
        forall|q: int| 0 <= q < s.len() ==> par1[q] == par[q],
        forall|q: int| s.len() <= q < s1.len() ==> !(#[trigger] s1[q]).1,
        forall|q: int| s.len() <= q < s1.len() ==> #[trigger] par1[q] == s.len() - 1,
        forall|q: int| s.len() <= q < s1.len() ==> points_to(tree[s.last().0 as int].branch(), (#[trigger] s1[q]).0 as int),
    ensures
        gray_on_stack(s1, m.insert(s.last().0, false)),
{
    let t = s.len() - 1;
    let idx = s[t].0;
    let m1 = m.insert(idx, false);
    assert forall|g: usize| #[trigger] gray(m1, g) implies exists|q: int| 0 <= q < s1.len() && (#[trigger] s1[q]).1 && s1[q].0 == g by {
        if g == idx {
            assert(s1[t].1 && s1[t].0 == g);
        } else {
            assert(gray(m, g));
            let q = choose|q: int| 0 <= q < s.len() && (#[trigger] s[q]).1 && s[q].0 == g;
            assert(q != t);
            assert(s1[q] == s[q]);
        }
    }
}

/// Expanding the top entry (marking it in progress and pushing its pointer
/// children) keeps the search complete.
proof fn lemma_complete_expand(
    tree: Seq<Node>,
    s: Seq<(usize, bool)>,
    par: Seq<int>,
    m: Map<usize, bool>,
    s1: Seq<(usize, bool)>,
    par1: Seq<int>,
    fuel: nat,
)
    requires
        dfs_complete(tree, s, par, m, fuel),
        s.len() > 0,
        !s.last().1,
        !m.contains_key(s.last().0),
        s1.len() >= s.len(),
        par1.len() == s1.len(),
        s1[s.len() - 1] == (s.last().0, true),
        forall|q: int| 0 <= q < s.len() - 1 ==> s1[q] == s[q],
        forall|q: int| 0 <= q < s.len() ==> par1[q] == par[q],
        forall|q: int| s.len() <= q < s1.len() ==> !(#[trigger] s1[q]).1,
        forall|q: int| s.len() <= q < s1.len() ==> #[trigger] par1[q] == s.len() - 1,
        forall|q: int| s.len() <= q < s1.len() ==> points_to(tree[s.last().0 as int].branch(), (#[trigger] s1[q]).0 as int),
    ensures
        dfs_complete(tree, s1, par1, m.insert(s.last().0, false), fuel),
{
    reveal(dfs_complete);
    lemma_expand_fuel(tree, s, par, m, s1, par1, fuel);
    lemma_expand_parents(tree, s, par, m, s1, par1, fuel);
    lemma_expand_ranked(tree, s, par, m, s1, par1, fuel);
    lemma_expand_gray(tree, s, par, m, s1, par1, fuel);
}

/// What one step of the depth-first search comes to.
pub enum DfsStep {
    Failed(Error),
    Done,
    Next(Map<usize, bool>, Seq<(usize, bool)>),
}

/// One step of the depth-first search with marks `m` (in progress: false,
/// done: true) and stack `s` of (node, children pushed): an expanded node is
/// popped and marked done; a done node is popped; a node in progress is a
/// cycle; an unmarked node out of bounds or padding is a malformed forest;
/// else it is marked in progress and its pointer children pushed, left
/// first.
pub open spec fn dfs_step(tree: Seq<Node>, nodes_len: int, m: Map<usize, bool>, s: Seq<(usize, bool)>) -> DfsStep {
    if s.len() == 0 {
        DfsStep::Done
    } else {
        let idx = s.last().0;
        if s.last().1 {
            DfsStep::Next(m.insert(idx, true), s.drop_last())
        } else if m.contains_key(idx) {
            if m[idx] {
                DfsStep::Next(m, s.drop_last())
            } else {
                DfsStep::Failed(Error::CyclicTree)
            }
        } else if idx >= nodes_len || idx >= tree.len() || tree[idx as int].spec_is_padding() {
            DfsStep::Failed(Error::MalformedForest)
        } else {
            let b = tree[idx as int].branch();
            let s1 = s.update(s.len() - 1, (idx, true));
            let s2 = if !b.flags.spec_left_prediction() { s1.push((b.left as usize, false)) } else { s1 };
            let s3 = if !b.flags.spec_right_prediction() { s2.push((b.right as usize, false)) } else { s2 };
            DfsStep::Next(m.insert(idx, false), s3)
        }
    }
}

/// The outcome of the search after at most `fuel` steps, if it has ended.
pub open spec fn dfs_run(tree: Seq<Node>, nodes_len: int, m: Map<usize, bool>, s: Seq<(usize, bool)>, fuel: nat) -> Option<
    Result<(), Error>,
>
    decreases fuel,
{
    if fuel == 0 {
        None
    } else {
        match dfs_step(tree, nodes_len, m, s) {
            DfsStep::Failed(e) => Some(Err(e)),
            DfsStep::Done => Some(Ok(())),
            DfsStep::Next(m2, s2) => dfs_run(tree, nodes_len, m2, s2, (fuel - 1) as nat),
        }
    }
}

/// The search from `root`, with nothing marked, ends with `r`.
pub open spec fn dfs_outcome(tree: Seq<Node>, nodes_len: int, root: usize, r: Result<(), Error>) -> bool {
    exists|fuel: nat| dfs_run(tree, nodes_len, Map::empty(), seq![(root, false)], fuel) == Some(r)
}

/// The search state `(m, s)` is reached from the start after `steps` steps.
#[verifier::opaque]
spec fn dfs_trace(tree: Seq<Node>, nodes_len: int, root: usize, steps: nat, m: Map<usize, bool>, s: Seq<(usize, bool)>) -> bool {
    forall|f: nat| #[trigger] dfs_run(tree, nodes_len, m, s, f) == dfs_run(tree, nodes_len, Map::empty(), seq![(root, false)], steps + f)
}

proof fn lemma_dfs_trace_start(tree: Seq<Node>, nodes_len: int, root: usize)
    ensures
        dfs_trace(tree, nodes_len, root, 0, Map::empty(), seq![(root, false)]),
{
    reveal(dfs_trace);
}

proof fn lemma_dfs_trace_next(
    tree: Seq<Node>,
    nodes_len: int,
    root: usize,
    steps: nat,
    m: Map<usize, bool>,
    s: Seq<(usize, bool)>,
    m2: Map<usize, bool>,
    s2: Seq<(usize, bool)>,
)
    requires
        dfs_trace(tree, nodes_len, root, steps, m, s),
        dfs_step(tree, nodes_len, m, s) == DfsStep::Next(m2, s2),
    ensures
        dfs_trace(tree, nodes_len, root, steps + 1, m2, s2),
{
    reveal(dfs_trace);
    assert forall|f: nat| #[trigger] dfs_run(tree, nodes_len, m2, s2, f) == dfs_run(
        tree,
        nodes_len,
        Map::empty(),
        seq![(root, false)],
        steps + 1 + f,
    ) by {
        assert(dfs_run(tree, nodes_len, m, s, f + 1) == dfs_run(tree, nodes_len, m2, s2, f));
        assert(steps + (f + 1) == steps + 1 + f);
    }
}

proof fn lemma_dfs_trace_end(
    tree: Seq<Node>,
    nodes_len: int,
    root: usize,
    steps: nat,
    m: Map<usize, bool>,
    s: Seq<(usize, bool)>,
    r: Result<(), Error>,
)
    requires
        dfs_trace(tree, nodes_len, root, steps, m, s),
        dfs_step(tree, nodes_len, m, s) matches DfsStep::Failed(e) ==> r == Err::<(), Error>(e),
        dfs_step(tree, nodes_len, m, s) is Done ==> r == Ok::<(), Error>(()),
        !(dfs_step(tree, nodes_len, m, s) is Next),
    ensures
        dfs_outcome(tree, nodes_len, root, r),
{
    reveal(dfs_trace);
    assert(dfs_run(tree, nodes_len, m, s, 1) == Some(r));
    assert(dfs_run(tree, nodes_len, Map::empty(), seq![(root, false)], steps + 1) == Some(r));
}

/// Depth-first search from `root`, marking nodes in progress and done: a
/// node in progress that is reached again is a cycle; a pointer at or beyond
/// `nodes_len` or beyond the tree, or to padding, is a malformed forest. When
/// the search ends without an error, every path from the root ends.
pub fn check_tree_acyclic(tree_nodes: &[Node], root: usize, nodes_len: usize) -> (r: Result<(), Error>)
    requires
        (root as int) < tree_nodes@.len(),
        tree_nodes@.len() <= nodes_len,
    ensures
        r is Ok <==> exists|fuel: nat| reach_ends(tree_nodes@, root as int, fuel),
        r is Err ==> r == Err::<(), Error>(Error::CyclicTree) || r == Err::<(), Error>(Error::MalformedForest),
        dfs_outcome(tree_nodes@, nodes_len as int, root, r),
{
    let ghost tree = tree_nodes@;
    let ghost ok = exists|fuel: nat| reach_ends(tree, root as int, fuel);
    let ghost fuel = choose|fuel: nat| reach_ends(tree, root as int, fuel);
    let ghost mut par: Seq<int> = seq![0int];
    let mut state: HashMap<usize, bool> = HashMap::new();
    let mut stack: Vec<(usize, bool)> = Vec::new();
    stack.push((root, false));
    let ghost mut rank: Map<usize, nat> = Map::empty();
    let ghost mut counter: nat = 0;
    let ghost mut visited: Set<int> = Set::empty();
    let ghost mut steps: nat = 0;
    proof {
        lemma_dfs_trace_start(tree, nodes_len as int, root);
        assert(state@ =~= Map::<usize, bool>::empty());
        assert(stack@ =~= seq![(root, false)]);
        lemma_int_range(0, tree.len() as int);
        assert(stack@[0].0 == root);
        if ok {
            reveal(dfs_complete);
            assert(stack_fuel(tree, stack@, fuel));
            assert(stack_parents(tree, stack@, par));
        }
    }
    while stack.len() > 0
        invariant
            tree == tree_nodes@,
            (root as int) < tree.len(),
            tree.len() <= nodes_len,
            dfs_inv(tree, root, nodes_len, stack@, state@, rank, counter, visited),
            ok == exists|fuel: nat| reach_ends(tree, root as int, fuel),
            ok ==> reach_ends(tree, root as int, fuel),
            par.len() == stack@.len(),
            ok ==> dfs_complete(tree, stack@, par, state@, fuel),
            dfs_trace(tree, nodes_len as int, root, steps, state@, stack@),
        decreases 4 * (tree.len() - visited.len()) + stack@.len() + unpushed(stack@),
    {
        proof {
            lemma_int_range(0, tree.len() as int);
            lemma_len_subset(visited, set_int_range(0, tree.len() as int));
        }
        let t = stack.len() - 1;
        let (idx, pushed) = stack[t];
        let ghost s0 = stack@;
        let ghost m0 = state@;
        assert(s0.drop_last() =~= s0.take(t as int));
        if pushed {
            stack.pop();
            state.insert(idx, true);
            proof {
                assert(dfs_step(tree, nodes_len as int, m0, s0) == DfsStep::Next(state@, stack@));
                lemma_dfs_trace_next(tree, nodes_len as int, root, steps, m0, s0, state@, stack@);
                steps = steps + 1;
                if ok {
                    lemma_complete_pop_expanded(tree, s0, par, m0, fuel);
                }
                par = par.drop_last();
                let m1 = state@;
                let s1 = stack@;
                assert(s1 == s0.drop_last());
                rank = rank.insert(idx, counter);
                counter = counter + 1;
                assert(gray(m0, idx));
                assert forall|b: usize| #[trigger] black(m1, b) implies {
                    &&& (b as int) < tree.len()
                    &&& !tree[b as int].spec_is_padding()
                    &&& rank.contains_key(b)
                    &&& (!tree[b as int].branch().flags.spec_left_prediction() ==> child_ok(tree, m1, rank, b, tree[b as int].branch().left as int))
                    &&& (!tree[b as int].branch().flags.spec_right_prediction() ==> child_ok(tree, m1, rank, b, tree[b as int].branch().right as int))
                } by {
                    let br = tree[b as int].branch();
                    if b == idx {
                        if !br.flags.spec_left_prediction() {
                            assert(points_to(tree[s0[t as int].0 as int].branch(), br.left as int));
                            assert(black(m0, br.left as usize));
                        }
                        if !br.flags.spec_right_prediction() {
                            assert(points_to(tree[s0[t as int].0 as int].branch(), br.right as int));
                            assert(black(m0, br.right as usize));
                        }
                    } else {
                        assert(black(m0, b));
                        if !br.flags.spec_left_prediction() {
                            assert(child_ok(tree, m0, rank.remove(idx), b, br.left as int));
                        }
                        if !br.flags.spec_right_prediction() {
                            assert(child_ok(tree, m0, rank.remove(idx), b, br.right as int));
                        }
                    }
                }
                assert forall|p: int, c: int| 0 <= p < s1.len() && (#[trigger] s1[p]).1 && #[trigger] points_to(tree[s1[p].0 as int].branch(), c)
                    implies (black(m1, c as usize) || exists|q: int| p < q < s1.len() && (#[trigger] s1[q]).0 as int == c) by {
                    assert(s0[p] == s1[p]);
                    if !black(m0, c as usize) {
                        let q = choose|q: int| p < q < s0.len() && (#[trigger] s0[q]).0 as int == c;
                        if q < t {
                            assert(s1[q] == s0[q]);
                        }
                    }
                }
                assert forall|q: int| 0 <= q < s1.len() && (#[trigger] s1[q]).1 implies gray(m1, s1[q].0) by {
                    assert(s1[q] == s0[q]);
                    assert(s0[t as int].1);
                }
                if !black(m0, root) {
                    let q = choose|q: int| 0 <= q < s0.len() && (#[trigger] s0[q]).0 == root;
                    if q < t {
                        assert(s1[q] == s0[q]);
                    }
                }
                assert(unpushed(s0) == unpushed(s1));
                assert(forall|q: int| 0 <= q < s1.len() && (#[trigger] s1[q]).1 ==> gray(m1, s1[q].0));
                assert(forall|p: int, q: int| 0 <= p < s1.len() && 0 <= q < s1.len() && p != q && (#[trigger] s1[p]).1 && (#[trigger] s1[q]).1
                    ==> s1[p].0 != s1[q].0);
                assert forall|g: usize| #[trigger] gray(m1, g) implies (g as int) < tree.len() && !tree[g as int].spec_is_padding() by {
                    assert(gray(m0, g));
                }
                assert(black_closed(tree, m1, rank));
                assert(forall|b: usize| #[trigger] rank.contains_key(b) ==> rank[b] < counter);
                assert(black(m1, root) || exists|q: int| 0 <= q < s1.len() && (#[trigger] s1[q]).0 == root);
                assert(forall|k: usize| #[trigger] m1.contains_key(k) <==> visited.contains(k as int));
                assert(visited.subset_of(set_int_range(0, tree.len() as int)));
                assert(visited.finite());
            }
        } else {
            let st = state.get(&idx);
            match st {
                Some(done) => {
                    if *done {
                        stack.pop();
                        proof {
                            assert(dfs_step(tree, nodes_len as int, m0, s0) == DfsStep::Next(state@, stack@));
                            lemma_dfs_trace_next(tree, nodes_len as int, root, steps, m0, s0, state@, stack@);
                            steps = steps + 1;
                            if ok {
                                lemma_complete_pop_done(tree, s0, par, m0, fuel);
                            }
                            par = par.drop_last();
                            let s1 = stack@;
                            assert(s1 == s0.drop_last());
                            assert forall|p: int, c: int| 0 <= p < s1.len() && (#[trigger] s1[p]).1 && #[trigger] points_to(tree[s1[p].0 as int].branch(), c)
                                implies (black(m0, c as usize) || exists|q: int| p < q < s1.len() && (#[trigger] s1[q]).0 as int == c) by {
                                assert(s0[p] == s1[p]);
                                if !black(m0, c as usize) {
                                    let q = choose|q: int| p < q < s0.len() && (#[trigger] s0[q]).0 as int == c;
                                    if q < t {
                                        assert(s1[q] == s0[q]);
                                    }
                                }
                            }
                            assert forall|q: int| 0 <= q < s1.len() && (#[trigger] s1[q]).1 implies gray(m0, s1[q].0) by {
                                assert(s1[q] == s0[q]);
                            }
                            if !black(m0, root) {
                                let q = choose|q: int| 0 <= q < s0.len() && (#[trigger] s0[q]).0 == root;
                                if q < t {
                                    assert(s1[q] == s0[q]);
                                }
                            }
                        }
                        continue;
                    } else {
                        proof {
                            if ok {
                                lemma_complete_no_cycle(tree, s0, par, m0, fuel);
                            }
                            lemma_dfs_trace_end(tree, nodes_len as int, root, steps, m0, s0, Err(Error::CyclicTree));
                        }
                        return Err(Error::CyclicTree);
                    }
                },
                None => {},
            }
            if idx >= nodes_len || idx >= tree_nodes.len() {
                proof {
                    if ok {
                        reveal(dfs_complete);
                        assert(reach_ends(tree, s0[t as int].0 as int, fuel));
                    }
                    lemma_dfs_trace_end(tree, nodes_len as int, root, steps, m0, s0, Err(Error::MalformedForest));
                }
                return Err(Error::MalformedForest);
            }
            let node = &tree_nodes[idx];
            if node.is_padding() {
                proof {
                    if ok {
                        reveal(dfs_complete);
                        assert(reach_ends(tree, s0[t as int].0 as int, fuel));
                    }
                    lemma_dfs_trace_end(tree, nodes_len as int, root, steps, m0, s0, Err(Error::MalformedForest));
                }
                return Err(Error::MalformedForest);
            }
            stack.set(t, (idx, true));
            state.insert(idx, false);
            let ghost s_mid = stack@;
            let branch = node.as_branch();
            if !branch.flags().left_prediction() {
                stack.push((branch.left_ptr() as usize, false));
            }
            let ghost s_mid2 = stack@;
            if !branch.flags().right_prediction() {
                stack.push((branch.right_ptr() as usize, false));
            }
            proof {
                let m1 = state@;
                let s1 = stack@;
                assert(s_mid == s0.update(t as int, (idx, true)));
                assert(dfs_step(tree, nodes_len as int, m0, s0) == DfsStep::Next(m1, s1));
                lemma_dfs_trace_next(tree, nodes_len as int, root, steps, m0, s0, m1, s1);
                steps = steps + 1;
                let par1 = par + Seq::new((s1.len() - s0.len()) as nat, |i: int| t as int);
                assert(m1 == m0.insert(idx, false));
                if ok {
                    assert forall|q: int| s0.len() <= q < s1.len() implies points_to(tree[idx as int].branch(), (#[trigger] s1[q]).0 as int) by {
                        if q == s0.len() && !branch.flags.spec_left_prediction() {
                            assert(s1[q] == (branch.left as usize, false));
                        } else {
                            assert(s1[q] == (branch.right as usize, false));
                        }
                    }
                    assert forall|q: int| s0.len() <= q < s1.len() implies #[trigger] par1[q] == s0.len() - 1 by {}
                    assert forall|q: int| 0 <= q < s0.len() implies par1[q] == par[q] by {}
                    lemma_complete_expand(tree, s0, par, m0, s1, par1, fuel);
                }
                par = par1;
                visited = visited.insert(idx as int);
                assert(!m0.contains_key(idx));
                assert(s1.len() >= s0.len());
                assert forall|q: int| 0 <= q < t implies s1[q] == s0[q] by {}
                assert(s1[t as int] == (idx, true));
                assert forall|k: usize| #[trigger] m1.contains_key(k) <==> visited.contains(k as int) by {}
                assert(visited.subset_of(set_int_range(0, tree.len() as int)));
                assert forall|q: int| 0 <= q < s1.len() && (#[trigger] s1[q]).1 implies gray(m1, s1[q].0) by {
                    if q < t {
                        assert(s1[q] == s0[q]);
                    }
                }
                assert forall|p: int, q: int| 0 <= p < s1.len() && 0 <= q < s1.len() && p != q && (#[trigger] s1[p]).1 && (#[trigger] s1[q]).1
                    implies s1[p].0 != s1[q].0 by {
                    if p < t && q < t {
                        assert(s1[p] == s0[p] && s1[q] == s0[q]);
                    } else if p < t {
                        assert(s1[p] == s0[p]);
                        assert(gray(m0, s0[p].0));
                    } else if q < t {
                        assert(s1[q] == s0[q]);
                        assert(gray(m0, s0[q].0));
                    }
                }
                assert forall|p: int, c: int| 0 <= p < s1.len() && (#[trigger] s1[p]).1 && #[trigger] points_to(tree[s1[p].0 as int].branch(), c)
                    implies (black(m1, c as usize) || exists|q: int| p < q < s1.len() && (#[trigger] s1[q]).0 as int == c) by {
                    if p < t {
                        assert(s1[p] == s0[p]);
                        if !black(m0, c as usize) {
                            let q = choose|q: int| p < q < s0.len() && (#[trigger] s0[q]).0 as int == c;
                            if q < t {
                                assert(s1[q] == s0[q]);
                            } else {
                                assert(s1[t as int].0 == s0[t as int].0);
                            }
                        }
                    } else {
                        assert(p == t);
                        if !branch.flags.spec_left_prediction() && branch.left as int == c {
                            assert(s1[t + 1].0 as int == c);
                        } else {
                            assert(s1[s1.len() - 1].0 as int == c);
                        }
                    }
                }
                assert forall|b: usize| #[trigger] black(m1, b) implies {
                    &&& (b as int) < tree.len()
                    &&& !tree[b as int].spec_is_padding()
                    &&& rank.contains_key(b)
                    &&& (!tree[b as int].branch().flags.spec_left_prediction() ==> child_ok(tree, m1, rank, b, tree[b as int].branch().left as int))
                    &&& (!tree[b as int].branch().flags.spec_right_prediction() ==> child_ok(tree, m1, rank, b, tree[b as int].branch().right as int))
                } by {
                    assert(black(m0, b));
                    let br = tree[b as int].branch();
                    if !br.flags.spec_left_prediction() {
                        assert(child_ok(tree, m0, rank, b, br.left as int));
                    }
                    if !br.flags.spec_right_prediction() {
                        assert(child_ok(tree, m0, rank, b, br.right as int));
                    }
                }
                if !black(m0, root) {
                    let q = choose|q: int| 0 <= q < s0.len() && (#[trigger] s0[q]).0 == root;
                    if q < t {
                        assert(s1[q] == s0[q]);
                    } else {
                        assert(s1[t as int].0 == root);
                    }
                }
                assert(s_mid.drop_last() == s0.drop_last());
                assert(unpushed(s_mid) + 1 == unpushed(s0));
                if s_mid2.len() > s_mid.len() {
                    assert(s_mid2.drop_last() == s_mid);
                    assert(unpushed(s_mid2) == unpushed(s_mid) + 1);
                }
                if s1.len() > s_mid2.len() {
                    assert(s1.drop_last() == s_mid2);
                    assert(unpushed(s1) == unpushed(s_mid2) + 1);
                }
                assert(unpushed(s1) <= unpushed(s_mid) + 2);
                lemma_len_subset(visited, set_int_range(0, tree.len() as int));
                assert(forall|q: int| 0 <= q < s1.len() && (#[trigger] s1[q]).1 ==> gray(m1, s1[q].0));
                assert(forall|p: int, q: int| 0 <= p < s1.len() && 0 <= q < s1.len() && p != q && (#[trigger] s1[p]).1 && (#[trigger] s1[q]).1
                    ==> s1[p].0 != s1[q].0);
                assert forall|g: usize| #[trigger] gray(m1, g) implies (g as int) < tree.len() && !tree[g as int].spec_is_padding() by {
                    if g != idx {
                        assert(gray(m0, g));
                    }
                }
                assert(black_closed(tree, m1, rank));
                assert(forall|b: usize| #[trigger] rank.contains_key(b) ==> rank[b] < counter);
                assert(black(m1, root) || exists|q: int| 0 <= q < s1.len() && (#[trigger] s1[q]).0 == root);
                assert(forall|k: usize| #[trigger] m1.contains_key(k) <==> visited.contains(k as int));
                assert(visited.subset_of(set_int_range(0, tree.len() as int)));
                assert(visited.finite());

            }
        }
    }
    proof {
        assert(black(state@, root));
        lemma_black_reach_ends(tree, state@, rank, root);
        lemma_dfs_trace_end(tree, nodes_len as int, root, steps, state@, stack@, Ok(()));
    }
    Ok(())
}


/// What checking the tree whose header is at `h` gives: a malformed forest
/// when it has no root, else the outcome of the search from its root.
#[verifier::opaque]
pub open spec fn tree_check(nodes: Seq<Node>, h: int, r: Result<(), Error>) -> bool {
    let tree = tree_at(nodes, h);
    match tree_root(tree, first_node_at(nodes, h), nodes.len() as int) {
        None => r == Err::<(), Error>(Error::MalformedForest),
        Some(root) => dfs_outcome(tree, nodes.len() as int, root as usize, r),
    }
}

/// The tree whose header is at `h` passes the check: its header sits at an
/// even node index, and it is acyclic.
pub open spec fn tree_passes(nodes: Seq<Node>, h: int) -> bool {
    h % 2 == 0 && tree_is_acyclic(nodes, h)
}

/// The trees of the first `k` headers of the chain pass the check.
pub open spec fn passes_before(nodes: Seq<Node>, k: int) -> bool {
    forall|j: int| 0 <= j < k ==> tree_passes(nodes, #[trigger] tree_headers_of(nodes)[j] as int)
}

/// The first tree is not empty, and every header that the check reaches
/// (the trees before it passing) lies with its tree within the nodes.
pub open spec fn reached_in_bounds(nodes: Seq<Node>) -> bool {
    &&& nodes.len() > 0
    &&& tree_len_at(nodes, 0) > 0
    &&& forall|k: int|
        0 <= k < tree_headers_of(nodes).len() && passes_before(nodes, k) ==> #[trigger] tree_headers_of(nodes)[k] + tree_len_at(
            nodes,
            tree_headers_of(nodes)[k] as int,
        ) <= nodes.len()
}

/// Trees that follow one another within the nodes are within them wherever
/// the check reaches.
pub proof fn lemma_in_bounds_reached(nodes: Seq<Node>)
    requires
        trees_in_bounds(nodes),
    ensures
        reached_in_bounds(nodes),
{
    assert(chain_ok(nodes, 0));
}

/// Where every tree passes the check, every tree header sits at an even node
/// index and every tree is acyclic: its root, the first non-padding node at
/// or after its first node that no such node points to, exists, and every
/// path from it ends.
pub proof fn lemma_passing_trees(nodes: Seq<Node>, k: int)
    requires
        passes_before(nodes, tree_headers_of(nodes).len() as int),
        0 <= k < tree_headers_of(nodes).len(),
    ensures
        tree_headers_of(nodes)[k] % 2 == 0,
        tree_root(tree_at(nodes, tree_headers_of(nodes)[k] as int), first_node_at(nodes, tree_headers_of(nodes)[k] as int), nodes.len() as int)
            is Some,
{
    assert(tree_passes(nodes, tree_headers_of(nodes)[k] as int));
    reveal(tree_is_acyclic);
}

/// How the tree whose header is at `h` fails the check with `r`: misaligned
/// at an odd index, else as checking the tree gives.
pub open spec fn tree_failure(nodes: Seq<Node>, h: int, r: Result<(), Error>) -> bool {
    if h % 2 != 0 {
        r == Err::<(), Error>(Error::MisalignedData)
    } else {
        r is Err && tree_check(nodes, h, r)
    }
}

impl Model {
    /// Find the root of the tree at `header_idx` and search it depth-first.
    fn check_tree(&self, header_idx: usize) -> (r: Result<(), Error>)
        requires
            header_idx < self.nodes@.len(),
            tree_len_at(self.nodes@, header_idx as int) > 0,
            header_idx + tree_len_at(self.nodes@, header_idx as int) <= self.nodes@.len(),
        ensures
            r is Ok <==> tree_is_acyclic(self.nodes@, header_idx as int),
            r is Err ==> r == Err::<(), Error>(Error::CyclicTree) || r == Err::<(), Error>(Error::MalformedForest),
            tree_check(self.nodes@, header_idx as int, r),
    {
        reveal(tree_check);
        let nodes_len = self.nodes.len();
        let (header, tree_nodes) = self.get_tree(header_idx);
        let root_idx = header.first_node_idx() as usize;
        let root = match find_root(tree_nodes, root_idx, nodes_len) {
            Some(r) => r,
            None => {
                proof {
                    reveal(tree_is_acyclic);
                }
                return Err(Error::MalformedForest);
            },
        };
        proof {
            lemma_tree_root(tree_nodes@, root_idx as int, nodes_len as int);
        }
        assert((root as int) < tree_nodes@.len());
        let r = check_tree_acyclic(tree_nodes, root, nodes_len);
        proof {
            reveal(tree_is_acyclic);
        }
        r
    }

    /// Verify that the forest contains no circular references. Tree by tree,
    /// along the header chain: a header at an odd node index is misaligned
    /// (node 0 starts a 16-byte line and nodes are 8 bytes long); otherwise a
    /// depth-first search from the root (the first non-padding node, at or
    /// after the tree's first node, that no such node points to) meets no
    /// node twice on a path, no padding and no pointer beyond the nodes. The
    /// first tree that fails gives the error.
    ///
    /// Whether node 0 itself starts a 16-byte line in memory is for the
    /// caller that holds the byte buffer to check.
    pub fn verify_acyclic(&self) -> (r: Result<(), Error>)
        requires
            reached_in_bounds(self.nodes@),
            passes_before(self.nodes@, tree_headers_of(self.nodes@).len() as int) ==> tree_headers_of(self.nodes@).len()
                == self.num_trees.value(),
        ensures
            r is Ok <==> passes_before(self.nodes@, tree_headers_of(self.nodes@).len() as int),
            r is Err ==> r == Err::<(), Error>(Error::CyclicTree) || r == Err::<(), Error>(Error::MalformedForest) || r == Err::<
                (),
                Error,
            >(Error::MisalignedData),
            r is Err ==> exists|k: int|
                0 <= k < tree_headers_of(self.nodes@).len() && passes_before(self.nodes@, k) && #[trigger] tree_failure(
                    self.nodes@,
                    tree_headers_of(self.nodes@)[k] as int,
                    r,
                ),
    {
        let ghost nodes = self.nodes@;
        let ghost hs = tree_headers_of(nodes);
        let nodes_len = self.nodes.len();
        let mut h: usize = 0;
        let ghost mut k: int = 0;
        proof {
            lemma_headers_step(nodes, 0, 0);
        }
        loop
            invariant
                nodes == self.nodes@,
                hs == tree_headers_of(nodes),
                nodes_len == nodes.len(),
                reached_in_bounds(nodes),
                0 <= k < hs.len(),
                h as int == hs[k] as int,
                passes_before(nodes, k),
            ensures
                passes_before(nodes, hs.len() as int),
            decreases nodes_len - h,
        {
            proof {
                lemma_headers_step(nodes, 0, k);
                assert(hs[k] + tree_len_at(nodes, hs[k] as int) <= nodes.len());
            }
            let tl = self.nodes[h].as_header().tree_len() as usize;
            if h % 2 != 0 {
                proof {
                    assert(tree_failure(nodes, hs[k] as int, Err::<(), Error>(Error::MisalignedData)));
                    assert(!tree_passes(nodes, hs[k] as int));
                }
                return Err(Error::MisalignedData);
            }
            if tl == 0 {
                proof {
                    reveal(tree_check);
                    reveal(tree_is_acyclic);
                    let tree = tree_at(nodes, h as int);
                    assert(tree.len() == 0);
                    assert(!exists|i: int| #[trigger] is_root_candidate(tree, first_node_at(nodes, h as int), nodes.len() as int, i));
                    assert(tree_failure(nodes, hs[k] as int, Err::<(), Error>(Error::MalformedForest)));
                    assert(!tree_passes(nodes, hs[k] as int));
                }
                return Err(Error::MalformedForest);
            }
            match self.check_tree(h) {
                Ok(()) => {},
                Err(e) => {
                    proof {
                        assert(tree_failure(nodes, hs[k] as int, Err::<(), Error>(e)));
                        assert(!tree_passes(nodes, hs[k] as int));
                    }
                    return Err(e);
                },
            }
            assert(tree_passes(nodes, hs[k] as int));
            let next = h + tl;
            if next >= nodes_len {
                proof {
                    assert(k + 1 == hs.len());
                    assert forall|j: int| 0 <= j < hs.len() implies tree_passes(nodes, #[trigger] hs[j] as int) by {
                        if j < k {
                            assert(passes_before(nodes, k));
                        }
                    }
                }
                break;
            }
            proof {
                assert(hs[k + 1] == next);
                assert forall|j: int| 0 <= j < k + 1 implies tree_passes(nodes, #[trigger] hs[j] as int) by {
                    if j < k {
                        assert(passes_before(nodes, k));
                    }
                }
                k = k + 1;
            }
            h = next;
        }
        let _expected = self.num_trees();
        Ok(())
    }
}

} // verus!
