//! Partitioning of compiled trees into cells, and the depth measures that
//! guide it.

use vstd::prelude::*;

use vstd::arithmetic::div_mod::lemma_fundamental_div_mod;

use crate::compiler::tree_compiler::orders::{rng_with_seed, shuffle_indices, SHUFFLE_SEED};
use crate::model::Node;

verus! {

/// Cell partitioning strategy.
#[derive(Clone, Copy, Debug, PartialEq, Eq, Structural)]
pub enum PartitionStrategy {
    Greedy,
    EqualRandom,
    EqualSorted,
}

impl PartitionStrategy {
    /// The strategy used when none is given.
    pub fn default_strategy() -> (s: Self)
        ensures
            s == PartitionStrategy::Greedy,
    {
        PartitionStrategy::Greedy
    }

    /// The name of the strategy, as given on the command line.
    pub fn name(&self) -> (s: &'static str)
        ensures
            s@ == match *self {
                PartitionStrategy::EqualRandom => "equal-random"@,
                PartitionStrategy::EqualSorted => "equal-sorted"@,
                PartitionStrategy::Greedy => "greedy"@,
            },
    {
        match self {
            PartitionStrategy::EqualRandom => "equal-random",
            PartitionStrategy::EqualSorted => "equal-sorted",
            PartitionStrategy::Greedy => "greedy",
        }
    }
}

/// `a + b`, saturated at `usize::MAX`.
pub open spec fn sat_add(a: int, b: int) -> int {
    if a + b <= usize::MAX {
        a + b
    } else {
        usize::MAX as int
    }
}

/// The larger of two integers.
pub open spec fn max_int(a: int, b: int) -> int {
    if a >= b {
        a
    } else {
        b
    }
}

/// Every path from node `idx` follows pointer children through nodes within
/// the slice and ends within `fuel` nodes.
pub open spec fn depth_ends(nodes: Seq<Node>, idx: int, fuel: nat) -> bool
    decreases fuel,
{
    fuel > 0 && 0 <= idx < nodes.len() && {
        let b = nodes[idx].branch();
        &&& (!b.flags.spec_left_prediction() ==> depth_ends(nodes, b.left as int, (fuel - 1) as nat))
        &&& (!b.flags.spec_right_prediction() ==> depth_ends(nodes, b.right as int, (fuel - 1) as nat))
    }
}

/// The number of nodes on the longest path from node `idx`, counting the
/// prediction at its end, within `fuel` nodes (saturated at `usize::MAX`).
pub open spec fn max_depth(nodes: Seq<Node>, idx: int, fuel: nat) -> int
    decreases fuel,
{
    if fuel == 0 || !(0 <= idx < nodes.len()) {
        0
    } else {
        let b = nodes[idx].branch();
        let l = if b.flags.spec_left_prediction() {
            1
        } else {
            sat_add(1, max_depth(nodes, b.left as int, (fuel - 1) as nat))
        };
        let r = if b.flags.spec_right_prediction() {
            1
        } else {
            sat_add(1, max_depth(nodes, b.right as int, (fuel - 1) as nat))
        };
        max_int(l, r)
    }
}

/// Paths that end within `f1` nodes end within any larger bound, with the
/// same longest path.
pub proof fn lemma_max_depth_fuel(nodes: Seq<Node>, idx: int, f1: nat, f2: nat)
    requires
        depth_ends(nodes, idx, f1),
        f1 <= f2,
    ensures
        depth_ends(nodes, idx, f2),
        max_depth(nodes, idx, f1) == max_depth(nodes, idx, f2),
        1 <= max_depth(nodes, idx, f1) <= usize::MAX,
    decreases f1,
{
    let b = nodes[idx].branch();
    if !b.flags.spec_left_prediction() {
        lemma_max_depth_fuel(nodes, b.left as int, (f1 - 1) as nat, (f2 - 1) as nat);
    }
    if !b.flags.spec_right_prediction() {
        lemma_max_depth_fuel(nodes, b.right as int, (f1 - 1) as nat, (f2 - 1) as nat);
    }
}

/// Every path from node `idx` ends.
pub open spec fn has_depth(nodes: Seq<Node>, idx: int) -> bool {
    exists|fuel: nat| depth_ends(nodes, idx, fuel)
}

/// A bound within which every path from node `idx` ends.
pub open spec fn depth_fuel(nodes: Seq<Node>, idx: int) -> nat {
    choose|fuel: nat| depth_ends(nodes, idx, fuel)
}

/// The number of nodes on the longest path from node `idx`, counting the
/// prediction at its end (saturated at `usize::MAX`).
pub open spec fn tree_depth(nodes: Seq<Node>, idx: int) -> int {
    max_depth(nodes, idx, depth_fuel(nodes, idx))
}

fn max_depth_within(tree_nodes: &[Node], root_idx: usize, Ghost(fuel): Ghost<nat>) -> (d: usize)
    requires
        depth_ends(tree_nodes@, root_idx as int, fuel),
    ensures
        d == max_depth(tree_nodes@, root_idx as int, fuel),
    decreases fuel,
{
    let branch = tree_nodes[root_idx].as_branch();
    let left_depth: usize = if branch.flags().left_prediction() {
        1
    } else {
        1usize.saturating_add(max_depth_within(tree_nodes, branch.left_ptr() as usize, Ghost((fuel - 1) as nat)))
    };
    let right_depth: usize = if branch.flags().right_prediction() {
        1
    } else {
        1usize.saturating_add(max_depth_within(tree_nodes, branch.right_ptr() as usize, Ghost((fuel - 1) as nat)))
    };
    if left_depth >= right_depth {
        left_depth
    } else {
        right_depth
    }
}

/// Get the tree's max depth in nodes: the number of nodes on its longest
/// path from `root_idx`, counting the prediction at its end. The count
/// saturates at `usize::MAX`.
pub fn tree_max_depth(tree_nodes: &[Node], root_idx: usize) -> (d: usize)
    requires
        has_depth(tree_nodes@, root_idx as int),
    ensures
        d == tree_depth(tree_nodes@, root_idx as int),
{
    max_depth_within(tree_nodes, root_idx, Ghost(depth_fuel(tree_nodes@, root_idx as int)))
}

/// The cache lines that a step from node `idx` to `child` adds: none when the
/// child is the second node of the line that `idx` starts, else one.
pub open spec fn line_step(idx: int, child: int) -> int {
    if idx % 2 == 0 && child == idx + 1 {
        0
    } else {
        1
    }
}

/// The most cache lines read on a path from node `idx`, `depth` lines having
/// been read to reach it, within `fuel` nodes (saturated at `usize::MAX`).
pub open spec fn line_depth(nodes: Seq<Node>, idx: int, depth: int, fuel: nat) -> int
    decreases fuel,
{
    if fuel == 0 || !(0 <= idx < nodes.len()) {
        depth
    } else {
        let b = nodes[idx].branch();
        let l = if b.flags.spec_left_prediction() {
            depth
        } else {
            line_depth(nodes, b.left as int, sat_add(depth, line_step(idx, b.left as int)), (fuel - 1) as nat)
        };
        let r = if b.flags.spec_right_prediction() {
            depth
        } else {
            line_depth(nodes, b.right as int, sat_add(depth, line_step(idx, b.right as int)), (fuel - 1) as nat)
        };
        max_int(depth, max_int(l, r))
    }
}

proof fn lemma_line_depth_fuel(nodes: Seq<Node>, idx: int, depth: int, f1: nat, f2: nat)
    requires
        depth_ends(nodes, idx, f1),
        f1 <= f2,
        0 <= depth <= usize::MAX,
    ensures
        line_depth(nodes, idx, depth, f1) == line_depth(nodes, idx, depth, f2),
        depth <= line_depth(nodes, idx, depth, f1) <= usize::MAX,
    decreases f1,
{
    let b = nodes[idx].branch();
    if !b.flags.spec_left_prediction() {
        lemma_line_depth_fuel(nodes, b.left as int, sat_add(depth, line_step(idx, b.left as int)), (f1 - 1) as nat, (f2 - 1) as nat);
    }
    if !b.flags.spec_right_prediction() {
        lemma_line_depth_fuel(nodes, b.right as int, sat_add(depth, line_step(idx, b.right as int)), (f1 - 1) as nat, (f2 - 1) as nat);
    }
    lemma_max_depth_fuel(nodes, idx, f1, f2);
}

/// The nodes met when every path from node `idx` is followed, a node
/// counted once per path, within `fuel` nodes.
pub open spec fn path_nodes(nodes: Seq<Node>, idx: int, fuel: nat) -> nat
    decreases fuel,
{
    if fuel == 0 || !(0 <= idx < nodes.len()) {
        0
    } else {
        let b = nodes[idx].branch();
        1 + (if b.flags.spec_left_prediction() { 0 } else { path_nodes(nodes, b.left as int, (fuel - 1) as nat) }) + (
        if b.flags.spec_right_prediction() {
            0
        } else {
            path_nodes(nodes, b.right as int, (fuel - 1) as nat)
        })
    }
}

proof fn lemma_path_nodes_fuel(nodes: Seq<Node>, idx: int, f1: nat, f2: nat)
    requires
        depth_ends(nodes, idx, f1),
        f1 <= f2,
    ensures
        path_nodes(nodes, idx, f1) == path_nodes(nodes, idx, f2),
    decreases f1,
{
    let b = nodes[idx].branch();
    if !b.flags.spec_left_prediction() {
        lemma_path_nodes_fuel(nodes, b.left as int, (f1 - 1) as nat, (f2 - 1) as nat);
    }
    if !b.flags.spec_right_prediction() {
        lemma_path_nodes_fuel(nodes, b.right as int, (f1 - 1) as nat, (f2 - 1) as nat);
    }
    lemma_max_depth_fuel(nodes, idx, f1, f2);
}

/// Every entry of the stack is a node from which every path ends within `fuel`.
pub open spec fn line_stack_ok(nodes: Seq<Node>, fuel: nat, s: Seq<(usize, usize)>) -> bool {
    forall|k: int| 0 <= k < s.len() ==> depth_ends(nodes, (#[trigger] s[k]).0 as int, fuel)
}

/// The nodes still to visit from the stack.
pub open spec fn line_stack_weight(nodes: Seq<Node>, fuel: nat, s: Seq<(usize, usize)>) -> nat
    decreases s.len(),
{
    if s.len() == 0 {
        0
    } else {
        path_nodes(nodes, s.last().0 as int, fuel) + line_stack_weight(nodes, fuel, s.drop_last())
    }
}

/// The most cache lines read on the paths from the stack's entries.
pub open spec fn line_stack_max(nodes: Seq<Node>, fuel: nat, s: Seq<(usize, usize)>) -> int
    decreases s.len(),
{
    if s.len() == 0 {
        0
    } else {
        max_int(line_depth(nodes, s.last().0 as int, s.last().1 as int, fuel), line_stack_max(nodes, fuel, s.drop_last()))
    }
}

/// The stack after popping its last entry and pushing its pointer children,
/// left before right.
pub open spec fn line_next_stack(nodes: Seq<Node>, s: Seq<(usize, usize)>) -> Seq<(usize, usize)> {
    let (idx, depth) = s.last();
    let b = nodes[idx as int].branch();
    let base = s.drop_last();
    let m = if b.flags.spec_left_prediction() {
        base
    } else {
        base.push((b.left as usize, sat_add(depth as int, line_step(idx as int, b.left as int)) as usize))
    };
    if b.flags.spec_right_prediction() {
        m
    } else {
        m.push((b.right as usize, sat_add(depth as int, line_step(idx as int, b.right as int)) as usize))
    }
}

proof fn lemma_line_stack_push(nodes: Seq<Node>, fuel: nat, s: Seq<(usize, usize)>, x: (usize, usize))
    ensures
        line_stack_weight(nodes, fuel, s.push(x)) == line_stack_weight(nodes, fuel, s) + path_nodes(nodes, x.0 as int, fuel),
        line_stack_max(nodes, fuel, s.push(x)) == max_int(line_depth(nodes, x.0 as int, x.1 as int, fuel), line_stack_max(nodes, fuel, s)),
{
    assert(s.push(x).drop_last() =~= s);
}

/// One step of the line-depth loop keeps the stack's entries ending, lowers
/// its weight, and keeps the maximum it stands for.
proof fn lemma_line_step(nodes: Seq<Node>, fuel: nat, s: Seq<(usize, usize)>, m: int)
    requires
        line_stack_ok(nodes, fuel, s),
        s.len() > 0,
    ensures
        line_stack_ok(nodes, fuel, line_next_stack(nodes, s)),
        line_stack_weight(nodes, fuel, line_next_stack(nodes, s)) < line_stack_weight(nodes, fuel, s),
        max_int(max_int(m, s.last().1 as int), line_stack_max(nodes, fuel, line_next_stack(nodes, s))) == max_int(m, line_stack_max(nodes, fuel, s)),
{
    let (idx, depth) = s.last();
    let b = nodes[idx as int].branch();
    let base = s.drop_last();
    assert(s[s.len() - 1] == s.last());
    assert(depth_ends(nodes, idx as int, fuel));
    let dl = sat_add(depth as int, line_step(idx as int, b.left as int));
    let dr = sat_add(depth as int, line_step(idx as int, b.right as int));
    let mid = if b.flags.spec_left_prediction() { base } else { base.push((b.left as usize, dl as usize)) };
    let next = line_next_stack(nodes, s);
    let l = if b.flags.spec_left_prediction() { depth as int } else { line_depth(nodes, b.left as int, dl, (fuel - 1) as nat) };
    let r = if b.flags.spec_right_prediction() { depth as int } else { line_depth(nodes, b.right as int, dr, (fuel - 1) as nat) };
    assert(line_depth(nodes, idx as int, depth as int, fuel) == max_int(depth as int, max_int(l, r)));
    if !b.flags.spec_left_prediction() {
        lemma_line_depth_fuel(nodes, b.left as int, dl, (fuel - 1) as nat, fuel);
        lemma_path_nodes_fuel(nodes, b.left as int, (fuel - 1) as nat, fuel);
        lemma_max_depth_fuel(nodes, b.left as int, (fuel - 1) as nat, fuel);
        lemma_line_stack_push(nodes, fuel, base, (b.left as usize, dl as usize));
    }
    if !b.flags.spec_right_prediction() {
        lemma_line_depth_fuel(nodes, b.right as int, dr, (fuel - 1) as nat, fuel);
        lemma_path_nodes_fuel(nodes, b.right as int, (fuel - 1) as nat, fuel);
        lemma_max_depth_fuel(nodes, b.right as int, (fuel - 1) as nat, fuel);
        lemma_line_stack_push(nodes, fuel, mid, (b.right as usize, dr as usize));
    }
    assert forall|k: int| 0 <= k < next.len() implies depth_ends(nodes, (#[trigger] next[k]).0 as int, fuel) by {
        if k < base.len() {
            assert(next[k] == s[k]);
        } else if k < mid.len() {
            assert(next[k] == mid[k]);
        }
    }
}

/// The first cache-line count of a tree: one when the first branch shares
/// the header's line, else two.
pub open spec fn first_lines(first: int) -> int {
    if first == 1 {
        1
    } else {
        2
    }
}

/// Returns the maximum traversal depth in cache-line accesses, accounting for
/// guaranteed superscalar hits: a step to the second node of the line just
/// read costs nothing. Assumes `root_idx` is the aligned tree header. The
/// count saturates at `usize::MAX`.
pub fn tree_max_traversal_depth_superscalar(tree_nodes: &[Node], root_idx: usize) -> (d: usize)
    requires
        root_idx % 2 == 0,
        root_idx < tree_nodes@.len(),
        has_depth(tree_nodes@, tree_nodes@[root_idx as int].header().first_node_idx as int),
    ensures
        d == ({
            let first = tree_nodes@[root_idx as int].header().first_node_idx as int;
            line_depth(tree_nodes@, first, first_lines(first), depth_fuel(tree_nodes@, first))
        }),
{
    let header = tree_nodes[root_idx].as_header();
    let ghost nodes = tree_nodes@;
    let first = header.first_node_idx as usize;
    let ghost fuel = depth_fuel(nodes, first as int);
    let first_depth: usize = if first == 1 { 1 } else { 2 };
    let ghost target = line_depth(nodes, first as int, first_depth as int, fuel);
    let mut stack: Vec<(usize, usize)> = Vec::new();
    stack.push((first, first_depth));
    proof {
        lemma_line_stack_push(nodes, fuel, Seq::empty(), (first, first_depth));
        assert(Seq::<(usize, usize)>::empty().push((first, first_depth)) == stack@);
        lemma_line_depth_fuel(nodes, first as int, first_depth as int, fuel, fuel);
    }
    let mut max_depth = first_depth;
    loop
        invariant
            nodes == tree_nodes@,
            line_stack_ok(nodes, fuel, stack@),
            max_int(max_depth as int, line_stack_max(nodes, fuel, stack@)) == target,
        ensures
            max_depth == target,
        decreases line_stack_weight(nodes, fuel, stack@),
    {
        let ghost s0 = stack@;
        let (idx, depth) = match stack.pop() {
            Some(x) => x,
            None => break,
        };
        proof {
            assert(s0.last() == (idx, depth));
            assert(depth_ends(nodes, s0[s0.len() - 1].0 as int, fuel));
            lemma_line_step(nodes, fuel, s0, max_depth as int);
        }
        if depth > max_depth {
            max_depth = depth;
        }
        let branch = tree_nodes[idx].as_branch();
        if !branch.flags().left_prediction() {
            let child = branch.left_ptr() as usize;
            let extra: usize = if idx % 2 == 0 && child == idx + 1 { 0 } else { 1 };
            stack.push((child, depth.saturating_add(extra)));
        }
        if !branch.flags().right_prediction() {
            let child = branch.right_ptr() as usize;
            let extra: usize = if idx % 2 == 0 && child == idx + 1 { 0 } else { 1 };
            stack.push((child, depth.saturating_add(extra)));
        }
        assert(stack@ == line_next_stack(nodes, s0));
    }
    max_depth
}

/// The node sequences of a list of trees.
pub open spec fn trees_view(f: Seq<Vec<Node>>) -> Seq<Seq<Node>> {
    f.map_values(|t: Vec<Node>| t@)
}

/// The trees of each cell, as node sequences.
pub open spec fn cells_view(r: Seq<Vec<Vec<Node>>>) -> Seq<Seq<Seq<Node>>> {
    r.map_values(|c: Vec<Vec<Node>>| trees_view(c@))
}

/// The items of `s` in the order given by `order`.
pub open spec fn arrange<T>(s: Seq<T>, order: Seq<usize>) -> Seq<T> {
    order.map_values(|k: usize| s[k as int])
}

/// `order` lists each index below `n` once.
pub open spec fn is_order_of(order: Seq<usize>, n: int) -> bool {
    &&& order.len() == n
    &&& order.no_duplicates()
    &&& forall|k: int| 0 <= k < order.len() ==> (#[trigger] order[k] as int) < n
}

/// An order of `0..n` visits every index of `0..n`.
pub proof fn lemma_order_covers(order: Seq<usize>, n: int)
    requires
        is_order_of(order, n),
        n <= usize::MAX + 1,
    ensures
        forall|j: int| 0 <= j < n ==> #[trigger] order.contains(j as usize),
{
    let r = Seq::new(n as nat, |i: int| i as usize);
    assert(r.no_duplicates());
    order.unique_seq_to_set();
    r.unique_seq_to_set();
    assert(order.to_set().subset_of(r.to_set())) by {
        assert forall|x: usize| order.to_set().contains(x) implies r.to_set().contains(x) by {
            let k = choose|k: int| 0 <= k < order.len() && order[k] == x;
            assert(r[x as int] == x);
        }
    }
    vstd::set_lib::lemma_subset_equality(order.to_set(), r.to_set());
    assert forall|j: int| 0 <= j < n implies #[trigger] order.contains(j as usize) by {
        assert(r[j] == j as usize);
        assert(r.to_set().contains(j as usize));
        assert(order.to_set().contains(j as usize));
    }
}

/// Where chunk `i` starts when `n` items go to `cells` chunks whose sizes
/// differ by at most one, the larger ones first.
pub open spec fn chunk_start(n: int, cells: int, i: int) -> int {
    i * (n / cells) + if i < n % cells {
        i
    } else {
        n % cells
    }
}

/// `s` cut into `cells` consecutive chunks whose sizes differ by at most
/// one, the larger ones first.
pub open spec fn equal_chunks<T>(s: Seq<T>, cells: int) -> Seq<Seq<T>> {
    Seq::new(cells as nat, |i: int| s.subrange(chunk_start(s.len() as int, cells, i), chunk_start(s.len() as int, cells, i + 1)))
}

pub proof fn lemma_chunk_start(n: int, c: int, i: int)
    requires
        c > 0,
        n >= 0,
        0 <= i < c,
    ensures
        chunk_start(n, c, i + 1) == chunk_start(n, c, i) + n / c + (if i < n % c { 1int } else { 0int }),
        0 <= chunk_start(n, c, i),
        chunk_start(n, c, i + 1) <= n,
        chunk_start(n, c, 0) == 0,
        chunk_start(n, c, c) == n,
{
    let q = n / c;
    assert((i + 1) * q == i * q + q) by (nonlinear_arith);
    assert(0 <= q) by (nonlinear_arith)
        requires
            n >= 0,
            c > 0,
            q == n / c,
    ;
    assert(0 <= i * q) by (nonlinear_arith)
        requires
            0 <= i,
            0 <= q,
    ;
    assert((i + 1) * q <= c * q) by (nonlinear_arith)
        requires
            i + 1 <= c,
            0 <= q,
    ;
    lemma_fundamental_div_mod(n, c);
    assert(0 * q == 0);
}

/// A copy of a tree's nodes.
pub fn copy_tree(t: &Vec<Node>) -> (r: Vec<Node>)
    ensures
        r@ == t@,
{
    let mut r: Vec<Node> = Vec::new();
    let mut i: usize = 0;
    while i < t.len()
        invariant
            0 <= i <= t@.len(),
            r@ == t@.subrange(0, i as int),
        decreases t@.len() - i,
    {
        r.push(t[i]);
        i = i + 1;
        assert(r@ =~= t@.subrange(0, i as int));
    }
    assert(t@.subrange(0, t@.len() as int) =~= t@);
    r
}

/// A copy of all the trees.
pub fn copy_forest(forest: &[Vec<Node>]) -> (r: Vec<Vec<Node>>)
    ensures
        trees_view(r@) == trees_view(forest@),
{
    let mut r: Vec<Vec<Node>> = Vec::new();
    let mut i: usize = 0;
    while i < forest.len()
        invariant
            0 <= i <= forest@.len(),
            r@.len() == i,
            forall|k: int| 0 <= k < i ==> (#[trigger] r@[k])@ == forest@[k]@,
        decreases forest@.len() - i,
    {
        r.push(copy_tree(&forest[i]));
        i = i + 1;
    }
    assert(trees_view(r@) =~= trees_view(forest@));
    r
}

/// Cut the trees, taken in the given order, into `num_cells` cells with equal
/// numbers of trees (the first cells take one more when they do not divide
/// evenly).
pub fn partition_in_order(forest: &[Vec<Node>], order: &[usize], num_cells: u8) -> (r: Vec<Vec<Vec<Node>>>)
    requires
        num_cells > 1,
        forall|k: int| 0 <= k < order@.len() ==> (#[trigger] order@[k] as int) < forest@.len(),
    ensures
        cells_view(r@) == equal_chunks(arrange(trees_view(forest@), order@), num_cells as int),
{
    let ghost arranged = arrange(trees_view(forest@), order@);
    let ghost chunks = equal_chunks(arranged, num_cells as int);
    let cells = num_cells as usize;
    let n = order.len();
    let base = n / cells;
    let extra = n % cells;
    let mut result: Vec<Vec<Vec<Node>>> = Vec::new();
    let mut idx: usize = 0;
    let mut i: usize = 0;
    proof {
        lemma_chunk_start(n as int, cells as int, 0);
    }
    while i < cells
        invariant
            cells == num_cells as usize,
            cells > 1,
            n == order@.len(),
            n == arranged.len(),
            base == n / cells,
            extra == n % cells,
            arranged == arrange(trees_view(forest@), order@),
            chunks == equal_chunks(arranged, cells as int),
            forall|k: int| 0 <= k < order@.len() ==> (#[trigger] order@[k] as int) < forest@.len(),
            0 <= i <= cells,
            idx == chunk_start(n as int, cells as int, i as int),
            result@.len() == i,
            forall|c: int| 0 <= c < i ==> trees_view((#[trigger] result@[c])@) == chunks[c],
        decreases cells - i,
    {
        proof {
            lemma_chunk_start(n as int, cells as int, i as int);
        }
        let size = base + if i < extra { 1 } else { 0 };
        let mut cell: Vec<Vec<Node>> = Vec::new();
        let mut k: usize = idx;
        while k < idx + size
            invariant
                idx + size <= n,
                n == order@.len(),
                arranged == arrange(trees_view(forest@), order@),
                forall|k: int| 0 <= k < order@.len() ==> (#[trigger] order@[k] as int) < forest@.len(),
                idx <= k <= idx + size,
                trees_view(cell@) == arranged.subrange(idx as int, k as int),
            decreases idx + size - k,
        {
            let t = copy_tree(&forest[order[k]]);
            let ghost before = cell@;
            cell.push(t);
            proof {
                assert(trees_view(cell@) =~= trees_view(before).push(t@));
                assert(arranged[k as int] == forest@[order@[k as int] as int]@);
                assert(arranged.subrange(idx as int, k + 1) =~= arranged.subrange(idx as int, k as int).push(arranged[k as int]));
            }
            k = k + 1;
        }
        let ghost before = result@;
        result.push(cell);
        proof {
            assert forall|c: int| 0 <= c < i + 1 implies trees_view((#[trigger] result@[c])@) == chunks[c] by {
                if c < i {
                    assert(result@[c] == before[c]);
                }
            }
        }
        idx = idx + size;
        i = i + 1;
    }
    assert(cells_view(result@) =~= chunks);
    result
}

/// `order` lists each index below `n` once when its items are those of
/// `0..n`.
proof fn lemma_shuffled_range_is_order(order: Seq<usize>, range: Seq<usize>, n: int)
    requires
        range.len() == n,
        forall|k: int| 0 <= k < n ==> (#[trigger] range[k]) as int == k,
        order.to_multiset() == range.to_multiset(),
        order.len() == n,
    ensures
        is_order_of(order, n),
{
    order.to_multiset_ensures();
    range.to_multiset_ensures();
    assert(range.no_duplicates());
    range.lemma_multiset_has_no_duplicates();
    order.lemma_multiset_has_no_duplicates_conv();
    assert forall|k: int| 0 <= k < order.len() implies (#[trigger] order[k] as int) < n by {
        assert(order.contains(order[k]));
        assert(order.to_multiset().count(order[k]) > 0);
        assert(range.contains(order[k]));
    }
}

/// Partition trees such that each cell has an equal number of trees. Trees
/// are shuffled in a random, but reproducible manner.
pub fn partition_equal_random(forest: &[Vec<Node>], num_cells: u8) -> (r: Vec<Vec<Vec<Node>>>)
    ensures
        num_cells <= 1 ==> cells_view(r@) == seq![trees_view(forest@)],
        num_cells > 1 ==> exists|order: Seq<usize>| #[trigger] is_order_of(order, forest@.len() as int) && cells_view(r@)
            == equal_chunks(arrange(trees_view(forest@), order), num_cells as int),
{
    if num_cells <= 1 {
        let r = vec![copy_forest(forest)];
        assert(cells_view(r@) =~= seq![trees_view(forest@)]);
        return r;
    }
    let n = forest.len();
    let mut order: Vec<usize> = Vec::new();
    let mut i: usize = 0;
    while i < n
        invariant
            n == forest@.len(),
            0 <= i <= n,
            order@.len() == i,
            forall|k: int| 0 <= k < i ==> (#[trigger] order@[k]) as int == k,
        decreases n - i,
    {
        order.push(i);
        i = i + 1;
    }
    let ghost range = order@;
    let mut rng = rng_with_seed(SHUFFLE_SEED);
    shuffle_indices(&mut rng, &mut order);
    proof {
        lemma_shuffled_range_is_order(order@, range, n as int);
    }
    partition_in_order(forest, &order, num_cells)
}

/// The indices of `(index, depth)` pairs.
pub open spec fn pair_ids(v: Seq<(usize, usize)>) -> Seq<usize> {
    v.map_values(|p: (usize, usize)| p.0)
}

/// The depths of `(index, depth)` pairs.
pub open spec fn pair_depths(v: Seq<(usize, usize)>) -> Seq<usize> {
    v.map_values(|p: (usize, usize)| p.1)
}

/// The sum of the depths.
pub open spec fn depth_sum(d: Seq<usize>) -> int
    decreases d.len(),
{
    if d.len() == 0 {
        0
    } else {
        depth_sum(d.drop_last()) + d.last()
    }
}

proof fn lemma_depth_sum_insert(d: Seq<usize>, p: int, x: usize)
    requires
        0 <= p <= d.len(),
    ensures
        depth_sum(d.insert(p, x)) == depth_sum(d) + x,
    decreases d.len(),
{
    if p == d.len() {
        assert(d.insert(p, x).drop_last() =~= d);
    } else {
        lemma_depth_sum_insert(d.drop_last(), p, x);
        assert(d.insert(p, x).drop_last() =~= d.drop_last().insert(p, x));
        assert(d.insert(p, x).last() == d.last());
    }
}

/// The pairs are ordered by depth, deepest first.
pub open spec fn depth_desc(v: Seq<(usize, usize)>) -> bool {
    forall|a: int, b: int| 0 <= a < b < v.len() ==> (#[trigger] v[a]).1 >= (#[trigger] v[b]).1 && (v[a].1 == v[b].1 ==> v[a].0 < v[b].0)
}

/// Pair each index with its depth and order the pairs by depth, deepest
/// first; pairs of equal depth keep their index order.
pub fn order_by_depth_desc(depths: &Vec<usize>) -> (r: Vec<(usize, usize)>)
    ensures
        is_order_of(pair_ids(r@), depths@.len() as int),
        forall|k: int| 0 <= k < r@.len() ==> (#[trigger] r@[k]).1 == depths@[r@[k].0 as int],
        depth_desc(r@),
        depth_sum(pair_depths(r@)) == depth_sum(depths@),
{
    let mut out: Vec<(usize, usize)> = Vec::new();
    let mut i: usize = 0;
    while i < depths.len()
        invariant
            0 <= i <= depths@.len(),
            is_order_of(pair_ids(out@), i as int),
            forall|k: int| 0 <= k < out@.len() ==> (#[trigger] out@[k]).1 == depths@[out@[k].0 as int],
            depth_desc(out@),
            depth_sum(pair_depths(out@)) == depth_sum(depths@.subrange(0, i as int)),
        decreases depths@.len() - i,
    {
        let d = depths[i];
        let mut p: usize = 0;
        while p < out.len() && out[p].1 >= d
            invariant
                0 <= p <= out@.len(),
                forall|k: int| 0 <= k < p ==> (#[trigger] out@[k]).1 >= d,
            decreases out@.len() - p,
        {
            p = p + 1;
        }
        let ghost before = out@;
        out.insert(p, (i, d));
        proof {
            let ids0 = pair_ids(before);
            let ids1 = pair_ids(out@);
            assert(ids1 =~= ids0.insert(p as int, i));
            assert(pair_depths(out@) =~= pair_depths(before).insert(p as int, d));
            lemma_depth_sum_insert(pair_depths(before), p as int, d);
            assert(depths@.subrange(0, i + 1).drop_last() =~= depths@.subrange(0, i as int));
            assert forall|k: int| 0 <= k < before.len() implies (#[trigger] ids0[k] as int) < i by {}
            assert forall|a: int, b: int| 0 <= a < ids1.len() && 0 <= b < ids1.len() && a != b implies ids1[a] != ids1[b] by {
                if a != p as int && b != p as int {
                    let a0 = if a < p { a } else { a - 1 };
                    let b0 = if b < p { b } else { b - 1 };
                    assert(ids1[a] == ids0[a0] && ids1[b] == ids0[b0]);
                } else if a == p as int {
                    let b0 = if b < p { b } else { b - 1 };
                    assert(ids1[b] == ids0[b0]);
                } else {
                    let a0 = if a < p { a } else { a - 1 };
                    assert(ids1[a] == ids0[a0]);
                }
            }
            assert forall|k: int| 0 <= k < ids1.len() implies (#[trigger] ids1[k] as int) < i + 1 by {
                if k < p {
                    assert(ids1[k] == ids0[k]);
                } else if k > p {
                    assert(ids1[k] == ids0[k - 1]);
                }
            }
            assert forall|k: int| 0 <= k < out@.len() implies (#[trigger] out@[k]).1 == depths@[out@[k].0 as int] by {
                if k < p {
                    assert(out@[k] == before[k]);
                } else if k > p {
                    assert(out@[k] == before[k - 1]);
                }
            }
            assert forall|a: int, b: int| 0 <= a < b < out@.len() implies (#[trigger] out@[a]).1 >= (#[trigger] out@[b]).1 && (out@[a].1
                == out@[b].1 ==> out@[a].0 < out@[b].0) by {
                if p < before.len() {
                    assert(before[p as int].1 < d);
                }
                if a < p && b < p {
                    assert(out@[a] == before[a] && out@[b] == before[b]);
                } else if a < p && b == p {
                    assert(out@[a] == before[a]);
                    assert(pair_ids(before)[a] == before[a].0);
                    assert((pair_ids(before)[a] as int) < i);
                } else if a < p {
                    assert(out@[a] == before[a] && out@[b] == before[b - 1]);
                } else if a == p {
                    assert(out@[b] == before[b - 1]);
                    assert(before[b - 1].1 <= before[p as int].1);
                } else {
                    assert(out@[a] == before[a - 1] && out@[b] == before[b - 1]);
                }
            }
        }
        i = i + 1;
    }
    assert(depths@.subrange(0, depths@.len() as int) =~= depths@);
    out
}

/// A compiled tree: a header, and a first branch from which every path ends.
pub open spec fn compiled_tree_ok(t: Seq<Node>) -> bool {
    t.len() > 0 && has_depth(t, t[0].header().first_node_idx as int)
}

/// The max depth of a compiled tree, from its first branch.
pub open spec fn first_branch_depth(t: Seq<Node>) -> int {
    tree_depth(t, t[0].header().first_node_idx as int)
}

/// The trees in `order` come deepest first.
pub open spec fn deepest_first(trees: Seq<Seq<Node>>, order: Seq<usize>) -> bool {
    forall|a: int, b: int| 0 <= a < b < order.len() ==> first_branch_depth(trees[#[trigger] order[a] as int]) >= first_branch_depth(
        trees[#[trigger] order[b] as int],
    ) && (first_branch_depth(trees[order[a] as int]) == first_branch_depth(trees[order[b] as int]) ==> order[a] < order[b])
}

/// Partition trees such that each cell has an equal number of trees, sorted
/// by max depth in descending order.
pub fn partition_equal_sorted(forest: &[Vec<Node>], num_cells: u8) -> (r: Vec<Vec<Vec<Node>>>)
    requires
        forall|k: int| 0 <= k < forest@.len() ==> compiled_tree_ok(#[trigger] forest@[k]@),
    ensures
        num_cells <= 1 ==> cells_view(r@) == seq![trees_view(forest@)],
        num_cells > 1 ==> exists|order: Seq<usize>| #[trigger] is_order_of(order, forest@.len() as int)
            && deepest_first(trees_view(forest@), order)
            && cells_view(r@) == equal_chunks(arrange(trees_view(forest@), order), num_cells as int),
{
    if num_cells <= 1 {
        let r = vec![copy_forest(forest)];
        assert(cells_view(r@) =~= seq![trees_view(forest@)]);
        return r;
    }
    let mut depths: Vec<usize> = Vec::new();
    let mut i: usize = 0;
    while i < forest.len()
        invariant
            0 <= i <= forest@.len(),
            forall|k: int| 0 <= k < forest@.len() ==> compiled_tree_ok(#[trigger] forest@[k]@),
            depths@.len() == i,
            forall|k: int| 0 <= k < i ==> (#[trigger] depths@[k]) == first_branch_depth(forest@[k]@),
        decreases forest@.len() - i,
    {
        let tree = &forest[i];
        assert(compiled_tree_ok(forest@[i as int]@));
        let first_node_idx = tree[0].as_header().first_node_idx;
        depths.push(tree_max_depth(tree.as_slice(), first_node_idx as usize));
        i = i + 1;
    }
    let indexed = order_by_depth_desc(&depths);
    let mut order: Vec<usize> = Vec::new();
    let mut k: usize = 0;
    while k < indexed.len()
        invariant
            0 <= k <= indexed@.len(),
            order@ == pair_ids(indexed@).subrange(0, k as int),
        decreases indexed@.len() - k,
    {
        order.push(indexed[k].0);
        k = k + 1;
        assert(order@ =~= pair_ids(indexed@).subrange(0, k as int));
    }
    assert(order@ =~= pair_ids(indexed@));
    proof {
        let tv = trees_view(forest@);
        assert forall|a: int, b: int| 0 <= a < b < order@.len() implies first_branch_depth(tv[#[trigger] order@[a] as int])
            >= first_branch_depth(tv[#[trigger] order@[b] as int]) && (first_branch_depth(tv[order@[a] as int]) == first_branch_depth(
            tv[order@[b] as int],
        ) ==> order@[a] < order@[b]) by {
            assert(indexed@[a].1 >= indexed@[b].1);
            assert(indexed@[a].1 == depths@[indexed@[a].0 as int]);
            assert(indexed@[b].1 == depths@[indexed@[b].0 as int]);
        }
        assert forall|k: int| 0 <= k < order@.len() implies (#[trigger] order@[k] as int) < forest@.len() by {}
    }
    partition_in_order(forest, &order, num_cells)
}

/// Greedy grouping of `depths`, in order, into groups whose sums stay within
/// `max_sum` (a depth larger than `max_sum` opens a group of its own): the
/// number of groups and the sum of the last one.
pub open spec fn greedy_groups(depths: Seq<usize>, max_sum: int) -> (int, int)
    decreases depths.len(),
{
    if depths.len() == 0 {
        (1, 0)
    } else {
        let prev = greedy_groups(depths.drop_last(), max_sum);
        let d = depths.last() as int;
        if prev.1 + d > max_sum {
            (prev.0 + 1, d)
        } else {
            (prev.0, prev.1 + d)
        }
    }
}

/// The greedy grouping under `max_sum` needs at most `cells` groups.
pub open spec fn fits_in_cells(depths: Seq<usize>, max_sum: int, cells: int) -> bool {
    greedy_groups(depths, max_sum).0 <= cells
}

/// A larger bound never needs more groups.
pub proof fn lemma_greedy_monotone(depths: Seq<usize>, s1: int, s2: int)
    requires
        s1 <= s2,
    ensures
        greedy_groups(depths, s2).0 < greedy_groups(depths, s1).0 || (greedy_groups(depths, s2).0 == greedy_groups(depths, s1).0
            && greedy_groups(depths, s2).1 <= greedy_groups(depths, s1).1),
        greedy_groups(depths, s1).1 >= 0,
        greedy_groups(depths, s2).1 >= 0,
    decreases depths.len(),
{
    if depths.len() > 0 {
        lemma_greedy_monotone(depths.drop_last(), s1, s2);
    }
}

proof fn lemma_greedy_bounds(depths: Seq<usize>, s: int)
    ensures
        1 <= greedy_groups(depths, s).0 <= depths.len() + 1,
        0 <= greedy_groups(depths, s).1 <= depth_sum(depths),
    decreases depths.len(),
{
    if depths.len() > 0 {
        lemma_greedy_bounds(depths.drop_last(), s);
    }
}

proof fn lemma_greedy_total(depths: Seq<usize>, s: int)
    requires
        depth_sum(depths) <= s,
    ensures
        greedy_groups(depths, s) == (1int, depth_sum(depths)),
    decreases depths.len(),
{
    if depths.len() > 0 {
        lemma_depth_sum_nonneg(depths.drop_last());
        lemma_greedy_total(depths.drop_last(), s);
    }
}

proof fn lemma_depth_sum_nonneg(d: Seq<usize>)
    ensures
        depth_sum(d) >= 0,
    decreases d.len(),
{
    if d.len() > 0 {
        lemma_depth_sum_nonneg(d.drop_last());
    }
}

proof fn lemma_depth_sum_prefix(d: Seq<usize>, k: int)
    requires
        0 <= k < d.len(),
    ensures
        depth_sum(d.subrange(0, k + 1)) == depth_sum(d.subrange(0, k)) + d[k],
        depth_sum(d.subrange(0, k + 1)) <= depth_sum(d),
    decreases d.len() - k,
{
    assert(d.subrange(0, k + 1).drop_last() =~= d.subrange(0, k));
    if k + 1 == d.len() {
        assert(d.subrange(0, k + 1) =~= d);
    } else {
        lemma_depth_sum_prefix(d, k + 1);
        lemma_depth_sum_nonneg(d.subrange(0, k + 1));
    }
}

proof fn lemma_greedy_groups_grow(depths: Seq<usize>, s: int, k: int)
    requires
        0 <= k <= depths.len(),
    ensures
        greedy_groups(depths.subrange(0, k), s).0 <= greedy_groups(depths, s).0,
    decreases depths.len() - k,
{
    if k < depths.len() {
        lemma_greedy_groups_grow(depths, s, k + 1);
        assert(depths.subrange(0, k + 1).drop_last() =~= depths.subrange(0, k));
    } else {
        assert(depths.subrange(0, k) =~= depths);
    }
}

/// A prefix's sum is at most the whole sum.
pub proof fn lemma_depth_sum_prefix_le(d: Seq<usize>, k: int)
    requires
        0 <= k < d.len(),
    ensures
        depth_sum(d.subrange(0, k + 1)) == depth_sum(d.subrange(0, k)) + d[k],
        depth_sum(d.subrange(0, k + 1)) <= depth_sum(d),
{
    lemma_depth_sum_prefix(d, k);
}

/// Whether the greedy grouping of `depths` under `max_sum` needs at most
/// `num_cells` groups.
pub fn can_fit(depths: &Vec<usize>, max_sum: usize, num_cells: usize) -> (b: bool)
    requires
        depth_sum(depths@) <= usize::MAX,
        num_cells <= 0xffff,
    ensures
        b == fits_in_cells(depths@, max_sum as int, num_cells as int),
{
    let mut groups: usize = 1;
    let mut current: usize = 0;
    let mut k: usize = 0;
    while k < depths.len()
        invariant
            0 <= k <= depths@.len(),
            depth_sum(depths@) <= usize::MAX,
            (groups as int, current as int) == greedy_groups(depths@.subrange(0, k as int), max_sum as int),
            current <= depth_sum(depths@.subrange(0, k as int)),
            groups <= num_cells + 1,
            num_cells <= 0xffff,
        decreases depths@.len() - k,
    {
        let d = depths[k];
        proof {
            lemma_depth_sum_prefix(depths@, k as int);
            assert(depths@.subrange(0, k + 1).drop_last() =~= depths@.subrange(0, k as int));
            lemma_greedy_bounds(depths@.subrange(0, k + 1), max_sum as int);
        }
        if current + d > max_sum {
            groups = groups + 1;
            current = d;
        } else {
            current = current + d;
        }
        k = k + 1;
        if groups > num_cells {
            // Groups only grow: the grouping cannot fit any more.
            proof {
                lemma_greedy_groups_grow(depths@, max_sum as int, k as int);
            }
            return false;
        }
    }
    assert(depths@.subrange(0, depths@.len() as int) =~= depths@);
    groups <= num_cells
}

/// The largest depth, or zero.
pub open spec fn max_of(d: Seq<usize>) -> int
    decreases d.len(),
{
    if d.len() == 0 {
        0
    } else {
        max_int(max_of(d.drop_last()), d.last() as int)
    }
}

proof fn lemma_max_of_le_sum(d: Seq<usize>)
    ensures
        0 <= max_of(d) <= depth_sum(d),
    decreases d.len(),
{
    if d.len() > 0 {
        lemma_max_of_le_sum(d.drop_last());
        lemma_depth_sum_nonneg(d.drop_last());
    }
}

/// `s` is the least bound of at least `lo` under which the greedy grouping
/// fits in `cells` groups.
pub open spec fn is_least_fit(depths: Seq<usize>, cells: int, lo: int, s: int) -> bool {
    &&& lo <= s
    &&& fits_in_cells(depths, s, cells)
    &&& forall|t: int| lo <= t < s ==> !fits_in_cells(depths, t, cells)
}

/// The least bound, at least the largest depth, under which the greedy
/// grouping fits in `cells` groups.
pub open spec fn least_fit(depths: Seq<usize>, cells: int) -> int {
    choose|s: int| is_least_fit(depths, cells, max_of(depths), s)
}

/// The cell of each tree when trees go, in order, to the current cell until
/// its sum would pass `opt`, then to the next (the last cell takes the rest):
/// the cells, the current cell and its sum.
pub open spec fn greedy_assign(depths: Seq<usize>, opt: int, cells: int) -> (Seq<int>, int, int)
    decreases depths.len(),
{
    if depths.len() == 0 {
        (Seq::empty(), 0, 0)
    } else {
        let (a, cur, sum) = greedy_assign(depths.drop_last(), opt, cells);
        let d = depths.last() as int;
        if cur + 1 < cells && sum + d > opt {
            (a.push(cur + 1), cur + 1, d)
        } else {
            (a.push(cur), cur, sum + d)
        }
    }
}

pub proof fn lemma_greedy_assign_bounds(depths: Seq<usize>, opt: int, cells: int)
    requires
        cells > 0,
    ensures
        greedy_assign(depths, opt, cells).0.len() == depths.len(),
        0 <= greedy_assign(depths, opt, cells).1 < cells,
        0 <= greedy_assign(depths, opt, cells).2 <= depth_sum(depths),
        forall|k: int| 0 <= k < depths.len() ==> 0 <= #[trigger] greedy_assign(depths, opt, cells).0[k] < cells,
    decreases depths.len(),
{
    if depths.len() > 0 {
        lemma_greedy_assign_bounds(depths.drop_last(), opt, cells);
        let prev = greedy_assign(depths.drop_last(), opt, cells).0;
        let a = greedy_assign(depths, opt, cells).0;
        assert forall|k: int| 0 <= k < depths.len() implies 0 <= #[trigger] a[k] < cells by {
            if k < prev.len() {
                assert(a[k] == prev[k]);
            }
        }
    }
}

/// The sum of the depths of the first `k` trees that `assign` puts in cell
/// `c`.
pub open spec fn cell_sum(depths: Seq<usize>, assign: Seq<int>, c: int, k: int) -> int
    decreases k,
{
    if k <= 0 {
        0
    } else {
        cell_sum(depths, assign, c, k - 1) + if assign[k - 1] == c {
            depths[k - 1] as int
        } else {
            0
        }
    }
}

proof fn lemma_cell_sum_prefix(d1: Seq<usize>, a1: Seq<int>, d2: Seq<usize>, a2: Seq<int>, c: int, k: int)
    requires
        0 <= k <= d1.len(),
        k <= d2.len(),
        k <= a1.len(),
        k <= a2.len(),
        forall|j: int| 0 <= j < k ==> d1[j] == d2[j] && a1[j] == a2[j],
    ensures
        cell_sum(d1, a1, c, k) == cell_sum(d2, a2, c, k),
    decreases k,
{
    if k > 0 {
        lemma_cell_sum_prefix(d1, a1, d2, a2, c, k - 1);
    }
}

proof fn lemma_cell_sum_absent(d: Seq<usize>, a: Seq<int>, c: int, k: int)
    requires
        0 <= k <= a.len(),
        forall|j: int| 0 <= j < k ==> a[j] != c,
    ensures
        cell_sum(d, a, c, k) == 0,
    decreases k,
{
    if k > 0 {
        lemma_cell_sum_absent(d, a, c, k - 1);
    }
}

/// Where the greedy assignment stands after all the trees: the cell of the
/// last tree is the current cell, no tree is in a later cell, and the
/// current sum is the current cell's depth sum.
proof fn lemma_greedy_assign_state(depths: Seq<usize>, opt: int, cells: int)
    requires
        cells > 0,
    ensures
        ({
            let g = greedy_assign(depths, opt, cells);
            &&& g.0.len() == depths.len()
            &&& depths.len() == 0 ==> g.1 == 0 && g.2 == 0
            &&& depths.len() > 0 ==> g.0[depths.len() - 1] == g.1
            &&& forall|j: int| 0 <= j < depths.len() ==> 0 <= #[trigger] g.0[j] <= g.1
            &&& g.2 == cell_sum(depths, g.0, g.1, depths.len() as int)
        }),
    decreases depths.len(),
{
    let n = depths.len() as int;
    if n > 0 {
        let dp = depths.drop_last();
        lemma_greedy_assign_state(dp, opt, cells);
        let (ap, cur, sum) = greedy_assign(dp, opt, cells);
        let g = greedy_assign(depths, opt, cells);
        let a = g.0;
        let d = depths.last() as int;
        assert forall|j: int| 0 <= j < n - 1 implies a[j] == ap[j] && depths[j] == dp[j] by {}
        lemma_cell_sum_prefix(depths, a, dp, ap, g.1, n - 1);
        if cur + 1 < cells && sum + d > opt {
            assert forall|j: int| 0 <= j < n - 1 implies a[j] != cur + 1 by {
                assert(ap[j] <= cur);
            }
            lemma_cell_sum_absent(depths, a, cur + 1, n - 1);
            assert(cell_sum(depths, a, cur + 1, n) == cell_sum(depths, a, cur + 1, n - 1) + d);
        } else {
            assert(cell_sum(depths, a, cur, n) == cell_sum(depths, a, cur, n - 1) + d);
        }
        assert forall|j: int| 0 <= j < n implies 0 <= #[trigger] a[j] <= g.1 by {
            if j < n - 1 {
                assert(a[j] == ap[j]);
            }
        }
    }
}

/// The greedy assignment fills the cells in order: the first tree goes to
/// cell 0; each next tree goes to the same cell or the one after; it moves on
/// only when adding it would take the current cell's depth sum past `opt`,
/// and stays only when it does not (or the current cell is the last); so
/// every cell but the last has a depth sum of at most `opt`. This holds when
/// no single tree is deeper than `opt`, as under the least fitting bound.
#[verifier::spinoff_prover]
#[verifier::rlimit(60)]
pub proof fn lemma_greedy_fills_in_order(depths: Seq<usize>, opt: int, cells: int)
    requires
        cells > 0,
        opt >= 0,
        forall|k: int| 0 <= k < depths.len() ==> depths[k] <= opt,
    ensures
        ({
            let a = greedy_assign(depths, opt, cells).0;
            &&& a.len() == depths.len()
            &&& depths.len() > 0 ==> a[0] == 0
            &&& forall|k: int| 1 <= k < depths.len() ==> #[trigger] a[k] == a[k - 1] || a[k] == a[k - 1] + 1
            &&& forall|k: int|
                1 <= k < depths.len() && #[trigger] a[k] == a[k - 1] + 1 ==> cell_sum(depths, a, a[k - 1], k) + depths[k] > opt
            &&& forall|k: int|
                1 <= k < depths.len() && #[trigger] a[k] == a[k - 1] && a[k] + 1 < cells ==> cell_sum(depths, a, a[k], k) + depths[k]
                    <= opt
            &&& forall|c: int| 0 <= c < cells - 1 ==> #[trigger] cell_sum(depths, a, c, depths.len() as int) <= opt
        }),
    decreases depths.len(),
{
    let n = depths.len() as int;
    lemma_greedy_assign_state(depths, opt, cells);
    if n > 0 {
        let dp = depths.drop_last();
        assert forall|k: int| 0 <= k < dp.len() implies dp[k] <= opt by {
            assert(dp[k] == depths[k]);
        }
        lemma_greedy_fills_in_order(dp, opt, cells);
        lemma_greedy_assign_state(dp, opt, cells);
        let (ap, cur, sum) = greedy_assign(dp, opt, cells);
        let a = greedy_assign(depths, opt, cells).0;
        let d = depths.last() as int;
        assert(depths[n - 1] as int == d);
        assert forall|j: int| 0 <= j < n - 1 implies a[j] == ap[j] && depths[j] == dp[j] by {}
        let moved = cur + 1 < cells && sum + d > opt;
        assert forall|c: int| 0 <= c < cells - 1 implies #[trigger] cell_sum(depths, a, c, n) <= opt by {
            lemma_cell_sum_prefix(depths, a, dp, ap, c, n - 1);
            assert(cell_sum(depths, a, c, n) == cell_sum(depths, a, c, n - 1) + if a[n - 1] == c { d } else { 0 });
            if a[n - 1] == c {
                if moved {
                    assert forall|j: int| 0 <= j < n - 1 implies a[j] != cur + 1 by {
                        assert(ap[j] <= cur);
                    }
                    lemma_cell_sum_absent(depths, a, cur + 1, n - 1);
                } else {
                    assert(c == cur);
                    assert(cur + 1 < cells);
                }
            }
        }
        assert forall|k: int| 1 <= k < n implies #[trigger] a[k] == a[k - 1] || a[k] == a[k - 1] + 1 by {
            if k == n - 1 {
                assert(ap[n - 2] == cur);
            } else {
                assert(a[k] == ap[k] && a[k - 1] == ap[k - 1]);
            }
        }
        assert forall|k: int| 1 <= k < n && #[trigger] a[k] == a[k - 1] + 1 implies cell_sum(depths, a, a[k - 1], k) + depths[k] > opt by {
            lemma_cell_sum_prefix(depths, a, dp, ap, a[k - 1], k);
            if k == n - 1 {
                assert(ap[n - 2] == cur);
                assert(moved);
            } else {
                assert(a[k] == ap[k] && a[k - 1] == ap[k - 1]);
            }
        }
        assert forall|k: int| 1 <= k < n && #[trigger] a[k] == a[k - 1] && a[k] + 1 < cells implies cell_sum(depths, a, a[k], k)
            + depths[k] <= opt by {
            lemma_cell_sum_prefix(depths, a, dp, ap, a[k], k);
            if k == n - 1 {
                assert(ap[n - 2] == cur);
                assert(!moved);
            } else {
                assert(a[k] == ap[k] && a[k - 1] == ap[k - 1]);
            }
        }
        if n == 1 {
            assert(cur == 0 && sum == 0);
            assert(!moved);
            assert(a[0] == 0);
        } else {
            assert(a[0] == ap[0]);
        }
    }
}

proof fn lemma_max_of_bounds(d: Seq<usize>)
    ensures
        max_of(d) >= 0,
        forall|k: int| 0 <= k < d.len() ==> d[k] <= max_of(d),
    decreases d.len(),
{
    if d.len() > 0 {
        lemma_max_of_bounds(d.drop_last());
        assert forall|k: int| 0 <= k < d.len() implies d[k] <= max_of(d) by {
            if k < d.len() - 1 {
                assert(d[k] == d.drop_last()[k]);
            }
        }
    }
}

/// Under the least bound that fits (the one the greedy search uses), the
/// greedy assignment fills the cells in order, as `lemma_greedy_fills_in_order`
/// states: the first tree in cell 0, a move to the next cell only when the
/// current cell's sum would pass the bound, every cell but the last within it.
pub proof fn lemma_greedy_search_fills_in_order(lines: Seq<usize>, cells: int, opt: int)
    requires
        cells > 0,
        is_least_fit(lines, cells, max_of(lines), opt),
    ensures
        ({
            let a = greedy_assign(lines, opt, cells).0;
            &&& lines.len() > 0 ==> a[0] == 0
            &&& forall|k: int|
                1 <= k < lines.len() && #[trigger] a[k] == a[k - 1] + 1 ==> cell_sum(lines, a, a[k - 1], k) + lines[k] > opt
            &&& forall|c: int| 0 <= c < cells - 1 ==> #[trigger] cell_sum(lines, a, c, lines.len() as int) <= opt
        }),
{
    lemma_max_of_bounds(lines);
    lemma_greedy_fills_in_order(lines, opt, cells);
}

/// The trees put in their cells, each cell keeping the trees' order.
pub open spec fn distribute(trees: Seq<Seq<Node>>, assign: Seq<int>, cells: int) -> Seq<Seq<Seq<Node>>>
    decreases trees.len(),
{
    if trees.len() == 0 {
        Seq::new(cells as nat, |i: int| Seq::<Seq<Node>>::empty())
    } else {
        let prev = distribute(trees.drop_last(), assign.drop_last(), cells);
        prev.update(assign.last(), prev[assign.last()].push(trees.last()))
    }
}

proof fn lemma_distribute_len(trees: Seq<Seq<Node>>, assign: Seq<int>, cells: int)
    requires
        cells >= 0,
        assign.len() == trees.len(),
        forall|k: int| 0 <= k < assign.len() ==> 0 <= #[trigger] assign[k] < cells,
    ensures
        distribute(trees, assign, cells).len() == cells,
    decreases trees.len(),
{
    if trees.len() > 0 {
        lemma_distribute_len(trees.drop_last(), assign.drop_last(), cells);
    }
}

/// The most cache lines read on a path of a compiled tree whose header is
/// its node 0.
pub open spec fn tree_lines(t: Seq<Node>) -> int {
    let first = t[0].header().first_node_idx as int;
    line_depth(t, first, first_lines(first), depth_fuel(t, first))
}

/// The line depth of each tree, in order.
pub open spec fn forest_lines(trees: Seq<Seq<Node>>) -> Seq<usize> {
    trees.map_values(|t: Seq<Node>| tree_lines(t) as usize)
}

/// Partition the trees into cells by a greedy search: trees go deepest first
/// (in cache lines read), the largest per-cell sum of depths is the least one
/// under which a greedy grouping fits the cells (found by binary search),
/// and the trees are then assigned greedily under that sum.
#[verifier::rlimit(30)]
pub fn partition_greedy_search(forest: &[Vec<Node>], num_cells: u8) -> (r: Vec<Vec<Vec<Node>>>)
    requires
        forall|k: int| 0 <= k < forest@.len() ==> (#[trigger] forest@[k]@).len() > 0 && has_depth(
            forest@[k]@,
            forest@[k]@[0].header().first_node_idx as int,
        ),
        depth_sum(forest_lines(trees_view(forest@))) <= usize::MAX,
    ensures
        num_cells <= 1 ==> cells_view(r@) == seq![trees_view(forest@)],
        num_cells > 1 ==> greedy_cells(trees_view(forest@), num_cells as int, cells_view(r@)),
{
    if num_cells <= 1 {
        let r = vec![copy_forest(forest)];
        assert(cells_view(r@) =~= seq![trees_view(forest@)]);
        return r;
    }
    let cells = num_cells as usize;
    let ghost tv = trees_view(forest@);
    let ghost fl = forest_lines(tv);
    // Depths of the trees, in cache lines.
    let mut tree_depths: Vec<usize> = Vec::new();
    let mut i: usize = 0;
    while i < forest.len()
        invariant
            tv == trees_view(forest@),
            fl == forest_lines(tv),
            0 <= i <= forest@.len(),
            forall|k: int| 0 <= k < forest@.len() ==> (#[trigger] forest@[k]@).len() > 0 && has_depth(
                forest@[k]@,
                forest@[k]@[0].header().first_node_idx as int,
            ),
            tree_depths@ == fl.subrange(0, i as int),
        decreases forest@.len() - i,
    {
        let d = tree_max_traversal_depth_superscalar(forest[i].as_slice(), 0);
        tree_depths.push(d);
        i = i + 1;
        assert(tree_depths@ =~= fl.subrange(0, i as int));
    }
    assert(tree_depths@ =~= fl);
    // Sort trees by depth descending for tighter greedy packing.
    let indexed = order_by_depth_desc(&tree_depths);
    let mut depths: Vec<usize> = Vec::new();
    let mut k: usize = 0;
    while k < indexed.len()
        invariant
            0 <= k <= indexed@.len(),
            depths@ == pair_depths(indexed@).subrange(0, k as int),
        decreases indexed@.len() - k,
    {
        depths.push(indexed[k].1);
        k = k + 1;
        assert(depths@ =~= pair_depths(indexed@).subrange(0, k as int));
    }
    assert(depths@ =~= pair_depths(indexed@));
    let ghost order = pair_ids(indexed@);
    let ghost lines = arrange(fl, order);
    assert(depths@ =~= lines) by {
        assert forall|k: int| 0 <= k < depths@.len() implies depths@[k] == lines[k] by {
            assert(indexed@[k].1 == tree_depths@[indexed@[k].0 as int]);
        }
    }
    // Binary search on the maximum allowed sum.
    let mut lo: usize = 0;
    let mut hi: usize = 0;
    let mut k: usize = 0;
    while k < depths.len()
        invariant
            0 <= k <= depths@.len(),
            depth_sum(depths@) <= usize::MAX,
            lo == max_of(depths@.subrange(0, k as int)),
            hi == depth_sum(depths@.subrange(0, k as int)),
        decreases depths@.len() - k,
    {
        proof {
            lemma_depth_sum_prefix(depths@, k as int);
            assert(depths@.subrange(0, k + 1).drop_last() =~= depths@.subrange(0, k as int));
        }
        if depths[k] > lo {
            lo = depths[k];
        }
        hi = hi + depths[k];
        k = k + 1;
    }
    assert(depths@.subrange(0, depths@.len() as int) =~= depths@);
    let ghost lo0 = lo as int;
    proof {
        lemma_max_of_le_sum(depths@);
        lemma_greedy_total(depths@, hi as int);
    }
    while lo < hi
        invariant
            depth_sum(depths@) <= usize::MAX,
            lo0 <= lo <= hi,
            1 < cells <= 0xff,
            fits_in_cells(depths@, hi as int, cells as int),
            forall|t: int| lo0 <= t < lo ==> !fits_in_cells(depths@, t, cells as int),
        decreases hi - lo,
    {
        let mid = lo + (hi - lo) / 2;
        if can_fit(&depths, mid, cells) {
            hi = mid;
        } else {
            proof {
                assert forall|t: int| lo0 <= t < mid + 1 implies !fits_in_cells(depths@, t, cells as int) by {
                    if lo <= t && fits_in_cells(depths@, t, cells as int) {
                        lemma_greedy_monotone(depths@, t, mid as int);
                    }
                }
            }
            lo = mid + 1;
        }
    }
    let optimal_max = lo;
    proof {
        assert(is_least_fit(lines, cells as int, max_of(lines), optimal_max as int));
        let s = least_fit(lines, cells as int);
        assert(is_least_fit(lines, cells as int, max_of(lines), s));
        if s < optimal_max {
            assert(!fits_in_cells(lines, s, cells as int));
        }
        if optimal_max < s {
            assert(!fits_in_cells(lines, optimal_max as int, cells as int));
        }
        assert(s == optimal_max);
    }
    // Greedily assign trees to partitions using the optimal max sum.
    let ghost arranged = arrange(tv, order);
    let mut partitions: Vec<Vec<Vec<Node>>> = Vec::new();
    let mut c: usize = 0;
    while c < cells
        invariant
            0 <= c <= cells,
            partitions@.len() == c,
            forall|q: int| 0 <= q < c ==> (#[trigger] partitions@[q])@.len() == 0,
        decreases cells - c,
    {
        partitions.push(Vec::new());
        c = c + 1;
    }
    assert(cells_view(partitions@) =~= distribute(arranged.subrange(0, 0), Seq::<int>::empty(), cells as int)) by {
        assert forall|q: int| 0 <= q < cells implies #[trigger] cells_view(partitions@)[q] == Seq::<Seq<Node>>::empty() by {
            assert(trees_view(partitions@[q]@) =~= Seq::<Seq<Node>>::empty());
        }
    }
    let mut current_sum: usize = 0;
    let mut current_partition: usize = 0;
    let mut k: usize = 0;
    while k < indexed.len()
        invariant
            cells > 1,
            depths@ == lines,
            depths@ == pair_depths(indexed@),
            depth_sum(depths@) <= usize::MAX,
            order == pair_ids(indexed@),
            is_order_of(order, forest@.len() as int),
            tv == trees_view(forest@),
            arranged == arrange(tv, order),
            0 <= k <= indexed@.len(),
            indexed@.len() == depths@.len(),
            partitions@.len() == cells,
            ({
                let g = greedy_assign(depths@.subrange(0, k as int), optimal_max as int, cells as int);
                &&& g.1 == current_partition as int
                &&& g.2 == current_sum as int
                &&& cells_view(partitions@) == distribute(arranged.subrange(0, k as int), g.0, cells as int)
            }),
        decreases indexed@.len() - k,
    {
        let (orig_idx, depth) = indexed[k];
        let ghost g0 = greedy_assign(depths@.subrange(0, k as int), optimal_max as int, cells as int);
        proof {
            lemma_depth_sum_prefix(depths@, k as int);
            lemma_greedy_assign_bounds(depths@.subrange(0, k as int), optimal_max as int, cells as int);
            assert(depths@.subrange(0, k + 1).drop_last() =~= depths@.subrange(0, k as int));
            assert(depths@[k as int] == depth);
            assert(order[k as int] == orig_idx);
            assert((orig_idx as int) < forest@.len());
        }
        if current_partition + 1 < cells && current_sum + depth > optimal_max {
            current_partition = current_partition + 1;
            current_sum = depth;
        } else {
            current_sum = current_sum + depth;
        }
        let t = copy_tree(&forest[orig_idx]);
        let ghost before = partitions@;
        let mut cell = partitions.remove(current_partition);
        cell.push(t);
        partitions.insert(current_partition, cell);
        proof {
            let g1 = greedy_assign(depths@.subrange(0, k + 1), optimal_max as int, cells as int);
            assert(g1.0 == g0.0.push(current_partition as int));
            assert(arranged.subrange(0, k + 1).drop_last() =~= arranged.subrange(0, k as int));
            assert(arranged[k as int] == t@);
            let prev = distribute(arranged.subrange(0, k as int), g0.0, cells as int);
            lemma_distribute_len(arranged.subrange(0, k as int), g0.0, cells as int);
            assert(g1.0.drop_last() =~= g0.0);
            assert(distribute(arranged.subrange(0, k + 1), g1.0, cells as int) == prev.update(
                current_partition as int,
                prev[current_partition as int].push(t@),
            ));
            assert(cells_view(partitions@) =~= prev.update(current_partition as int, prev[current_partition as int].push(t@))) by {
                assert forall|q: int| 0 <= q < cells implies #[trigger] cells_view(partitions@)[q] == prev.update(
                    current_partition as int,
                    prev[current_partition as int].push(t@),
                )[q] by {
                    if q == current_partition as int {
                        assert(trees_view(partitions@[q]@) =~= trees_view(before[q]@).push(t@));
                    } else {
                        assert(partitions@[q] == before[q]);
                    }
                }
            }
        }
        k = k + 1;
    }
    assert(arranged.subrange(0, indexed@.len() as int) =~= arranged);
    assert(depths@.subrange(0, depths@.len() as int) =~= depths@);
    proof {
        assert forall|a: int, b: int| 0 <= a < b < lines.len() implies lines[a] >= lines[b] by {
            assert(indexed@[a].1 >= indexed@[b].1);
        }
    }
    partitions
}

/// The cells are the trees in some order, cut into equal chunks.
pub open spec fn random_cells(tv: Seq<Seq<Node>>, cells: int, rv: Seq<Seq<Seq<Node>>>) -> bool {
    exists|order: Seq<usize>| #[trigger] is_order_of(order, tv.len() as int) && rv == equal_chunks(arrange(tv, order), cells)
}

/// The cells are the trees, deepest first, cut into equal chunks.
pub open spec fn sorted_cells(tv: Seq<Seq<Node>>, cells: int, rv: Seq<Seq<Seq<Node>>>) -> bool {
    exists|order: Seq<usize>| #[trigger] is_order_of(order, tv.len() as int) && deepest_first(tv, order) && rv == equal_chunks(
        arrange(tv, order),
        cells,
    )
}

/// The cells are the trees, deepest first in cache lines, assigned greedily
/// under the least per-cell sum that fits.
pub open spec fn greedy_cells(tv: Seq<Seq<Node>>, cells: int, rv: Seq<Seq<Seq<Node>>>) -> bool {
    exists|order: Seq<usize>| #[trigger] is_order_of(order, tv.len() as int) && {
        let lines = arrange(forest_lines(tv), order);
        &&& forall|a: int, b: int| #![trigger lines[a], lines[b]] 0 <= a < b < lines.len() ==> lines[a] >= lines[b] && (lines[a] == lines[b] ==> order[a] < order[b])
        &&& rv == distribute(arrange(tv, order), greedy_assign(lines, least_fit(lines, cells), cells).0, cells)
    }
}

/// What partitioning the trees `tv` into `cells` cells with `strategy` gives:
/// a single cell holding every tree when there is at most one cell.
pub open spec fn partition_result(strategy: PartitionStrategy, tv: Seq<Seq<Node>>, cells: int, rv: Seq<Seq<Seq<Node>>>) -> bool {
    if cells <= 1 {
        rv == seq![tv]
    } else {
        match strategy {
            PartitionStrategy::Greedy => greedy_cells(tv, cells, rv),
            PartitionStrategy::EqualRandom => random_cells(tv, cells, rv),
            PartitionStrategy::EqualSorted => sorted_cells(tv, cells, rv),
        }
    }
}

impl PartitionStrategy {
    /// Partition the compiled trees into `num_cells` cells with this strategy.
    pub fn partition(&self, forest: &[Vec<Node>], num_cells: u8) -> (r: Vec<Vec<Vec<Node>>>)
        requires
            forall|k: int| 0 <= k < forest@.len() ==> compiled_tree_ok(#[trigger] forest@[k]@),
            *self is Greedy ==> depth_sum(forest_lines(trees_view(forest@))) <= usize::MAX,
        ensures
            partition_result(*self, trees_view(forest@), num_cells as int, cells_view(r@)),
    {
        let ghost tv = trees_view(forest@);
        match self {
            PartitionStrategy::Greedy => {
                let r = partition_greedy_search(forest, num_cells);
                assert(num_cells > 1 ==> greedy_cells(tv, num_cells as int, cells_view(r@)));
                r
            },
            PartitionStrategy::EqualRandom => {
                let r = partition_equal_random(forest, num_cells);
                assert(num_cells > 1 ==> random_cells(tv, num_cells as int, cells_view(r@)));
                r
            },
            PartitionStrategy::EqualSorted => {
                let r = partition_equal_sorted(forest, num_cells);
                assert(num_cells > 1 ==> sorted_cells(tv, num_cells as int, cells_view(r@)));
                r
            },
        }
    }
}

pub proof fn lemma_distribute_sizes(trees: Seq<Seq<Node>>, assign: Seq<int>, cells: int)
    requires
        cells >= 0,
        assign.len() == trees.len(),
        forall|k: int| 0 <= k < assign.len() ==> 0 <= #[trigger] assign[k] < cells,
    ensures
        distribute(trees, assign, cells).len() == cells,
        forall|c: int| 0 <= c < cells ==> (#[trigger] distribute(trees, assign, cells)[c]).len() <= trees.len(),
    decreases trees.len(),
{
    if trees.len() > 0 {
        lemma_distribute_sizes(trees.drop_last(), assign.drop_last(), cells);
        let prev = distribute(trees.drop_last(), assign.drop_last(), cells);
        let d = distribute(trees, assign, cells);
        assert(assign.last() == assign[assign.len() - 1]);
        assert forall|c: int| 0 <= c < cells implies (#[trigger] d[c]).len() <= trees.len() by {
            assert(prev[c].len() <= trees.len() - 1);
        }
    }
}

/// No cell holds more trees than the forest.
/// The size of the largest cell when `n` trees are cut into `cells` equal
/// chunks (one cell when `cells` is at most one).
pub open spec fn largest_equal_cell(n: int, cells: int) -> int {
    if cells <= 1 {
        n
    } else {
        n / cells + if 0 < n % cells { 1int } else { 0int }
    }
}

/// The cells of an equal partition all fit under `limit` exactly when the
/// largest does.
pub proof fn lemma_equal_cells_fit(strategy: PartitionStrategy, tv: Seq<Seq<Node>>, cells: int, rv: Seq<Seq<Seq<Node>>>, limit: int)
    requires
        partition_result(strategy, tv, cells, rv),
        strategy !is Greedy,
    ensures
        (forall|c: int| 0 <= c < rv.len() ==> (#[trigger] rv[c]).len() <= limit) <==> largest_equal_cell(tv.len() as int, cells)
            <= limit,
{
    let n = tv.len() as int;
    if cells <= 1 {
        assert(rv[0] == tv);
    } else {
        let order = choose|order: Seq<usize>| #[trigger] is_order_of(order, tv.len() as int) && rv == equal_chunks(
            arrange(tv, order),
            cells,
        );
        let s = arrange(tv, order);
        assert(s.len() == n);
        lemma_chunk_start(n, cells, 0);
        assert(rv[0].len() == largest_equal_cell(n, cells));
        assert forall|c: int| 0 <= c < rv.len() implies (#[trigger] rv[c]).len() <= largest_equal_cell(n, cells) by {
            lemma_chunk_start(n, cells, c);
        }
    }
}

pub proof fn lemma_partition_cell_sizes(strategy: PartitionStrategy, tv: Seq<Seq<Node>>, cells: int, rv: Seq<Seq<Seq<Node>>>)
    requires
        partition_result(strategy, tv, cells, rv),
    ensures
        forall|c: int| 0 <= c < rv.len() ==> (#[trigger] rv[c]).len() <= tv.len(),
{
    if cells > 1 {
        let n = tv.len() as int;
        match strategy {
            PartitionStrategy::Greedy => {
                let order = choose|order: Seq<usize>| #[trigger] is_order_of(order, tv.len() as int) && {
                    let lines = arrange(forest_lines(tv), order);
                    &&& forall|a: int, b: int| 0 <= a < b < lines.len() ==> lines[a] >= lines[b]
                    &&& rv == distribute(arrange(tv, order), greedy_assign(lines, least_fit(lines, cells), cells).0, cells)
                };
                let lines = arrange(forest_lines(tv), order);
                lemma_greedy_assign_bounds(lines, least_fit(lines, cells), cells);
                lemma_distribute_sizes(arrange(tv, order), greedy_assign(lines, least_fit(lines, cells), cells).0, cells);
            },
            _ => {
                let order = choose|order: Seq<usize>| #[trigger] is_order_of(order, tv.len() as int) && rv == equal_chunks(
                    arrange(tv, order),
                    cells,
                );
                assert forall|c: int| 0 <= c < rv.len() implies (#[trigger] rv[c]).len() <= tv.len() by {
                    lemma_chunk_start(n, cells, c);
                }
            },
        }
    }
}

} // verus!
