//! A compiled forest votes as its trees do: the nodes that compilation lays
//! out hold one compiled tree per tree of the forest, in some order, and each
//! compiled tree votes for the class its tree predicts. So a model made of
//! those nodes gives every class the votes the forest gives it.

use vstd::prelude::*;

use super::tree_compiler::{compiled_slots, compiles_tree, lemma_compiled_slots_predict, placement_compilable, valid_placement, LinkedNode};
use super::tree_partition::{
    arrange, chunk_start, distribute, equal_chunks, forest_lines, greedy_assign, is_order_of, least_fit, lemma_chunk_start,
    lemma_distribute_sizes, lemma_greedy_assign_bounds, partition_result, PartitionStrategy,
};
use super::checks::{lemma_voted_class_has_tree, lemma_walk_ends_at_leaf};
use super::paired::{compiled_paired_forest, compiles_paired, is_paired_tree, lemma_paired_tree_predicts, paired_ok, root_is_double_prediction};
use super::tree_compiler::{compiled_branch, holds_id, ir_tree_wf, is_placed, lemma_position_in, linked_from, position_in};
use super::tree_compiler::orders::tree_is_finite;
use crate::model::acyclic::{
    lemma_in_bounds_reached, lemma_tree_root, passes_before, points_to, reach_ends, reached_in_bounds, tree_is_acyclic, tree_passes,
    trees_in_bounds,
};
use super::{
    best_class, is_best_class, lemma_best_class_unique, lemma_count_predictions_bound, lemma_ir_paths_end_walk,
    lemma_vote_table_has_last, vote_table, cell_header, cell_marked, compiled_forest, concat_cells, concat_trees, count_predictions, forest_predicts, leaves_fit,
    tree_compilable, tree_prediction, tree_predicts, Node, Tree,
};
use crate::model;
use crate::model::{
    is_winning_class, header_bytes, lemma_header_decode_encode, MAX_NUM_CLASSES, chain_ok, count_votes, first_node_at, headers_from, headers_walkable, model_votes, paths_end, predictable, tree_at,
    tree_headers_of, tree_len_at, tree_vote,
};

verus! {

/// The class that the compiled tree `x` (its header at node 0) votes for.
pub open spec fn vote_of(x: Seq<model::Node>, features: Seq<u16>) -> int {
    tree_vote(x, 0, features) as int
}

/// One step of counting the items that satisfy `p`.
pub open spec fn count_step<T>(p: spec_fn(T) -> bool) -> spec_fn(nat, T) -> nat {
    |acc: nat, x: T| acc + if p(x) { 1nat } else { 0nat }
}

/// The number of items of `s` that satisfy `p`.
pub open spec fn count_where<T>(s: Seq<T>, p: spec_fn(T) -> bool) -> nat {
    s.fold_left(0nat, count_step(p))
}

/// One step of a vote count for class `c`.
pub open spec fn vote_step(features: Seq<u16>, c: int) -> spec_fn(nat, Seq<model::Node>) -> nat {
    count_step(|x: Seq<model::Node>| vote_of(x, features) == c)
}

/// The number of compiled trees among `ts` that vote for class `c`.
pub open spec fn vote_count(ts: Seq<Seq<model::Node>>, features: Seq<u16>, c: int) -> nat {
    ts.fold_left(0nat, vote_step(features, c))
}

proof fn lemma_vote_count_push(ts: Seq<Seq<model::Node>>, x: Seq<model::Node>, features: Seq<u16>, c: int)
    ensures
        vote_count(ts.push(x), features, c) == vote_count(ts, features, c) + if vote_of(x, features) == c { 1nat } else { 0nat },
{
    assert(ts.push(x).drop_last() =~= ts);
}

proof fn lemma_vote_count_append(a: Seq<Seq<model::Node>>, b: Seq<Seq<model::Node>>, features: Seq<u16>, c: int)
    ensures
        vote_count(a + b, features, c) == vote_count(a, features, c) + vote_count(b, features, c),
    decreases b.len(),
{
    if b.len() == 0 {
        assert(a + b =~= a);
    } else {
        lemma_vote_count_append(a, b.drop_last(), features, c);
        assert((a + b).drop_last() =~= a + b.drop_last());
        assert((a + b).last() == b.last());
    }
}

/// Trees that vote alike, position by position, give the same count.
proof fn lemma_vote_count_pointwise(a: Seq<Seq<model::Node>>, b: Seq<Seq<model::Node>>, features: Seq<u16>, c: int)
    requires
        a.len() == b.len(),
        forall|i: int| 0 <= i < a.len() ==> vote_of(#[trigger] a[i], features) == vote_of(b[i], features),
    ensures
        vote_count(a, features, c) == vote_count(b, features, c),
    decreases a.len(),
{
    if a.len() > 0 {
        lemma_vote_count_pointwise(a.drop_last(), b.drop_last(), features, c);
        assert(vote_of(a[a.len() - 1], features) == vote_of(b[b.len() - 1], features));
    }
}

/// A fold over mapped items is a fold over the items with the map applied.
proof fn lemma_fold_map(order: Seq<usize>, s: Seq<Seq<model::Node>>, features: Seq<u16>, c: int)
    ensures
        order.map_values(|k: usize| s[k as int]).fold_left(0nat, vote_step(features, c)) == order.fold_left(
            0nat,
            |acc: nat, k: usize| vote_step(features, c)(acc, s[k as int]),
        ),
    decreases order.len(),
{
    if order.len() > 0 {
        lemma_fold_map(order.drop_last(), s, features, c);
        assert(order.map_values(|k: usize| s[k as int]).drop_last() =~= order.drop_last().map_values(|k: usize| s[k as int]));
    }
}

/// The indices `0..n`.
pub open spec fn index_range(n: int) -> Seq<usize> {
    Seq::new(n as nat, |i: int| i as usize)
}

/// An order of `0..n` holds the same indices as `0..n`.
proof fn lemma_order_multiset(order: Seq<usize>, n: int)
    requires
        crate::compiler::tree_partition::is_order_of(order, n),
        n <= usize::MAX + 1,
    ensures
        order.to_multiset() =~= index_range(n).to_multiset(),
{
    let r = index_range(n);
    assert(r.no_duplicates());
    order.unique_seq_to_set();
    r.unique_seq_to_set();
    assert(order.to_set().subset_of(r.to_set())) by {
        assert forall|x: usize| order.to_set().contains(x) implies r.to_set().contains(x) by {
            let k = choose|k: int| 0 <= k < order.len() && order[k] == x;
            assert(r[x as int] == x);
        }
    }
    vstd::set_lib::lemma_subset_equality(order.to_set(), r.to_set());
    order.lemma_multiset_has_no_duplicates();
    r.lemma_multiset_has_no_duplicates();
    assert forall|x: usize| order.to_multiset().count(x) == r.to_multiset().count(x) by {
        order.to_multiset_ensures();
        r.to_multiset_ensures();
        if order.contains(x) {
            assert(order.to_set().contains(x));
            assert(r.to_set().contains(x));
        } else {
            assert(!order.to_set().contains(x));
            assert(!r.to_set().contains(x));
        }
    }
}

/// Counting votes does not depend on the order of the trees.
proof fn lemma_vote_count_arrange(s: Seq<Seq<model::Node>>, order: Seq<usize>, features: Seq<u16>, c: int)
    requires
        crate::compiler::tree_partition::is_order_of(order, s.len() as int),
        s.len() <= usize::MAX + 1,
    ensures
        vote_count(crate::compiler::tree_partition::arrange(s, order), features, c) == vote_count(s, features, c),
{
    let n = s.len() as int;
    let r = index_range(n);
    let g = |acc: nat, k: usize| vote_step(features, c)(acc, s[k as int]);
    lemma_order_multiset(order, n);
    assert(vstd::seq_lib::commutative_foldl(g));
    vstd::seq_lib::lemma_fold_left_permutation(order, r, g, 0nat);
    lemma_fold_map(order, s, features, c);
    lemma_fold_map(r, s, features, c);
    assert(r.map_values(|k: usize| s[k as int]) =~= s);
}

/// The trees of the cells, one cell after the other.
pub open spec fn flat_cells(s: Seq<Seq<Seq<model::Node>>>) -> Seq<Seq<model::Node>>
    decreases s.len(),
{
    if s.len() == 0 {
        Seq::empty()
    } else {
        flat_cells(s.drop_last()) + s.last()
    }
}

proof fn lemma_concat_trees_append(a: Seq<Seq<model::Node>>, b: Seq<Seq<model::Node>>)
    ensures
        concat_trees(a + b) == concat_trees(a) + concat_trees(b),
    decreases b.len(),
{
    if b.len() == 0 {
        assert(a + b =~= a);
        assert(concat_trees(a) + concat_trees(b) =~= concat_trees(a));
    } else {
        lemma_concat_trees_append(a, b.drop_last());
        assert((a + b).drop_last() =~= a + b.drop_last());
        assert((a + b).last() == b.last());
        assert(concat_trees(a) + concat_trees(b) =~= concat_trees(a) + concat_trees(b.drop_last()) + b.last());
    }
}

/// The nodes of the cells are the nodes of their trees, one after the other.
proof fn lemma_concat_cells_flat(s: Seq<Seq<Seq<model::Node>>>)
    ensures
        concat_cells(s) == concat_trees(flat_cells(s)),
    decreases s.len(),
{
    if s.len() > 0 {
        lemma_concat_cells_flat(s.drop_last());
        lemma_concat_trees_append(flat_cells(s.drop_last()), s.last());
    }
}

/// A compiled tree that carries its own length: its header, at node 0,
/// gives the tree's length.
pub open spec fn delimited(x: Seq<model::Node>) -> bool {
    &&& x.len() > 0
    &&& tree_len_at(x, 0) == x.len()
}

/// The chain of headers from `i` reaches the end of `p` exactly.
pub open spec fn ends_at(p: Seq<model::Node>, i: int) -> bool
    decreases p.len() - i,
{
    if i == p.len() {
        true
    } else if 0 <= i < p.len() {
        let tl = tree_len_at(p, i);
        tl > 0 && i + tl <= p.len() && ends_at(p, i + tl)
    } else {
        false
    }
}

/// Appending a tree that carries its length to nodes whose chain ends at
/// their end adds its header to the chain.
proof fn lemma_headers_append(p: Seq<model::Node>, l: Seq<model::Node>, i: int)
    requires
        0 <= i <= p.len(),
        ends_at(p, i),
        delimited(l),
        p.len() + l.len() <= usize::MAX,
    ensures
        headers_from(p + l, i) == headers_from(p, i).push(p.len() as usize),
        chain_ok(p + l, i),
        ends_at(p + l, i),
    decreases p.len() - i,
{
    let n = p + l;
    if i == p.len() {
        assert(n[i] == l[0]);
        assert(headers_from(p, i) =~= Seq::<usize>::empty());
        assert(i + tree_len_at(n, i) == n.len());
        assert(ends_at(n, i + tree_len_at(n, i)));
    } else {
        let tl = tree_len_at(p, i);
        assert(n[i] == p[i]);
        lemma_headers_append(p, l, i + tl);
        if i + tl < p.len() {
            assert(headers_from(p, i) == seq![i as usize] + headers_from(p, i + tl));
        } else {
            assert(headers_from(p, i) == seq![i as usize]);
            assert(headers_from(p, i + tl) =~= Seq::<usize>::empty());
        }
        assert(headers_from(n, i) == seq![i as usize] + headers_from(n, i + tl));
        assert(headers_from(n, i) =~= headers_from(p, i).push(p.len() as usize));
    }
}

/// Where the trees start in the nodes they make, one after the other.
pub open spec fn tree_offsets(ts: Seq<Seq<model::Node>>) -> Seq<usize>
    decreases ts.len(),
{
    if ts.len() == 0 {
        Seq::empty()
    } else {
        tree_offsets(ts.drop_last()).push(concat_trees(ts.drop_last()).len() as usize)
    }
}

/// The header chain of trees laid one after the other is the chain of their
/// starts.
proof fn lemma_concat_headers(ts: Seq<Seq<model::Node>>)
    requires
        forall|k: int| 0 <= k < ts.len() ==> delimited(#[trigger] ts[k]),
        concat_trees(ts).len() <= usize::MAX,
    ensures
        ends_at(concat_trees(ts), 0),
        ts.len() > 0 ==> chain_ok(concat_trees(ts), 0),
        headers_from(concat_trees(ts), 0) == tree_offsets(ts),
        tree_offsets(ts).len() == ts.len(),
    decreases ts.len(),
{
    if ts.len() > 0 {
        let p = concat_trees(ts.drop_last());
        assert forall|k: int| 0 <= k < ts.drop_last().len() implies delimited(#[trigger] ts.drop_last()[k]) by {
            assert(ts.drop_last()[k] == ts[k]);
        }
        lemma_concat_headers(ts.drop_last());
        assert(delimited(ts[ts.len() - 1]));
        lemma_headers_append(p, ts.last(), 0);
    } else {
        assert(headers_from(concat_trees(ts), 0) =~= Seq::<usize>::empty());
    }
}

/// Where tree `k` starts: after the trees before it.
proof fn lemma_offsets(ts: Seq<Seq<model::Node>>)
    ensures
        tree_offsets(ts).len() == ts.len(),
        forall|k: int| 0 <= k < ts.len() ==> #[trigger] tree_offsets(ts)[k] == concat_trees(ts.take(k)).len() as usize,
    decreases ts.len(),
{
    if ts.len() > 0 {
        lemma_offsets(ts.drop_last());
        assert forall|k: int| 0 <= k < ts.len() implies #[trigger] tree_offsets(ts)[k] == concat_trees(ts.take(k)).len() as usize by {
            if k < ts.len() - 1 {
                assert(ts.drop_last().take(k) =~= ts.take(k));
            } else {
                assert(ts.take(k) =~= ts.drop_last());
            }
        }
    }
}

/// Each tree sits at its start in the nodes that the trees make.
proof fn lemma_concat_tree_at(ts: Seq<Seq<model::Node>>, k: int)
    requires
        forall|j: int| 0 <= j < ts.len() ==> delimited(#[trigger] ts[j]),
        0 <= k < ts.len(),
        concat_trees(ts).len() <= usize::MAX,
    ensures
        tree_offsets(ts).len() == ts.len(),
        tree_at(concat_trees(ts), tree_offsets(ts)[k] as int) == ts[k],
        first_node_at(concat_trees(ts), tree_offsets(ts)[k] as int) == first_node_at(ts[k], 0),
        tree_offsets(ts)[k] + ts[k].len() <= concat_trees(ts).len(),
        tree_len_at(concat_trees(ts), tree_offsets(ts)[k] as int) == ts[k].len(),
{
    lemma_offsets(ts);
    let a = ts.take(k);
    let b = ts.skip(k + 1);
    lemma_concat_trees_append(ts.take(k + 1), b);
    assert(ts.take(k + 1) + b =~= ts);
    assert(ts.take(k + 1).drop_last() =~= a);
    assert(concat_trees(ts.take(k + 1)) == concat_trees(a) + ts[k]);
    let n = concat_trees(ts);
    let o = concat_trees(a).len() as int;
    assert(n == concat_trees(a) + ts[k] + concat_trees(b));
    assert(tree_offsets(ts)[k] as int == o);
    assert(n[o] == ts[k][0]);
    assert(tree_at(n, o) =~= ts[k]);
}

/// A tree carrying its length is the tree at its own header.
proof fn lemma_tree_at_self(x: Seq<model::Node>)
    requires
        delimited(x),
    ensures
        tree_at(x, 0) == x,
{
    assert(tree_at(x, 0) =~= x);
}

/// The votes over headers `hs` of the nodes are the votes of the trees `ts`
/// when each header holds the corresponding tree.
proof fn lemma_count_votes_pointwise(nodes: Seq<model::Node>, hs: Seq<usize>, ts: Seq<Seq<model::Node>>, features: Seq<u16>, c: int)
    requires
        hs.len() == ts.len(),
        forall|k: int| 0 <= k < hs.len() ==> tree_vote(nodes, #[trigger] hs[k] as int, features) as int == vote_of(ts[k], features),
    ensures
        count_votes(nodes, hs, features, c) == vote_count(ts, features, c),
    decreases hs.len(),
{
    if hs.len() > 0 {
        lemma_count_votes_pointwise(nodes, hs.drop_last(), ts.drop_last(), features, c);
        assert(tree_vote(nodes, hs[hs.len() - 1] as int, features) as int == vote_of(ts[ts.len() - 1], features));
    }
}

/// Trees that carry their lengths, laid one after the other, vote as the
/// trees do, and a prediction over them runs to its end when it does over
/// each of them.
pub proof fn lemma_concat_votes(ts: Seq<Seq<model::Node>>, features: Seq<u16>)
    requires
        ts.len() > 0,
        forall|k: int| 0 <= k < ts.len() ==> delimited(#[trigger] ts[k]),
        forall|k: int| 0 <= k < ts.len() ==> model::tree_predicts(#[trigger] ts[k], 0, features.len()),
        concat_trees(ts).len() <= usize::MAX,
    ensures
        predictable(concat_trees(ts), features.len()),
        forall|c: int| #[trigger] model_votes(concat_trees(ts), features, c) == vote_count(ts, features, c),
{
    let n = concat_trees(ts);
    lemma_concat_headers(ts);
    let hs = tree_offsets(ts);
    assert(tree_headers_of(n) == hs);
    assert forall|k: int| 0 <= k < hs.len() implies tree_vote(n, #[trigger] hs[k] as int, features) as int == vote_of(ts[k], features)
        && model::tree_predicts(n, hs[k] as int, features.len()) by {
        lemma_concat_tree_at(ts, k);
        lemma_tree_at_self(ts[k]);
        let h = hs[k] as int;
        assert(tree_at(n, h) == tree_at(ts[k], 0));
        assert(first_node_at(n, h) == first_node_at(ts[k], 0));
        assert(model::tree_predicts(ts[k], 0, features.len()));
    }
    assert(headers_walkable(n)) by {
        assert(n.len() >= ts[0].len()) by {
            lemma_concat_tree_at(ts, 0);
        }
    }
    assert forall|c: int| #[trigger] model_votes(n, features, c) == vote_count(ts, features, c) by {
        lemma_count_votes_pointwise(n, hs, ts, features, c);
    }
}

/// `x` is a compiled tree of `t`: a header at node 0 giving the tree's
/// length and its first branch at node 1, then the slots of a valid
/// placement of `t`.
pub open spec fn compiled_from(t: Seq<Node>, x: Seq<model::Node>) -> bool {
    &&& delimited(x)
    &&& first_node_at(x, 0) == 1
    &&& exists|placed: Seq<LinkedNode>| valid_placement(t, placed) && placement_compilable(placed) && #[trigger] compiled_slots(placed, x, 1)
}

proof fn lemma_compiles_tree_compiled_from(t: Seq<Node>, x: Seq<model::Node>)
    requires
        compiles_tree(t, x),
    ensures
        compiled_from(t, x),
{
    let placed = choose|placed: Seq<LinkedNode>| valid_placement(t, placed) && placement_compilable(placed)
        && super::tree_compiler::is_compiled_tree(placed, x);
    assert(compiled_slots(placed, x, 1));
}

/// A compiled tree votes for the class its tree predicts.
proof fn lemma_compiled_from_votes(t: Seq<Node>, x: Seq<model::Node>, features: Seq<u16>)
    requires
        compiled_from(t, x),
        leaves_fit(t),
        tree_predicts(t, features.len()),
        t.len() > 0 && t[0] is Branch,
    ensures
        model::tree_predicts(x, 0, features.len()),
        vote_of(x, features) == tree_prediction(t, features) as int,
{
    let placed = choose|placed: Seq<LinkedNode>| valid_placement(t, placed) && placement_compilable(placed) && #[trigger] compiled_slots(
        placed,
        x,
        1,
    );
    lemma_compiled_slots_predict(t, placed, x, 1, features);
    lemma_tree_at_self(x);
    let fuel = choose|fuel: nat| paths_end(tree_at(x, 0), first_node_at(x, 0), features.len(), fuel);
    assert(paths_end(x, 1, features.len(), fuel));
}

/// Marking the header of a compiled tree as a cell header keeps it a compiled
/// tree of the same tree.
proof fn lemma_marked_compiled_from(t: Seq<Node>, x: Seq<model::Node>, y: Seq<model::Node>, num: int)
    requires
        compiled_from(t, x),
        y.len() == x.len(),
        forall|j: int| 1 <= j < x.len() ==> y[j] == x[j],
        y[0].0@ == header_bytes(cell_header(x[0].header(), num)),
    ensures
        compiled_from(t, y),
{
    lemma_header_decode_encode(cell_header(x[0].header(), num));
    assert(y[0].header() == cell_header(x[0].header(), num));
    let placed = choose|placed: Seq<LinkedNode>| valid_placement(t, placed) && placement_compilable(placed) && #[trigger] compiled_slots(
        placed,
        x,
        1,
    );
    assert(compiled_slots(placed, y, 1));
}

/// Every tree of the flattened cells is a tree of some cell.
proof fn lemma_flat_cells_index(s: Seq<Seq<Seq<model::Node>>>, j: int)
    requires
        0 <= j < flat_cells(s).len(),
    ensures
        exists|c: int, k: int| 0 <= c < s.len() && 0 <= k < s[c].len() && flat_cells(s)[j] == #[trigger] s[c][k],
    decreases s.len(),
{
    let p = flat_cells(s.drop_last());
    if j < p.len() {
        lemma_flat_cells_index(s.drop_last(), j);
        let (c, k) = choose|c: int, k: int| 0 <= c < s.drop_last().len() && 0 <= k < s.drop_last()[c].len() && p[j]
            == #[trigger] s.drop_last()[c][k];
        assert(s[c] == s.drop_last()[c]);
        assert(flat_cells(s)[j] == s[c][k]);
    } else {
        assert(flat_cells(s)[j] == s.last()[j - p.len()]);
        assert(s[s.len() - 1][j - p.len()] == flat_cells(s)[j]);
    }
}

/// Cells that count alike, cell by cell, count alike once flattened.
proof fn lemma_flat_cells_votes(a: Seq<Seq<Seq<model::Node>>>, b: Seq<Seq<Seq<model::Node>>>, features: Seq<u16>, c: int)
    requires
        a.len() == b.len(),
        forall|i: int| 0 <= i < a.len() ==> vote_count(#[trigger] a[i], features, c) == vote_count(b[i], features, c),
        forall|i: int| 0 <= i < a.len() ==> (#[trigger] a[i]).len() == b[i].len(),
    ensures
        vote_count(flat_cells(a), features, c) == vote_count(flat_cells(b), features, c),
        flat_cells(a).len() == flat_cells(b).len(),
    decreases a.len(),
{
    if a.len() > 0 {
        lemma_flat_cells_votes(a.drop_last(), b.drop_last(), features, c);
        lemma_vote_count_append(flat_cells(a.drop_last()), a.last(), features, c);
        lemma_vote_count_append(flat_cells(b.drop_last()), b.last(), features, c);
        assert(vote_count(a[a.len() - 1], features, c) == vote_count(b[b.len() - 1], features, c));
        assert(a[a.len() - 1].len() == b[b.len() - 1].len());
    }
}

/// Cutting a sequence into equal chunks and laying the chunks one after the
/// other gives the sequence back.
proof fn lemma_flat_equal_chunks(s: Seq<Seq<model::Node>>, cells: int)
    requires
        cells > 0,
    ensures
        flat_cells(equal_chunks(s, cells)) == s,
{
    let n = s.len() as int;
    let e = equal_chunks(s, cells);
    assert forall|k: int| 0 <= k <= cells implies flat_cells(#[trigger] e.take(k)) == s.subrange(0, chunk_start(n, cells, k)) by {
        lemma_flat_chunks_prefix(s, cells, k);
    }
    lemma_chunk_start(n, cells, cells - 1);
    assert(e.take(cells) =~= e);
    assert(s.subrange(0, n) =~= s);
}

proof fn lemma_flat_chunks_prefix(s: Seq<Seq<model::Node>>, cells: int, k: int)
    requires
        cells > 0,
        0 <= k <= cells,
    ensures
        flat_cells(equal_chunks(s, cells).take(k)) == s.subrange(0, chunk_start(s.len() as int, cells, k)),
    decreases k,
{
    let n = s.len() as int;
    let e = equal_chunks(s, cells);
    if k == 0 {
        lemma_chunk_start(n, cells, 0);
        assert(flat_cells(e.take(0)) =~= Seq::<Seq<model::Node>>::empty());
        assert(s.subrange(0, 0) =~= Seq::<Seq<model::Node>>::empty());
    } else {
        lemma_flat_chunks_prefix(s, cells, k - 1);
        lemma_chunk_start(n, cells, k - 1);
        assert(e.take(k).drop_last() =~= e.take(k - 1));
        assert(e.take(k).last() == e[k - 1]);
        assert(s.subrange(0, chunk_start(n, cells, k)) =~= s.subrange(0, chunk_start(n, cells, k - 1)) + e[k - 1]);
    }
}

/// The trees of each cell, counted cell by cell.
pub open spec fn cells_count(s: Seq<Seq<Seq<model::Node>>>, features: Seq<u16>, c: int) -> nat
    decreases s.len(),
{
    if s.len() == 0 {
        0
    } else {
        cells_count(s.drop_last(), features, c) + vote_count(s.last(), features, c)
    }
}

proof fn lemma_cells_count_flat(s: Seq<Seq<Seq<model::Node>>>, features: Seq<u16>, c: int)
    ensures
        vote_count(flat_cells(s), features, c) == cells_count(s, features, c),
    decreases s.len(),
{
    if s.len() > 0 {
        lemma_cells_count_flat(s.drop_last(), features, c);
        lemma_vote_count_append(flat_cells(s.drop_last()), s.last(), features, c);
    }
}

proof fn lemma_cells_len_flat(s: Seq<Seq<Seq<model::Node>>>)
    ensures
        flat_cells(s).len() == cells_len(s),
    decreases s.len(),
{
    if s.len() > 0 {
        lemma_cells_len_flat(s.drop_last());
    }
}

/// The number of trees of the cells.
pub open spec fn cells_len(s: Seq<Seq<Seq<model::Node>>>) -> nat
    decreases s.len(),
{
    if s.len() == 0 {
        0
    } else {
        cells_len(s.drop_last()) + s.last().len()
    }
}

proof fn lemma_cells_update(s: Seq<Seq<Seq<model::Node>>>, a: int, v: Seq<Seq<model::Node>>, features: Seq<u16>, c: int)
    requires
        0 <= a < s.len(),
    ensures
        cells_count(s.update(a, v), features, c) + vote_count(s[a], features, c) == cells_count(s, features, c) + vote_count(
            v,
            features,
            c,
        ),
        cells_len(s.update(a, v)) + s[a].len() == cells_len(s) + v.len(),
    decreases s.len(),
{
    if a < s.len() - 1 {
        lemma_cells_update(s.drop_last(), a, v, features, c);
        assert(s.update(a, v).drop_last() =~= s.drop_last().update(a, v));
        assert(s.update(a, v).last() == s.last());
    } else {
        assert(s.update(a, v).drop_last() =~= s.drop_last());
    }
}

proof fn lemma_cells_empty(cells: int, features: Seq<u16>, c: int)
    requires
        cells >= 0,
    ensures
        cells_count(Seq::new(cells as nat, |i: int| Seq::<Seq<model::Node>>::empty()), features, c) == 0,
        cells_len(Seq::new(cells as nat, |i: int| Seq::<Seq<model::Node>>::empty())) == 0,
    decreases cells,
{
    if cells > 0 {
        lemma_cells_empty(cells - 1, features, c);
        let s = Seq::new(cells as nat, |i: int| Seq::<Seq<model::Node>>::empty());
        assert(s.drop_last() =~= Seq::new((cells - 1) as nat, |i: int| Seq::<Seq<model::Node>>::empty()));
        assert(vote_count(s.last(), features, c) == 0);
    }
}

/// Distributing trees over cells keeps their count and their votes, and
/// every tree of a cell is one of the trees.
proof fn lemma_distribute_votes(ts: Seq<Seq<model::Node>>, assign: Seq<int>, cells: int, features: Seq<u16>, c: int)
    requires
        cells > 0,
        assign.len() == ts.len(),
        forall|k: int| 0 <= k < assign.len() ==> 0 <= #[trigger] assign[k] < cells,
    ensures
        cells_count(distribute(ts, assign, cells), features, c) == vote_count(ts, features, c),
        cells_len(distribute(ts, assign, cells)) == ts.len(),
        forall|d: int, k: int| 0 <= d < distribute(ts, assign, cells).len() && 0 <= k < distribute(ts, assign, cells)[d].len()
            ==> ts.contains(#[trigger] distribute(ts, assign, cells)[d][k]),
    decreases ts.len(),
{
    lemma_distribute_sizes(ts, assign, cells);
    if ts.len() == 0 {
        lemma_cells_empty(cells, features, c);
    } else {
        let prev = distribute(ts.drop_last(), assign.drop_last(), cells);
        let a = assign.last();
        lemma_distribute_votes(ts.drop_last(), assign.drop_last(), cells, features, c);
        lemma_distribute_sizes(ts.drop_last(), assign.drop_last(), cells);
        assert(assign.last() == assign[assign.len() - 1]);
        lemma_cells_update(prev, a, prev[a].push(ts.last()), features, c);
        lemma_vote_count_push(prev[a], ts.last(), features, c);
        lemma_vote_count_push(ts.drop_last(), ts.last(), features, c);
        assert(ts.drop_last().push(ts.last()) =~= ts);
        let d0 = distribute(ts, assign, cells);
        assert forall|d: int, k: int| 0 <= d < d0.len() && 0 <= k < d0[d].len() implies ts.contains(#[trigger] d0[d][k]) by {
            if d == a && k == prev[a].len() {
                assert(d0[d][k] == ts[ts.len() - 1]);
            } else {
                assert(d0[d][k] == prev[d][k]);
                assert(ts.drop_last().contains(prev[d][k]));
                let m = choose|m: int| 0 <= m < ts.drop_last().len() && ts.drop_last()[m] == prev[d][k];
                assert(ts[m] == prev[d][k]);
            }
        }
    }
}

/// Partitioning compiled trees into cells keeps their count and their votes,
/// and every tree of a cell is one of the compiled trees.
proof fn lemma_partition_votes(
    strategy: PartitionStrategy,
    tv: Seq<Seq<model::Node>>,
    cells: int,
    rv: Seq<Seq<Seq<model::Node>>>,
    features: Seq<u16>,
    c: int,
)
    requires
        partition_result(strategy, tv, cells, rv),
        tv.len() <= usize::MAX,
    ensures
        vote_count(flat_cells(rv), features, c) == vote_count(tv, features, c),
        flat_cells(rv).len() == tv.len(),
        forall|d: int, k: int| 0 <= d < rv.len() && 0 <= k < rv[d].len() ==> tv.contains(#[trigger] rv[d][k]),
{
    let n = tv.len() as int;
    if cells <= 1 {
        assert(flat_cells(rv) =~= tv) by {
            assert(rv.drop_last() =~= Seq::<Seq<Seq<model::Node>>>::empty());
            assert(flat_cells(rv.drop_last()) =~= Seq::<Seq<model::Node>>::empty());
            assert(rv.last() == tv);
        }
    } else {
        match strategy {
            PartitionStrategy::Greedy => {
                let order = choose|order: Seq<usize>| #[trigger] is_order_of(order, n) && {
                    let lines = arrange(forest_lines(tv), order);
                    &&& forall|a: int, b: int| 0 <= a < b < lines.len() ==> lines[a] >= lines[b]
                    &&& rv == distribute(arrange(tv, order), greedy_assign(lines, least_fit(lines, cells), cells).0, cells)
                };
                let lines = arrange(forest_lines(tv), order);
                let assign = greedy_assign(lines, least_fit(lines, cells), cells).0;
                let ts = arrange(tv, order);
                lemma_greedy_assign_bounds(lines, least_fit(lines, cells), cells);
                lemma_distribute_votes(ts, assign, cells, features, c);
                lemma_cells_count_flat(rv, features, c);
                lemma_cells_len_flat(rv);
                lemma_vote_count_arrange(tv, order, features, c);
                assert forall|d: int, k: int| 0 <= d < rv.len() && 0 <= k < rv[d].len() implies tv.contains(#[trigger] rv[d][k]) by {
                    assert(ts.contains(rv[d][k]));
                    let m = choose|m: int| 0 <= m < ts.len() && ts[m] == rv[d][k];
                    assert(tv[order[m] as int] == rv[d][k]);
                }
            },
            _ => {
                let order = choose|order: Seq<usize>| #[trigger] is_order_of(order, n) && rv == equal_chunks(arrange(tv, order), cells);
                let ts = arrange(tv, order);
                lemma_flat_equal_chunks(ts, cells);
                lemma_vote_count_arrange(tv, order, features, c);
                assert forall|d: int, k: int| 0 <= d < rv.len() && 0 <= k < rv[d].len() implies tv.contains(#[trigger] rv[d][k]) by {
                    lemma_chunk_start(n, cells, d);
                    let m = chunk_start(n, cells, d) + k;
                    assert(rv[d][k] == ts[m]);
                    assert(tv[order[m] as int] == rv[d][k]);
                }
            },
        }
    }
}

/// A tree of the forest whose compiled trees vote as it predicts.
pub open spec fn tree_votes_ok(t: Seq<Node>, num_features: nat) -> bool {
    &&& tree_compilable(t)
    &&& leaves_fit(t)
    &&& tree_predicts(t, num_features)
}

/// The compiled trees vote as their trees predict.
proof fn lemma_compiled_votes(trees: Seq<Tree>, compiled: Seq<Seq<model::Node>>, features: Seq<u16>, c: int)
    requires
        compiled.len() == trees.len(),
        forall|i: int| 0 <= i < trees.len() ==> compiles_tree(#[trigger] trees[i].nodes@, compiled[i]),
        forall|i: int| 0 <= i < trees.len() ==> tree_votes_ok(#[trigger] trees[i].nodes@, features.len()),
        0 <= c < MAX_NUM_CLASSES,
    ensures
        vote_count(compiled, features, c) == count_predictions(trees, features, c as u16),
    decreases trees.len(),
{
    if trees.len() > 0 {
        let l = trees.len() - 1;
        assert forall|i: int| 0 <= i < l implies compiles_tree(#[trigger] trees.drop_last()[i].nodes@, compiled.drop_last()[i])
            && tree_votes_ok(trees.drop_last()[i].nodes@, features.len()) by {
            assert(trees.drop_last()[i] == trees[i]);
            assert(compiles_tree(trees[i].nodes@, compiled[i]));
            assert(tree_votes_ok(trees[i].nodes@, features.len()));
        }
        lemma_compiled_votes(trees.drop_last(), compiled.drop_last(), features, c);
        assert(compiles_tree(trees[l].nodes@, compiled[l]));
        assert(tree_votes_ok(trees[l].nodes@, features.len()));
        lemma_compiles_tree_compiled_from(trees[l].nodes@, compiled[l]);
        lemma_compiled_from_votes(trees[l].nodes@, compiled[l], features);
        assert(trees.last() == trees[l]);
        assert(compiled.last() == compiled[l]);
    }
}

/// The trees of a marked cell vote as the trees of the cell, carry their
/// lengths, and a prediction over each of them runs to its end.
proof fn lemma_marked_cell(
    trees: Seq<Tree>,
    compiled: Seq<Seq<model::Node>>,
    cell: Seq<Seq<model::Node>>,
    marked: Seq<Seq<model::Node>>,
    features: Seq<u16>,
)
    requires
        compiled.len() == trees.len(),
        forall|i: int| 0 <= i < trees.len() ==> compiles_tree(#[trigger] trees[i].nodes@, compiled[i]),
        forall|i: int| 0 <= i < trees.len() ==> tree_votes_ok(#[trigger] trees[i].nodes@, features.len()),
        forall|k: int| 0 <= k < cell.len() ==> compiled.contains(#[trigger] cell[k]),
        cell_marked(cell, marked),
    ensures
        marked.len() == cell.len(),
        forall|k: int| 0 <= k < marked.len() ==> {
            &&& vote_of(#[trigger] marked[k], features) == vote_of(cell[k], features)
            &&& delimited(marked[k])
            &&& model::tree_predicts(marked[k], 0, features.len())
        },
{
    assert forall|k: int| 0 <= k < marked.len() implies {
        &&& vote_of(#[trigger] marked[k], features) == vote_of(cell[k], features)
        &&& delimited(marked[k])
        &&& model::tree_predicts(marked[k], 0, features.len())
    } by {
        assert(compiled.contains(cell[k]));
        let i = choose|i: int| 0 <= i < compiled.len() && compiled[i] == cell[k];
        let t = trees[i].nodes@;
        assert(compiles_tree(t, compiled[i]));
        assert(tree_votes_ok(t, features.len()));
        lemma_compiles_tree_compiled_from(t, cell[k]);
        lemma_compiled_from_votes(t, cell[k], features);
        if k == 0 {
            assert(cell[0].len() > 0);
            lemma_marked_compiled_from(t, cell[k], marked[k], cell.len() as int);
        } else {
            assert(marked[k] =~= cell[k]);
        }
        lemma_compiled_from_votes(t, marked[k], features);
    }
}

/// A compiled forest votes as the forest: over the nodes that compilation
/// lays out, every class below `MAX_NUM_CLASSES` gets as many votes as there
/// are trees of the forest that predict it, for every feature vector on
/// which every tree's walk ends, and a prediction over those nodes runs to
/// its end. This holds for every placement and partition strategy and every
/// number of cells.
pub proof fn lemma_compiled_forest_votes(
    trees: Seq<Tree>,
    strategy: PartitionStrategy,
    cells: int,
    nodes: Seq<model::Node>,
    features: Seq<u16>,
)
    requires
        compiled_forest(trees, strategy, cells, nodes),
        0 < trees.len() <= usize::MAX,
        nodes.len() <= usize::MAX,
        forall|i: int| 0 <= i < trees.len() ==> tree_compilable(#[trigger] trees[i].nodes@) && leaves_fit(trees[i].nodes@),
        forest_predicts(trees, features.len()),
    ensures
        predictable(nodes, features.len()),
        forall|c: int| 0 <= c < MAX_NUM_CLASSES ==> #[trigger] model_votes(nodes, features, c) == count_predictions(
            trees,
            features,
            c as u16,
        ),
{
    let (compiled, parts, marked) = choose|compiled: Seq<Seq<model::Node>>, parts: Seq<Seq<Seq<model::Node>>>, marked: Seq<Seq<Seq<model::Node>>>|
        #![trigger partition_result(strategy, compiled, cells, parts), concat_cells(marked)]
        {
            &&& compiled.len() == trees.len()
            &&& forall|i: int| 0 <= i < trees.len() ==> compiles_tree(#[trigger] trees[i].nodes@, compiled[i])
            &&& partition_result(strategy, compiled, cells, parts)
            &&& marked.len() == parts.len()
            &&& forall|c: int| 0 <= c < parts.len() ==> cell_marked(#[trigger] parts[c], marked[c])
            &&& nodes == concat_cells(marked)
        };
    assert forall|i: int| 0 <= i < trees.len() implies tree_votes_ok(#[trigger] trees[i].nodes@, features.len()) by {
        assert(tree_compilable(trees[i].nodes@) && leaves_fit(trees[i].nodes@));
        assert(tree_predicts(trees[i].nodes@, features.len()));
    }
    lemma_partition_votes(strategy, compiled, cells, parts, features, 0);
    assert forall|d: int| 0 <= d < parts.len() implies {
        &&& (#[trigger] marked[d]).len() == parts[d].len()
        &&& forall|k: int| 0 <= k < marked[d].len() ==> {
            &&& vote_of(#[trigger] marked[d][k], features) == vote_of(parts[d][k], features)
            &&& delimited(marked[d][k])
            &&& model::tree_predicts(marked[d][k], 0, features.len())
        }
    } by {
        assert(cell_marked(parts[d], marked[d]));
        lemma_marked_cell(trees, compiled, parts[d], marked[d], features);
    }
    let fm = flat_cells(marked);
    assert forall|j: int| 0 <= j < fm.len() implies delimited(#[trigger] fm[j]) && model::tree_predicts(fm[j], 0, features.len()) by {
        lemma_flat_cells_index(marked, j);
        let (d, k) = choose|d: int, k: int| 0 <= d < marked.len() && 0 <= k < marked[d].len() && fm[j] == #[trigger] marked[d][k];
        assert(marked[d].len() == parts[d].len());
    }
    assert forall|d: int| 0 <= d < marked.len() implies vote_count(#[trigger] marked[d], features, 0) == vote_count(parts[d], features, 0) by {
        lemma_vote_count_pointwise(marked[d], parts[d], features, 0);
    }
    lemma_flat_cells_votes(marked, parts, features, 0);
    lemma_concat_cells_flat(marked);
    lemma_concat_votes(fm, features);
    assert forall|c: int| 0 <= c < MAX_NUM_CLASSES implies #[trigger] model_votes(nodes, features, c) == count_predictions(
        trees,
        features,
        c as u16,
    ) by {
        lemma_partition_votes(strategy, compiled, cells, parts, features, c);
        assert forall|d: int| 0 <= d < marked.len() implies vote_count(#[trigger] marked[d], features, c) == vote_count(parts[d], features, c) by {
            lemma_vote_count_pointwise(marked[d], parts[d], features, c);
        }
        lemma_flat_cells_votes(marked, parts, features, c);
        lemma_compiled_votes(trees, compiled, features, c);
    }
}

/// A tree whose leaves fit the vote table predicts a class below
/// `MAX_NUM_CLASSES`.
proof fn lemma_prediction_fits(t: Seq<Node>, features: Seq<u16>)
    requires
        leaves_fit(t),
        tree_predicts(t, features.len()),
    ensures
        (tree_prediction(t, features) as int) < MAX_NUM_CLASSES,
{
    let fuel = choose|fuel: nat| super::ir_paths_end(t, 0, features.len(), fuel);
    lemma_ir_paths_end_walk(t, 0, features, fuel);
    lemma_walk_ends_at_leaf(t, 0, features, fuel);
}

/// Where a model's votes are the forest's votes, the model's winning class
/// is the forest's best class.
proof fn lemma_winning_is_best(trees: Seq<Tree>, nodes: Seq<model::Node>, features: Seq<u16>, r: int)
    requires
        0 < trees.len() <= usize::MAX,
        forall|i: int| 0 <= i < trees.len() ==> leaves_fit(#[trigger] trees[i].nodes@),
        forest_predicts(trees, features.len()),
        forall|c: int| 0 <= c < MAX_NUM_CLASSES ==> #[trigger] model_votes(nodes, features, c) == count_predictions(
            trees,
            features,
            c as u16,
        ),
        is_winning_class(|c: int| model_votes(nodes, features, c), r),
    ensures
        r == best_class(vote_table(trees, features)) as int,
{
    let table = vote_table(trees, features);
    let votes = |c: int| model_votes(nodes, features, c);
    // Every class with votes fits the vote table.
    assert forall|k: u16| #[trigger] table.contains_key(k) implies (k as int) < MAX_NUM_CLASSES by {
        lemma_voted_class_has_tree(trees, features, k);
        let i = choose|i: int| 0 <= i < trees.len() && tree_prediction(#[trigger] trees[i].nodes@, features) == k;
        assert(leaves_fit(trees[i].nodes@));
        lemma_prediction_fits(trees[i].nodes@, features);
    }
    // The last tree's class has a vote, so the winning class has one.
    lemma_vote_table_has_last(trees, features);
    let p = tree_prediction(trees.last().nodes@, features);
    assert(votes(p as int) == count_predictions(trees, features, p));
    assert(votes(p as int) <= votes(r));
    assert(votes(r) == count_predictions(trees, features, r as u16));
    assert(table.contains_key(r as u16));
    assert forall|k: u16| #[trigger] table.contains_key(k) implies table[k] <= table[r as u16] by {
        lemma_count_predictions_bound(trees, features, k);
        lemma_count_predictions_bound(trees, features, r as u16);
        assert(votes(k as int) <= votes(r));
    }
    assert forall|k: u16| #[trigger] table.contains_key(k) && table[k] == table[r as u16] implies r as u16 <= k by {
        lemma_count_predictions_bound(trees, features, k);
        lemma_count_predictions_bound(trees, features, r as u16);
        if (k as int) < r {
            assert(votes(k as int) < votes(r));
        }
    }
    assert(is_best_class(table, r as u16));
    lemma_best_class_unique(table, r as u16);
}

/// The class that a model made of the compiled nodes predicts (the class
/// with the most votes, the lowest on a tie) is the class that the forest
/// predicts, for every placement and partition strategy and every number of
/// cells.
pub proof fn lemma_compiled_forest_predicts_as_forest(
    trees: Seq<Tree>,
    strategy: PartitionStrategy,
    cells: int,
    nodes: Seq<model::Node>,
    features: Seq<u16>,
    r: int,
)
    requires
        compiled_forest(trees, strategy, cells, nodes),
        0 < trees.len() <= usize::MAX,
        nodes.len() <= usize::MAX,
        forall|i: int| 0 <= i < trees.len() ==> tree_compilable(#[trigger] trees[i].nodes@) && leaves_fit(trees[i].nodes@),
        forest_predicts(trees, features.len()),
        is_winning_class(|c: int| model_votes(nodes, features, c), r),
    ensures
        r == best_class(vote_table(trees, features)) as int,
{
    lemma_compiled_forest_votes(trees, strategy, cells, nodes, features);
    lemma_winning_is_best(trees, nodes, features, r);
}

/// Items that satisfy their predicates alike, position by position, count
/// alike.
proof fn lemma_count_pointwise<A, B>(a: Seq<A>, b: Seq<B>, p: spec_fn(A) -> bool, q: spec_fn(B) -> bool)
    requires
        a.len() == b.len(),
        forall|i: int| 0 <= i < a.len() ==> p(#[trigger] a[i]) == q(b[i]),
    ensures
        count_where(a, p) == count_where(b, q),
    decreases a.len(),
{
    if a.len() > 0 {
        lemma_count_pointwise(a.drop_last(), b.drop_last(), p, q);
        assert(p(a[a.len() - 1]) == q(b[b.len() - 1]));
    }
}

proof fn lemma_count_fold_map<T>(order: Seq<usize>, s: Seq<T>, p: spec_fn(T) -> bool)
    ensures
        order.map_values(|k: usize| s[k as int]).fold_left(0nat, count_step(p)) == order.fold_left(
            0nat,
            |acc: nat, k: usize| count_step(p)(acc, s[k as int]),
        ),
    decreases order.len(),
{
    if order.len() > 0 {
        lemma_count_fold_map(order.drop_last(), s, p);
        assert(order.map_values(|k: usize| s[k as int]).drop_last() =~= order.drop_last().map_values(|k: usize| s[k as int]));
    }
}

/// Counting does not depend on the order of the items.
proof fn lemma_count_arrange<T>(s: Seq<T>, order: Seq<usize>, p: spec_fn(T) -> bool)
    requires
        is_order_of(order, s.len() as int),
        s.len() <= usize::MAX + 1,
    ensures
        count_where(arrange(s, order), p) == count_where(s, p),
{
    let n = s.len() as int;
    let r = index_range(n);
    let g = |acc: nat, k: usize| count_step(p)(acc, s[k as int]);
    lemma_order_multiset(order, n);
    assert(vstd::seq_lib::commutative_foldl(g));
    vstd::seq_lib::lemma_fold_left_permutation(order, r, g, 0nat);
    lemma_count_fold_map(order, s, p);
    lemma_count_fold_map(r, s, p);
    assert(r.map_values(|k: usize| s[k as int]) =~= s);
}

/// The trees that predict class `c`, counted.
proof fn lemma_count_predictions_where(trees: Seq<Tree>, features: Seq<u16>, c: u16)
    ensures
        count_predictions(trees, features, c) == count_where(trees, |t: Tree| tree_prediction(t.nodes@, features) == c),
    decreases trees.len(),
{
    if trees.len() > 0 {
        lemma_count_predictions_where(trees.drop_last(), features, c);
    }
}

/// A tree compiled with the pairing placement votes for the class its tree
/// predicts.
proof fn lemma_paired_votes(t: Seq<Node>, x: Seq<model::Node>, features: Seq<u16>)
    requires
        ir_tree_wf(t),
        compiles_paired(t, x),
        !root_is_double_prediction(t),
        leaves_fit(t),
        tree_predicts(t, features.len()),
    ensures
        delimited(x),
        model::tree_predicts(x, 0, features.len()),
        vote_of(x, features) == tree_prediction(t, features) as int,
{
    reveal(compiles_paired);
    let placed = choose|placed: Seq<LinkedNode>| paired_ok(t, placed) && placement_compilable(placed) && is_paired_tree(placed, x);
    lemma_paired_tree_predicts(t, x, features);
    lemma_tree_at_self(x);
    let fuel = choose|fuel: nat| paths_end(tree_at(x, 0), first_node_at(x, 0), features.len(), fuel);
    assert(paths_end(x, 2, features.len(), fuel));
}

/// The headers of a forest compiled with the pairing placement follow one
/// another exactly when it has a tree, one header per tree.
pub proof fn lemma_paired_forest_headers(trees: Seq<Tree>, nodes: Seq<model::Node>)
    requires
        compiled_paired_forest(trees, nodes),
        nodes.len() <= usize::MAX,
    ensures
        headers_walkable(nodes) <==> trees.len() > 0,
        trees.len() > 0 ==> tree_headers_of(nodes).len() == trees.len(),
{
    let (order, compiled) = choose|order: Seq<usize>, compiled: Seq<Seq<model::Node>>|
        #![trigger is_order_of(order, trees.len() as int), concat_trees(compiled)]
        {
            &&& is_order_of(order, trees.len() as int)
            &&& super::paired::shortest_first(trees, order)
            &&& compiled.len() == trees.len()
            &&& forall|i: int| 0 <= i < trees.len() ==> compiles_paired(trees[order[i] as int].nodes@, #[trigger] compiled[i])
            &&& nodes == concat_trees(compiled)
        };
    assert forall|k: int| 0 <= k < compiled.len() implies delimited(#[trigger] compiled[k]) by {
        let t = trees[order[k] as int].nodes@;
        reveal(compiles_paired);
        let placed = choose|placed: Seq<LinkedNode>| paired_ok(t, placed) && placement_compilable(placed) && is_paired_tree(
            placed,
            compiled[k],
        );
    }
    lemma_concat_headers(compiled);
    if trees.len() > 0 {
        lemma_concat_tree_at(compiled, 0);
    } else {
        assert(nodes =~= Seq::<model::Node>::empty());
    }
}

/// A forest compiled with the pairing placement votes as the forest: over
/// its nodes, every class below `MAX_NUM_CLASSES` gets as many votes as there
/// are trees of the forest that predict it, for every feature vector on
/// which every tree's walk ends, and a prediction over those nodes runs to
/// its end. A tree whose root has two leaf children is left out.
pub proof fn lemma_paired_forest_votes(trees: Seq<Tree>, nodes: Seq<model::Node>, features: Seq<u16>)
    requires
        compiled_paired_forest(trees, nodes),
        0 < trees.len() <= usize::MAX,
        nodes.len() <= usize::MAX,
        forall|i: int| 0 <= i < trees.len() ==> ir_tree_wf(#[trigger] trees[i].nodes@) && !root_is_double_prediction(trees[i].nodes@)
            && leaves_fit(trees[i].nodes@),
        forest_predicts(trees, features.len()),
    ensures
        predictable(nodes, features.len()),
        forall|c: int| 0 <= c < MAX_NUM_CLASSES ==> #[trigger] model_votes(nodes, features, c) == count_predictions(
            trees,
            features,
            c as u16,
        ),
{
    let n = trees.len() as int;
    let (order, compiled) = choose|order: Seq<usize>, compiled: Seq<Seq<model::Node>>|
        #![trigger is_order_of(order, trees.len() as int), concat_trees(compiled)]
        {
            &&& is_order_of(order, trees.len() as int)
            &&& super::paired::shortest_first(trees, order)
            &&& compiled.len() == trees.len()
            &&& forall|i: int| 0 <= i < trees.len() ==> compiles_paired(trees[order[i] as int].nodes@, #[trigger] compiled[i])
            &&& nodes == concat_trees(compiled)
        };
    let ts = arrange(trees, order);
    assert forall|i: int| 0 <= i < n implies {
        &&& delimited(#[trigger] compiled[i])
        &&& model::tree_predicts(compiled[i], 0, features.len())
        &&& vote_of(compiled[i], features) == tree_prediction(ts[i].nodes@, features) as int
    } by {
        let t = trees[order[i] as int].nodes@;
        assert(order[i] < n);
        assert(ir_tree_wf(t) && !root_is_double_prediction(t) && leaves_fit(t));
        assert(tree_predicts(t, features.len()));
        lemma_paired_votes(t, compiled[i], features);
    }
    lemma_concat_votes(compiled, features);
    assert forall|c: int| 0 <= c < MAX_NUM_CLASSES implies #[trigger] model_votes(nodes, features, c) == count_predictions(
        trees,
        features,
        c as u16,
    ) by {
        let pv = |x: Seq<model::Node>| vote_of(x, features) == c;
        let pt = |t: Tree| tree_prediction(t.nodes@, features) == c as u16;
        assert(vote_step(features, c) == count_step(pv)) by {
            assert(vote_step(features, c) =~= count_step(pv));
        }
        assert(vote_count(compiled, features, c) == count_where(compiled, pv));
        assert forall|i: int| 0 <= i < compiled.len() implies pv(#[trigger] compiled[i]) == pt(ts[i]) by {
            assert(vote_of(compiled[i], features) == tree_prediction(ts[i].nodes@, features) as int);
        }
        lemma_count_pointwise(compiled, ts, pv, pt);
        lemma_count_arrange(trees, order, pt);
        lemma_count_predictions_where(trees, features, c as u16);
    }
}

/// The class that a model made of a forest compiled with the pairing
/// placement predicts is the class that the forest predicts. A tree whose
/// root has two leaf children is left out.
pub proof fn lemma_paired_forest_predicts_as_forest(trees: Seq<Tree>, nodes: Seq<model::Node>, features: Seq<u16>, r: int)
    requires
        compiled_paired_forest(trees, nodes),
        0 < trees.len() <= usize::MAX,
        nodes.len() <= usize::MAX,
        forall|i: int| 0 <= i < trees.len() ==> ir_tree_wf(#[trigger] trees[i].nodes@) && !root_is_double_prediction(trees[i].nodes@)
            && leaves_fit(trees[i].nodes@),
        forest_predicts(trees, features.len()),
        is_winning_class(|c: int| model_votes(nodes, features, c), r),
    ensures
        r == best_class(vote_table(trees, features)) as int,
{
    lemma_paired_forest_votes(trees, nodes, features);
    lemma_winning_is_best(trees, nodes, features, r);
}

/// No branch of the tree has the root (node 0) as a child.
#[verifier::opaque]
pub open spec fn root_has_no_parent(t: Seq<Node>) -> bool {
    forall|i: int| 0 <= i < t.len() && (#[trigger] t[i]) is Branch ==> t[i]->Branch_0.left != 0 && t[i]->Branch_0.right != 0
}

/// `x` is a compiled tree of `t`, of even length, whose nodes after the
/// slots are padding.
pub open spec fn compiled_padded(t: Seq<Node>, x: Seq<model::Node>) -> bool {
    &&& delimited(x)
    &&& x.len() % 2 == 0
    &&& first_node_at(x, 0) == 1
    &&& exists|placed: Seq<LinkedNode>|
        #[trigger] compiled_slots(placed, x, 1) && valid_placement(t, placed) && placement_compilable(placed) && forall|i: int|
            placed.len() + 1 <= i < x.len() ==> x[i].spec_is_padding()
}

/// The header of `x` names node 1 as its first branch, node 1 is a branch to
/// which no node of `x` points, and every path from it ends.
pub open spec fn rooted_at_first(x: Seq<model::Node>) -> bool {
    &&& first_node_at(x, 0) == 1
    &&& 1 < x.len()
    &&& !x[1].spec_is_padding()
    &&& forall|i: int| 1 <= i < x.len() && !x[i].spec_is_padding() ==> !points_to(#[trigger] x[i].branch(), 1)
    &&& exists|fuel: nat| reach_ends(x, 1, fuel)
}

/// The padding node decodes as a branch of zeros.
proof fn lemma_padding_branch(n: model::Node)
    requires
        n.spec_is_padding(),
    ensures
        n.branch().left == 0 && n.branch().right == 0 && n.branch().split_at == 0 && n.branch().flags.0 == 0,
{
    let b = n.0@;
    assert(b[0] == 0 && b[1] == 0 && b[2] == 0 && b[3] == 0);
    assert(b[4] == 0 && b[5] == 0 && b[6] == 0 && b[7] == 0);
}

/// A compiled branch slot is not padding: a branch with a pointer child
/// points past the header, and one with a prediction child has a flag set.
proof fn lemma_slot_not_padding(t: Seq<Node>, placed: Seq<LinkedNode>, x: Seq<model::Node>, p: int)
    requires
        valid_placement(t, placed),
        placement_compilable(placed),
        compiled_slots(placed, x, 1),
        0 <= p < placed.len(),
        placed[p] is Branch,
    ensures
        !x[p + 1].spec_is_padding(),
{
    let e = placed[p]->Branch_0;
    let cb = x[p + 1].branch();
    assert(cb == compiled_branch(placed, e, 1));
    if x[p + 1].spec_is_padding() {
        lemma_padding_branch(x[p + 1]);
        assert(e.split_with <= 0x3fff);
        model::lemma_flags_decode(e.split_with, e.left_child is Prediction, e.right_child is Prediction);
        assert(!cb.flags.spec_left_prediction());
        if let super::tree_compiler::Branch::Ptr(j) = e.left_child {
            assert(is_placed(placed, j as int));
            lemma_position_in(placed, j as int);
            assert(cb.left as int == position_in(placed, j as int) + 1);
        }
    }
}

/// No node of a compiled tree points to node 1, where the root sits, when
/// no branch of the tree has the root as a child.
proof fn lemma_no_pointer_to_first(t: Seq<Node>, placed: Seq<LinkedNode>, x: Seq<model::Node>, i: int)
    requires
        root_has_no_parent(t),
        valid_placement(t, placed),
        placement_compilable(placed),
        compiled_slots(placed, x, 1),
        forall|q: int| placed.len() + 1 <= q < x.len() ==> x[q].spec_is_padding(),
        1 <= i < x.len(),
        !x[i].spec_is_padding(),
    ensures
        !points_to(x[i].branch(), 1),
{
    reveal(root_has_no_parent);
    let p = i - 1;
    assert(p < placed.len());
    assert(placed[p] is Branch) by {
        if placed[p] is Padding {
            assert(x[p + 1].spec_is_padding());
        }
    }
    let e = placed[p]->Branch_0;
    assert(linked_from(t, e));
    let b = t[e.id as int]->Branch_0;
    let cb = x[i].branch();
    assert(cb == compiled_branch(placed, e, 1));
    model::lemma_flags_decode(e.split_with, e.left_child is Prediction, e.right_child is Prediction);
    assert(is_placed(placed, 0)) by {
        assert(holds_id(placed[0], 0));
    }
    if let super::tree_compiler::Branch::Ptr(j) = e.left_child {
        lemma_position_in(placed, j as int);
        if position_in(placed, j as int) == 0 {
            assert(j == 0);
            assert(b.left == 0);
        }
    }
    if let super::tree_compiler::Branch::Ptr(j) = e.right_child {
        lemma_position_in(placed, j as int);
        if position_in(placed, j as int) == 0 {
            assert(j == 0);
            assert(b.right == 0);
        }
    }
}

/// From the slot of a branch whose paths end, every path of the compiled tree
/// ends, through branches that are not padding.
#[verifier::spinoff_prover]
#[verifier::rlimit(40)]
proof fn lemma_compiled_reach(t: Seq<Node>, placed: Seq<LinkedNode>, x: Seq<model::Node>, j: int, fuel: nat)
    requires
        valid_placement(t, placed),
        placement_compilable(placed),
        compiled_slots(placed, x, 1),
        super::ir_paths_end(t, j, 0x1_0000, fuel),
        t[j] is Branch,
        is_placed(placed, j),
    ensures
        reach_ends(x, position_in(placed, j) + 1, fuel),
    decreases fuel,
{
    lemma_position_in(placed, j);
    let p = position_in(placed, j);
    let e = placed[p]->Branch_0;
    assert(placed[p] is Branch);
    assert(linked_from(t, e));
    let b = t[j]->Branch_0;
    let cb = x[p + 1].branch();
    assert(cb == compiled_branch(placed, e, 1));
    lemma_slot_not_padding(t, placed, x, p);
    model::lemma_flags_decode(e.split_with, e.left_child is Prediction, e.right_child is Prediction);
    assert(super::ir_paths_end(t, b.left as int, 0x1_0000, (fuel - 1) as nat));
    assert(super::ir_paths_end(t, b.right as int, 0x1_0000, (fuel - 1) as nat));
    if t[b.left as int] is Branch {
        assert(e.left_child == super::tree_compiler::Branch::Ptr(b.left));
        lemma_position_in(placed, b.left as int);
        lemma_compiled_reach(t, placed, x, b.left as int, (fuel - 1) as nat);
        assert(cb.left as int == position_in(placed, b.left as int) + 1);
    }
    if t[b.right as int] is Branch {
        assert(e.right_child == super::tree_compiler::Branch::Ptr(b.right));
        lemma_position_in(placed, b.right as int);
        lemma_compiled_reach(t, placed, x, b.right as int, (fuel - 1) as nat);
        assert(cb.right as int == position_in(placed, b.right as int) + 1);
    }
}

/// A compiled tree of a finite tree whose root has no parent has its root
/// at node 1, pointed to by no node, with every path from it ending.
proof fn lemma_compiled_rooted(t: Seq<Node>, x: Seq<model::Node>)
    requires
        compiled_padded(t, x),
        ir_tree_wf(t),
        tree_is_finite(t),
        root_has_no_parent(t),
    ensures
        rooted_at_first(x),
{
    let placed = choose|placed: Seq<LinkedNode>|
        #[trigger] compiled_slots(placed, x, 1) && valid_placement(t, placed) && placement_compilable(placed) && forall|i: int|
            placed.len() + 1 <= i < x.len() ==> x[i].spec_is_padding();
    assert(placed[0] is Branch && holds_id(placed[0], 0));
    lemma_slot_not_padding(t, placed, x, 0);
    assert forall|i: int| 1 <= i < x.len() && !x[i].spec_is_padding() implies !points_to(#[trigger] x[i].branch(), 1) by {
        lemma_no_pointer_to_first(t, placed, x, i);
    }
    let f = choose|fuel: nat| super::ir_paths_end(t, 0, 0x1_0000, fuel);
    assert(is_placed(placed, 0));
    lemma_position_in(placed, 0);
    assert(position_in(placed, 0) == 0) by {
        if position_in(placed, 0) > 0 {
            assert(!holds_id(placed[0], 0));
        }
    }
    lemma_compiled_reach(t, placed, x, 0, f);
}

/// A tree rooted at its node 1 passes the acyclicity check wherever it sits.
proof fn lemma_rooted_acyclic(n: Seq<model::Node>, h: int, x: Seq<model::Node>)
    requires
        rooted_at_first(x),
        tree_at(n, h) == x,
        first_node_at(n, h) == 1,
    ensures
        tree_is_acyclic(n, h),
{
    reveal(tree_is_acyclic);
    let nl = n.len() as int;
    lemma_tree_root(x, 1, nl);
    assert(crate::model::acyclic::is_root_candidate(x, 1, nl, 1));
    let r = crate::model::acyclic::tree_root(x, 1, nl);
    assert(r == Some(1int)) by {
        if r is Some && r->0 > 1 {
            {
                assert(!crate::model::acyclic::is_root_candidate(x, 1, nl, 1));
            }
        }
    }
}

proof fn lemma_compiles_tree_padded(t: Seq<Node>, x: Seq<model::Node>)
    requires
        compiles_tree(t, x),
    ensures
        compiled_padded(t, x),
{
    let placed = choose|placed: Seq<LinkedNode>| valid_placement(t, placed) && placement_compilable(placed)
        && super::tree_compiler::is_compiled_tree(placed, x);
    assert(compiled_slots(placed, x, 1));
}

/// Marking the header of a compiled tree as a cell header keeps its slots
/// and padding.
proof fn lemma_marked_padded(t: Seq<Node>, x: Seq<model::Node>, y: Seq<model::Node>, num: int)
    requires
        compiled_padded(t, x),
        y.len() == x.len(),
        forall|j: int| 1 <= j < x.len() ==> y[j] == x[j],
        y[0].0@ == header_bytes(cell_header(x[0].header(), num)),
    ensures
        compiled_padded(t, y),
{
    lemma_header_decode_encode(cell_header(x[0].header(), num));
    assert(y[0].header() == cell_header(x[0].header(), num));
    let placed = choose|placed: Seq<LinkedNode>|
        #[trigger] compiled_slots(placed, x, 1) && valid_placement(t, placed) && placement_compilable(placed) && forall|i: int|
            placed.len() + 1 <= i < x.len() ==> x[i].spec_is_padding();
    assert(compiled_slots(placed, y, 1));
}

proof fn lemma_flat_cells_len(a: Seq<Seq<Seq<model::Node>>>, b: Seq<Seq<Seq<model::Node>>>)
    requires
        a.len() == b.len(),
        forall|i: int| 0 <= i < a.len() ==> (#[trigger] a[i]).len() == b[i].len(),
    ensures
        flat_cells(a).len() == flat_cells(b).len(),
    decreases a.len(),
{
    if a.len() > 0 {
        lemma_flat_cells_len(a.drop_last(), b.drop_last());
        assert(a[a.len() - 1].len() == b[b.len() - 1].len());
    }
}

/// The trees of a marked cell of compiled trees carry their lengths and are
/// rooted at their node 1.
proof fn lemma_marked_cell_rooted(trees: Seq<Tree>, compiled: Seq<Seq<model::Node>>, cell: Seq<Seq<model::Node>>, marked: Seq<Seq<model::Node>>)
    requires
        compiled.len() == trees.len(),
        forall|i: int| 0 <= i < trees.len() ==> compiles_tree(#[trigger] trees[i].nodes@, compiled[i]),
        forall|i: int| 0 <= i < trees.len() ==> tree_compilable(#[trigger] trees[i].nodes@) && root_has_no_parent(trees[i].nodes@),
        forall|k: int| 0 <= k < cell.len() ==> compiled.contains(#[trigger] cell[k]),
        cell_marked(cell, marked),
    ensures
        forall|k: int| 0 <= k < marked.len() ==> delimited(#[trigger] marked[k]) && rooted_at_first(marked[k]) && marked[k].len() % 2 == 0,
{
    assert forall|k: int| 0 <= k < marked.len() implies delimited(#[trigger] marked[k]) && rooted_at_first(marked[k]) && marked[k].len()
        % 2 == 0 by {
        assert(compiled.contains(cell[k]));
        let i = choose|i: int| 0 <= i < compiled.len() && compiled[i] == cell[k];
        let t = trees[i].nodes@;
        assert(compiles_tree(t, compiled[i]));
        assert(tree_compilable(t) && root_has_no_parent(t));
        lemma_compiles_tree_padded(t, cell[k]);
        if k == 0 {
            assert(cell[0].len() > 0);
            lemma_marked_padded(t, cell[k], marked[k], cell.len() as int);
        } else {
            assert(marked[k] =~= cell[k]);
        }
        lemma_compiled_rooted(t, marked[k]);
    }
}

/// Trees of even lengths, one after the other, make an even length.
proof fn lemma_concat_even(ts: Seq<Seq<model::Node>>)
    requires
        forall|k: int| 0 <= k < ts.len() ==> (#[trigger] ts[k]).len() % 2 == 0,
    ensures
        concat_trees(ts).len() % 2 == 0,
    decreases ts.len(),
{
    if ts.len() > 0 {
        assert forall|k: int| 0 <= k < ts.drop_last().len() implies (#[trigger] ts.drop_last()[k]).len() % 2 == 0 by {
            assert(ts.drop_last()[k] == ts[k]);
        }
        lemma_concat_even(ts.drop_last());
        assert(ts.last() == ts[ts.len() - 1]);
    }
}

/// Trees rooted at their node 1, of even lengths, laid one after the other,
/// pass the acyclicity check of a model, one header per tree.
#[verifier::spinoff_prover]
#[verifier::rlimit(60)]
proof fn lemma_laid_trees_pass(fm: Seq<Seq<model::Node>>, nodes: Seq<model::Node>)
    requires
        forall|j: int| 0 <= j < fm.len() ==> delimited(#[trigger] fm[j]) && rooted_at_first(fm[j]) && fm[j].len() % 2 == 0,
        nodes == concat_trees(fm),
        fm.len() > 0,
        nodes.len() <= usize::MAX,
    ensures
        trees_in_bounds(nodes),
        reached_in_bounds(nodes),
        tree_headers_of(nodes).len() == fm.len(),
        passes_before(nodes, tree_headers_of(nodes).len() as int),
{
    lemma_concat_headers(fm);
    lemma_offsets(fm);
    let hs = tree_offsets(fm);
    assert(tree_headers_of(nodes) == hs);
    lemma_concat_tree_at(fm, 0);
    assert(headers_walkable(nodes));
    assert forall|k: int| 0 <= k < hs.len() implies {
        let h = #[trigger] hs[k] as int;
        &&& h + tree_len_at(nodes, h) <= nodes.len()
        &&& tree_passes(nodes, h)
    } by {
        lemma_concat_tree_at(fm, k);
        lemma_tree_at_self(fm[k]);
        lemma_rooted_acyclic(nodes, hs[k] as int, fm[k]);
        let before = fm.take(k);
        assert forall|q: int| 0 <= q < before.len() implies (#[trigger] before[q]).len() % 2 == 0 by {
            assert(before[q] == fm[q]);
        }
        lemma_concat_even(before);
        lemma_concat_trees_append(before, fm.skip(k));
        assert(before + fm.skip(k) =~= fm);
        assert(hs[k] as int == concat_trees(before).len());
    }
    assert(trees_in_bounds(nodes));
    lemma_in_bounds_reached(nodes);
}

/// A compiled forest passes the acyclicity check of a model: over the nodes
/// that compilation lays out, the check reaches only trees within the nodes,
/// the header chain has one header per tree of the forest, every header sits
/// at an even node index, and in each tree the first branch is the root, to
/// which no node points, and every path from it ends. So a model of those
/// nodes with the forest's number of trees meets `verify_acyclic`'s
/// precondition, and the check gives `Ok`. This holds for every placement
/// and partition strategy and every number of cells, when no branch of a
/// tree has its root as a child.
#[verifier::spinoff_prover]
#[verifier::rlimit(80)]
pub proof fn lemma_compiled_forest_acyclic(trees: Seq<Tree>, strategy: PartitionStrategy, cells: int, nodes: Seq<model::Node>)
    requires
        compiled_forest(trees, strategy, cells, nodes),
        0 < trees.len() <= usize::MAX,
        nodes.len() <= usize::MAX,
        forall|i: int| 0 <= i < trees.len() ==> tree_compilable(#[trigger] trees[i].nodes@) && root_has_no_parent(trees[i].nodes@),
    ensures
        trees_in_bounds(nodes),
        reached_in_bounds(nodes),
        tree_headers_of(nodes).len() == trees.len(),
        passes_before(nodes, tree_headers_of(nodes).len() as int),
{
    let (compiled, parts, marked) = choose|compiled: Seq<Seq<model::Node>>, parts: Seq<Seq<Seq<model::Node>>>, marked: Seq<Seq<Seq<model::Node>>>|
        #![trigger partition_result(strategy, compiled, cells, parts), concat_cells(marked)]
        {
            &&& compiled.len() == trees.len()
            &&& forall|i: int| 0 <= i < trees.len() ==> compiles_tree(#[trigger] trees[i].nodes@, compiled[i])
            &&& partition_result(strategy, compiled, cells, parts)
            &&& marked.len() == parts.len()
            &&& forall|c: int| 0 <= c < parts.len() ==> cell_marked(#[trigger] parts[c], marked[c])
            &&& nodes == concat_cells(marked)
        };
    lemma_partition_votes(strategy, compiled, cells, parts, Seq::empty(), 0);
    assert forall|d: int, k: int| 0 <= d < marked.len() && 0 <= k < marked[d].len() implies delimited(#[trigger] marked[d][k])
        && rooted_at_first(marked[d][k]) && marked[d][k].len() % 2 == 0 by {
        assert(cell_marked(parts[d], marked[d]));
        lemma_marked_cell_rooted(trees, compiled, parts[d], marked[d]);
    }
    let fm = flat_cells(marked);
    assert forall|j: int| 0 <= j < fm.len() implies delimited(#[trigger] fm[j]) && rooted_at_first(fm[j]) && fm[j].len() % 2 == 0 by {
        lemma_flat_cells_index(marked, j);
        let (d, k) = choose|d: int, k: int| 0 <= d < marked.len() && 0 <= k < marked[d].len() && fm[j] == #[trigger] marked[d][k];
    }
    assert forall|d: int| 0 <= d < marked.len() implies (#[trigger] marked[d]).len() == parts[d].len() by {
        assert(cell_marked(parts[d], marked[d]));
    }
    lemma_flat_cells_len(marked, parts);
    lemma_concat_cells_flat(marked);
    assert(nodes == concat_trees(fm));
    assert(fm.len() == trees.len());
    lemma_laid_trees_pass(fm, nodes);
}

} // verus!
