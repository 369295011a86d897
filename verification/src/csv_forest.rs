//! Lowering of a forest given as CSV rows (one row per node) into trees of
//! the intermediate representation.

use vstd::prelude::*;

use crate::compiler::{BranchNode, InterRep, LeafNode, Node, Tree};
use crate::forest_model::ForestModel;
use crate::problem::{key_index, lemma_key_index, map_entries, name_lookup, ProblemDefinition};

verus! {

/// Why rows cannot be lowered.
#[derive(Clone, Copy, Debug, PartialEq, Eq, Structural)]
pub enum LowerError {
    /// A branch row has no left or no right daughter.
    MissingDaughter,
    /// A prediction row is not a classification prediction.
    NotClassification,
    /// More distinct feature or target names than a `u16` indexes.
    TooManyNames,
    /// A branch splits on a feature without an index.
    FeatureIdMissing,
    /// A leaf predicts a target without an index.
    TargetIdMissing,
    /// A row is neither a branch nor a leaf.
    NotBranchNorLeaf,
    /// The tree indices of the roots are not 1, 2, ... in some order.
    TreeIndexMismatch,
}

/// A marker for the kinds of node that a forest given as rows can hold.
pub trait NodeType {}

/// A single node of a forest given as CSV rows, in classification mode. The
/// split point is given as `bf16` bits.
pub struct CsvNode {
    /// Tree index. 1-indexed.
    pub tree_idx: usize,
    /// Node index. 1-indexed.
    pub node_idx: usize,
    /// Pointer to the left daughter (1-indexed; 0 for none).
    pub left: usize,
    /// Pointer to the right daughter (1-indexed; 0 for none).
    pub right: usize,
    /// The variable on which to split.
    pub split_on: Option<String>,
    /// The split point.
    pub split_at: u16,
    /// The node status: 1 for a branch, -1 for a prediction.
    pub status: i8,
    /// The predicted variable.
    pub prediction: Option<String>,
}

/// The name in an optional string, as characters.
pub open spec fn opt_name(s: Option<String>) -> Option<Seq<char>> {
    match s {
        Some(n) => Some(n@),
        None => None,
    }
}

/// The index of an optional name in a name map.
pub open spec fn opt_lookup(entries: Seq<(Seq<char>, u16)>, s: Option<String>) -> Option<u16> {
    match s {
        Some(n) => name_lookup(entries, n@),
        None => None,
    }
}

/// The node a row stands for: a branch when it splits (on the feature's
/// index, with 0-indexed daughters), else a leaf when it predicts (the
/// target's index).
pub open spec fn normalized(n: CsvNode, features: Seq<(Seq<char>, u16)>, targets: Seq<(Seq<char>, u16)>) -> Result<Node, LowerError> {
    if n.split_on is Some {
        match opt_lookup(features, n.split_on) {
            Some(f) => Ok(
                Node::Branch(BranchNode { split_with: f, split_at: n.split_at, left: (n.left - 1) as usize, right: (n.right - 1) as usize }),
            ),
            None => Err(LowerError::FeatureIdMissing),
        }
    } else if n.prediction is Some {
        match opt_lookup(targets, n.prediction) {
            Some(t) => Ok(Node::Leaf(LeafNode { prediction: t })),
            None => Err(LowerError::TargetIdMissing),
        }
    } else {
        Err(LowerError::NotBranchNorLeaf)
    }
}

impl CsvNode {
    /// The feature ID of this node's split variable.
    pub fn feature_id(&self, features_map: &indexmap::IndexMap<String, u16>) -> (r: Option<u16>)
        ensures
            r == opt_lookup(map_entries(*features_map), self.split_on),
    {
        match &self.split_on {
            Some(name) => crate::problem::name_map_get(features_map, name.as_str()),
            None => None,
        }
    }

    /// The target ID of this node's prediction.
    pub fn target_id(&self, targets_map: &indexmap::IndexMap<String, u16>) -> (r: Option<u16>)
        ensures
            r == opt_lookup(map_entries(*targets_map), self.prediction),
    {
        match &self.prediction {
            Some(name) => crate::problem::name_map_get(targets_map, name.as_str()),
            None => None,
        }
    }

    pub fn node_idx(&self) -> (i: usize)
        ensures
            i == self.node_idx,
    {
        self.node_idx
    }

    pub fn tree_idx(&self) -> (i: usize)
        ensures
            i == self.tree_idx,
    {
        self.tree_idx
    }

    /// The node this row stands for.
    pub fn normalize(&self, problem: &ProblemDefinition) -> (r: Result<Node, LowerError>)
        requires
            self.split_on is Some ==> self.left > 0 && self.right > 0,
        ensures
            r == normalized(*self, map_entries(problem.features_spec()), map_entries(problem.targets_spec())),
    {
        if self.split_on.is_some() {
            let split_with = match self.feature_id(problem.features()) {
                Some(f) => f,
                None => {
                    return Err(LowerError::FeatureIdMissing);
                },
            };
            let branch = BranchNode { split_with, split_at: self.split_at, left: self.left - 1, right: self.right - 1 };
            return Ok(Node::Branch(branch));
        } else if self.prediction.is_some() {
            let prediction = match self.target_id(problem.targets()) {
                Some(t) => t,
                None => {
                    return Err(LowerError::TargetIdMissing);
                },
            };
            return Ok(Node::Leaf(LeafNode { prediction }));
        }
        Err(LowerError::NotBranchNorLeaf)
    }
}

/// The distinct names among `names`, in order of first appearance.
pub open spec fn first_names(names: Seq<Option<Seq<char>>>) -> Seq<Seq<char>>
    decreases names.len(),
{
    if names.len() == 0 {
        Seq::empty()
    } else {
        let prev = first_names(names.drop_last());
        match names.last() {
            Some(n) => if prev.contains(n) {
                prev
            } else {
                prev.push(n)
            },
            None => prev,
        }
    }
}

/// Each name with its position as index.
pub open spec fn indexed_names(s: Seq<Seq<char>>) -> Seq<(Seq<char>, u16)> {
    Seq::new(s.len(), |i: int| (s[i], i as u16))
}

/// The split names of the rows.
pub open spec fn split_names(rows: Seq<CsvNode>) -> Seq<Option<Seq<char>>> {
    rows.map_values(|n: CsvNode| opt_name(n.split_on))
}

/// The prediction names of the rows.
pub open spec fn prediction_names(rows: Seq<CsvNode>) -> Seq<Option<Seq<char>>> {
    rows.map_values(|n: CsvNode| opt_name(n.prediction))
}

/// A row that splits has both daughters, and a row that predicts is a
/// classification prediction.
pub open spec fn row_ok(n: CsvNode) -> bool {
    &&& n.split_on is Some ==> n.left != 0 && n.right != 0
    &&& n.prediction is Some ==> n.status == -1
}

proof fn lemma_lookup_indexed(s: Seq<Seq<char>>, key: Seq<char>)
    requires
        s.len() <= 0x1_0000,
    ensures
        s.contains(key) <==> name_lookup(indexed_names(s), key) is Some,
{
    let e = indexed_names(s);
    lemma_key_index(e, key);
    if s.contains(key) {
        let k = choose|k: int| 0 <= k < s.len() && s[k] == key;
        assert(e[k].0 == key);
    }
}

/// The distinct names of a prefix are no more than those of the whole.
proof fn lemma_first_names_prefix(s: Seq<Option<Seq<char>>>, k: int)
    requires
        0 <= k <= s.len(),
    ensures
        first_names(s.subrange(0, k)).len() <= first_names(s).len(),
    decreases s.len(),
{
    if k == s.len() {
        assert(s.subrange(0, k) =~= s);
    } else {
        lemma_first_names_prefix(s.drop_last(), k);
        assert(s.drop_last().subrange(0, k) =~= s.subrange(0, k));
    }
}

/// Register a name: when it is new, it gets the next index.
fn register(
    problem: &mut ProblemDefinition,
    name: &String,
    count: &mut u16,
    features: bool,
    Ghost(seen): Ghost<Seq<Option<Seq<char>>>>,
) -> (r: Result<(), LowerError>)
    requires
        features ==> map_entries(old(problem).features_spec()) == indexed_names(first_names(seen)),
        !features ==> map_entries(old(problem).targets_spec()) == indexed_names(first_names(seen)),
        *old(count) as int == first_names(seen).len(),
    ensures
        r is Ok ==> features ==> map_entries(final(problem).features_spec()) == indexed_names(first_names(seen.push(Some(name@)))),
        r is Ok ==> !features ==> map_entries(final(problem).targets_spec()) == indexed_names(first_names(seen.push(Some(name@)))),
        r is Ok ==> *final(count) as int == first_names(seen.push(Some(name@))).len(),
        features ==> final(problem).targets_spec() == old(problem).targets_spec(),
        !features ==> final(problem).features_spec() == old(problem).features_spec(),
        r is Err ==> r == Err::<(), LowerError>(LowerError::TooManyNames),
        r is Err ==> first_names(seen.push(Some(name@))).len() > 0xffff,
{
    let ghost names = first_names(seen);
    proof {
        assert(seen.push(Some(name@)).drop_last() =~= seen);
        lemma_lookup_indexed(names, name@);
    }
    let added = if features {
        problem.add_feature(name.clone(), *count)
    } else {
        problem.add_target(name.clone(), *count)
    };
    if added {
        proof {
            assert(indexed_names(names.push(name@)) =~= indexed_names(names).push((name@, *count)));
        }
        if *count == u16::MAX {
            return Err(LowerError::TooManyNames);
        }
        *count = *count + 1;
    }
    Ok(())
}

/// Row `i` is where reading the problem stops, with `e`: a split without
/// both daughters, a new feature beyond what a `u16` counts, a prediction
/// that is not a classification, or a new target beyond what a `u16` counts,
/// checked in that order.
pub open spec fn row_error(rows: Seq<CsvNode>, i: int, e: LowerError) -> bool {
    let row = rows[i];
    if row.split_on is Some && (row.left == 0 || row.right == 0) {
        e == LowerError::MissingDaughter
    } else if row.split_on is Some && first_names(split_names(rows).subrange(0, i + 1)).len() > 0xffff {
        e == LowerError::TooManyNames
    } else if row.prediction is Some && row.status != -1 {
        e == LowerError::NotClassification
    } else if row.prediction is Some && first_names(prediction_names(rows).subrange(0, i + 1)).len() > 0xffff {
        e == LowerError::TooManyNames
    } else {
        false
    }
}

/// Reading the problem of the rows fails with `e` at the first row that
/// fails.
pub open spec fn problem_error(rows: Seq<CsvNode>, e: LowerError) -> bool {
    exists|i: int|
        0 <= i < rows.len() && (forall|j: int| 0 <= j < i ==> row_ok(#[trigger] rows[j])) && first_names(
            split_names(rows).subrange(0, i),
        ).len() <= 0xffff && first_names(prediction_names(rows).subrange(0, i)).len() <= 0xffff && #[trigger] row_error(rows, i, e)
}

/// The problem of a forest given as rows: every feature a row splits on and
/// every target a row predicts, each indexed in order of first appearance.
pub fn problem_from_rows(rows: &Vec<CsvNode>) -> (r: Result<ProblemDefinition, LowerError>)
    ensures
        r matches Ok(p) ==> map_entries(p.features_spec()) == indexed_names(first_names(split_names(rows@)))
            && map_entries(p.targets_spec()) == indexed_names(first_names(prediction_names(rows@))),
        r matches Ok(_) ==> forall|k: int| 0 <= k < rows@.len() ==> row_ok(#[trigger] rows@[k]),
        r matches Err(e) ==> e == LowerError::MissingDaughter || e == LowerError::NotClassification || e == LowerError::TooManyNames,
        r is Ok <==> (forall|k: int| 0 <= k < rows@.len() ==> row_ok(#[trigger] rows@[k])) && first_names(split_names(rows@)).len()
            <= 0xffff && first_names(prediction_names(rows@)).len() <= 0xffff,
        r matches Err(e) ==> problem_error(rows@, e),
{
    let mut problem = ProblemDefinition::new();
    let mut feat_count: u16 = 0;
    let mut target_count: u16 = 0;
    let mut i: usize = 0;
    proof {
        assert(indexed_names(Seq::<Seq<char>>::empty()) =~= Seq::<(Seq<char>, u16)>::empty());
        assert(split_names(rows@).subrange(0, 0) =~= Seq::<Option<Seq<char>>>::empty());
        assert(prediction_names(rows@).subrange(0, 0) =~= Seq::<Option<Seq<char>>>::empty());
    }
    while i < rows.len()
        invariant
            0 <= i <= rows@.len(),
            map_entries(problem.features_spec()) == indexed_names(first_names(split_names(rows@).subrange(0, i as int))),
            map_entries(problem.targets_spec()) == indexed_names(first_names(prediction_names(rows@).subrange(0, i as int))),
            feat_count as int == first_names(split_names(rows@).subrange(0, i as int)).len(),
            target_count as int == first_names(prediction_names(rows@).subrange(0, i as int)).len(),
            forall|k: int| 0 <= k < i ==> row_ok(#[trigger] rows@[k]),
        decreases rows@.len() - i,
    {
        let row = &rows[i];
        let ghost sn = split_names(rows@);
        let ghost pn = prediction_names(rows@);
        proof {
            assert(sn.subrange(0, i + 1) =~= sn.subrange(0, i as int).push(opt_name(row.split_on)));
            assert(pn.subrange(0, i + 1) =~= pn.subrange(0, i as int).push(opt_name(row.prediction)));
            assert(sn.subrange(0, i as int).push(None::<Seq<char>>).drop_last() =~= sn.subrange(0, i as int));
            assert(pn.subrange(0, i as int).push(None::<Seq<char>>).drop_last() =~= pn.subrange(0, i as int));
        }
        match &row.split_on {
            Some(feat) => {
                if row.left == 0 || row.right == 0 {
                    assert(row_error(rows@, i as int, LowerError::MissingDaughter));
                    return Err(LowerError::MissingDaughter);
                }
                match register(&mut problem, feat, &mut feat_count, true, Ghost(sn.subrange(0, i as int))) {
                    Ok(()) => {},
                    Err(e) => {
                        proof {
                            lemma_first_names_prefix(sn, i + 1);
                            assert(row_error(rows@, i as int, e));
                        }
                        return Err(e);
                    },
                }
            },
            None => {},
        }
        match &row.prediction {
            Some(target) => {
                if row.status != -1 {
                    assert(row_error(rows@, i as int, LowerError::NotClassification));
                    return Err(LowerError::NotClassification);
                }
                match register(&mut problem, target, &mut target_count, false, Ghost(pn.subrange(0, i as int))) {
                    Ok(()) => {},
                    Err(e) => {
                        proof {
                            lemma_first_names_prefix(pn, i + 1);
                            assert(row_error(rows@, i as int, e));
                        }
                        return Err(e);
                    },
                }
            },
            None => {},
        }
        i = i + 1;
    }
    assert(split_names(rows@).subrange(0, rows@.len() as int) =~= split_names(rows@));
    assert(prediction_names(rows@).subrange(0, rows@.len() as int) =~= prediction_names(rows@));
    Ok(problem)
}

/// The tree indices of the root rows (node index 1), in row order.
pub open spec fn root_indices(rows: Seq<CsvNode>) -> Seq<usize>
    decreases rows.len(),
{
    if rows.len() == 0 {
        Seq::empty()
    } else {
        let prev = root_indices(rows.drop_last());
        if rows.last().node_idx == 1 {
            prev.push(rows.last().tree_idx)
        } else {
            prev
        }
    }
}

/// The root tree indices are 1, 2, ... up to their number, in some order.
pub open spec fn roots_numbered(roots: Seq<usize>) -> bool {
    &&& roots.no_duplicates()
    &&& forall|k: int| 0 <= k < roots.len() ==> 1 <= #[trigger] roots[k] <= roots.len()
}

/// `order` lists the rows of tree `tree_idx`, each once, by node index (rows
/// with equal node indices in row order).
pub open spec fn sorted_rows_of(rows: Seq<CsvNode>, tree_idx: usize, order: Seq<usize>) -> bool {
    &&& order.no_duplicates()
    &&& forall|x: usize| #[trigger] order.contains(x) <==> ((x as int) < rows.len() && rows[x as int].tree_idx == tree_idx)
    &&& forall|a: int, b: int| 0 <= a < b < order.len() ==> rows[#[trigger] order[a] as int].node_idx <= rows[
        #[trigger] order[b] as int].node_idx
    &&& forall|a: int, b: int| 0 <= a < b < order.len() && rows[#[trigger] order[a] as int].node_idx == rows[
        #[trigger] order[b] as int].node_idx ==> order[a] < order[b]
}

/// `t` is tree `tree_idx` lowered: its rows by node index, each normalized.
pub open spec fn lowered_tree(
    rows: Seq<CsvNode>,
    tree_idx: usize,
    features: Seq<(Seq<char>, u16)>,
    targets: Seq<(Seq<char>, u16)>,
    t: Seq<Node>,
) -> bool {
    exists|order: Seq<usize>| #[trigger] sorted_rows_of(rows, tree_idx, order) && t.len() == order.len() && forall|j: int|
        0 <= j < order.len() ==> normalized(rows[#[trigger] order[j] as int], features, targets) == Ok::<Node, LowerError>(t[j])
}

/// Every row of trees `1..=n` normalizes.
pub open spec fn rows_normalize(rows: Seq<CsvNode>, n: int, features: Seq<(Seq<char>, u16)>, targets: Seq<(Seq<char>, u16)>) -> bool {
    forall|k: int| 0 <= k < rows.len() && 1 <= (#[trigger] rows[k]).tree_idx <= n ==> normalized(rows[k], features, targets) is Ok
}

/// The error of lowering the trees when the roots are numbered: the first
/// row, taking the trees in turn and each tree's rows by node index, that
/// does not normalize.
pub open spec fn first_row_error(
    rows: Seq<CsvNode>,
    features: Seq<(Seq<char>, u16)>,
    targets: Seq<(Seq<char>, u16)>,
    e: LowerError,
) -> bool {
    exists|t: int, order: Seq<usize>, j: int|
        #![trigger sorted_rows_of(rows, (t + 1) as usize, order), order[j]]
        {
            &&& 0 <= t
            &&& rows_normalize(rows, t, features, targets)
            &&& sorted_rows_of(rows, (t + 1) as usize, order)
            &&& 0 <= j < order.len()
            &&& forall|q: int| 0 <= q < j ==> normalized(rows[#[trigger] order[q] as int], features, targets) is Ok
            &&& normalized(rows[order[j] as int], features, targets) == Err::<Node, LowerError>(e)
        }
}

/// The tree indices of the root rows, in row order.
fn root_rows(rows: &Vec<CsvNode>) -> (roots: Vec<usize>)
    ensures
        roots@ == root_indices(rows@),
{
    let mut roots: Vec<usize> = Vec::new();
    let mut i: usize = 0;
    while i < rows.len()
        invariant
            0 <= i <= rows@.len(),
            roots@ == root_indices(rows@.subrange(0, i as int)),
        decreases rows@.len() - i,
    {
        proof {
            assert(rows@.subrange(0, i + 1).drop_last() =~= rows@.subrange(0, i as int));
        }
        if rows[i].node_idx == 1 {
            roots.push(rows[i].tree_idx);
        }
        i = i + 1;
    }
    assert(rows@.subrange(0, rows@.len() as int) =~= rows@);
    roots
}

/// Whether the tree indices of the root rows (node index 1) are 1, 2, ...
/// up to their number, in some order.
pub fn roots_are_numbered(rows: &Vec<CsvNode>) -> (b: bool)
    ensures
        b == roots_numbered(root_indices(rows@)),
{
    let roots = root_rows(rows);
    check_roots(&roots)
}

/// Whether the root tree indices are 1, 2, ... up to their number.
fn check_roots(roots: &Vec<usize>) -> (b: bool)
    ensures
        b == roots_numbered(roots@),
{
    let k = roots.len();
    let mut seen: Vec<bool> = Vec::new();
    let mut i: usize = 0;
    while i < k
        invariant
            k == roots@.len(),
            0 <= i <= k,
            seen@.len() == i,
            forall|q: int| 0 <= q < i ==> !(#[trigger] seen@[q]),
        decreases k - i,
    {
        seen.push(false);
        i = i + 1;
    }
    let mut j: usize = 0;
    while j < k
        invariant
            k == roots@.len(),
            seen@.len() == k,
            0 <= j <= k,
            forall|q: int| 0 <= q < j ==> 1 <= #[trigger] roots@[q] <= k,
            forall|a: int, b: int| 0 <= a < b < j ==> roots@[a] != roots@[b],
            forall|v: int| 0 <= v < k ==> (#[trigger] seen@[v] <==> exists|q: int| 0 <= q < j && roots@[q] == v + 1),
        decreases k - j,
    {
        let r = roots[j];
        if r < 1 || r > k {
            return false;
        }
        if seen[r - 1] {
            proof {
                let q = choose|q: int| 0 <= q < j && roots@[q] == r;
                assert(roots@[q] == roots@[j as int]);
            }
            return false;
        }
        let ghost before = seen@;
        seen.set(r - 1, true);
        proof {
            assert forall|v: int| 0 <= v < k implies (#[trigger] seen@[v] <==> exists|q: int| 0 <= q < j + 1 && roots@[q] == v + 1) by {
                if v == r - 1 {
                    assert(roots@[j as int] == v + 1);
                } else {
                    assert(seen@[v] == before[v]);
                    if exists|q: int| 0 <= q < j + 1 && roots@[q] == v + 1 {
                        let q = choose|q: int| 0 <= q < j + 1 && roots@[q] == v + 1;
                        assert(q != j);
                    }
                }
            }
            assert forall|a: int, b: int| 0 <= a < b < j + 1 implies roots@[a] != roots@[b] by {
                if b == j {
                    assert(!before[r - 1]);
                    if roots@[a] == roots@[b] {
                        assert(exists|q: int| 0 <= q < j && roots@[q] == (r - 1) + 1);
                    }
                }
            }
        }
        j = j + 1;
    }
    true
}

/// The rows of tree `tree_idx` by node index; rows with equal node indices
/// keep their order.
fn sorted_tree_rows(rows: &Vec<CsvNode>, tree_idx: usize) -> (r: Vec<usize>)
    ensures
        sorted_rows_of(rows@, tree_idx, r@),
{
    let mut out: Vec<usize> = Vec::new();
    let mut i: usize = 0;
    while i < rows.len()
        invariant
            0 <= i <= rows@.len(),
            out@.no_duplicates(),
            forall|x: usize| #[trigger] out@.contains(x) <==> ((x as int) < i && rows@[x as int].tree_idx == tree_idx),
            forall|a: int, b: int| 0 <= a < b < out@.len() ==> rows@[#[trigger] out@[a] as int].node_idx <= rows@[
                #[trigger] out@[b] as int].node_idx,
            forall|a: int, b: int| 0 <= a < b < out@.len() && rows@[#[trigger] out@[a] as int].node_idx == rows@[
                #[trigger] out@[b] as int].node_idx ==> out@[a] < out@[b],
        decreases rows@.len() - i,
    {
        if rows[i].tree_idx == tree_idx {
            let key = rows[i].node_idx;
            let mut p: usize = 0;
            proof {
                assert forall|k: int| 0 <= k < out@.len() implies (#[trigger] out@[k] as int) < i by {
                    assert(out@.contains(out@[k]));
                }
            }
            while p < out.len() && rows[out[p]].node_idx <= key
                invariant
                    0 <= p <= out@.len(),
                    i < rows@.len(),
                    forall|k: int| 0 <= k < out@.len() ==> (#[trigger] out@[k] as int) < i,
                    key == rows@[i as int].node_idx,
                    forall|x: usize| #[trigger] out@.contains(x) <==> ((x as int) < i && rows@[x as int].tree_idx == tree_idx),
                    forall|k: int| 0 <= k < p ==> rows@[(#[trigger] out@[k]) as int].node_idx <= key,
                decreases out@.len() - p,
            {
                proof {
                    assert(out@.contains(out@[p as int]));
                }
                p = p + 1;
            }
            let ghost before = out@;
            out.insert(p, i);
            proof {
                let o = out@;
                assert(o =~= before.insert(p as int, i));
                assert forall|k: int| 0 <= k < before.len() implies (#[trigger] before[k] as int) < i by {
                    assert(before.contains(before[k]));
                }
                assert forall|a: int, b: int| 0 <= a < o.len() && 0 <= b < o.len() && a != b implies o[a] != o[b] by {
                    if a != p as int && b != p as int {
                        let a0 = if a < p { a } else { a - 1 };
                        let b0 = if b < p { b } else { b - 1 };
                        assert(o[a] == before[a0] && o[b] == before[b0]);
                    } else if a == p as int {
                        let b0 = if b < p { b } else { b - 1 };
                        assert(o[b] == before[b0]);
                    } else {
                        let a0 = if a < p { a } else { a - 1 };
                        assert(o[a] == before[a0]);
                    }
                }
                assert forall|x: usize| #[trigger] o.contains(x) <==> ((x as int) < i + 1 && rows@[x as int].tree_idx == tree_idx) by {
                    if o.contains(x) {
                        let k = choose|k: int| 0 <= k < o.len() && o[k] == x;
                        if k < p {
                            assert(o[k] == before[k]);
                            assert(before.contains(x));
                        } else if k > p {
                            assert(o[k] == before[k - 1]);
                            assert(before.contains(x));
                        }
                    }
                    if (x as int) < i + 1 && rows@[x as int].tree_idx == tree_idx {
                        if x == i {
                            assert(o[p as int] == x);
                        } else {
                            assert(before.contains(x));
                            let k = choose|k: int| 0 <= k < before.len() && before[k] == x;
                            if k < p {
                                assert(o[k] == x);
                            } else {
                                assert(o[k + 1] == x);
                            }
                        }
                    }
                }
                if p < before.len() {
                    assert(rows@[before[p as int] as int].node_idx > key);
                }
                assert forall|a: int, b: int| 0 <= a < b < o.len() implies rows@[#[trigger] o[a] as int].node_idx <= rows@[
                    #[trigger] o[b] as int].node_idx by {
                    if a < p && b < p {
                        assert(o[a] == before[a] && o[b] == before[b]);
                    } else if a < p && b == p {
                        assert(o[a] == before[a]);
                    } else if a < p {
                        assert(o[a] == before[a] && o[b] == before[b - 1]);
                    } else if a == p {
                        assert(o[b] == before[b - 1]);
                        assert(rows@[before[b - 1] as int].node_idx >= rows@[before[p as int] as int].node_idx);
                    } else {
                        assert(o[a] == before[a - 1] && o[b] == before[b - 1]);
                    }
                }
                assert forall|a: int, b: int| 0 <= a < b < o.len() && rows@[#[trigger] o[a] as int].node_idx == rows@[
                    #[trigger] o[b] as int].node_idx implies o[a] < o[b] by {
                    if a < p && b < p {
                        assert(o[a] == before[a] && o[b] == before[b]);
                    } else if a < p && b == p {
                        assert(o[a] == before[a]);
                    } else if a < p {
                        assert(o[a] == before[a] && o[b] == before[b - 1]);
                    } else if a == p {
                        assert(o[b] == before[b - 1]);
                        assert(rows@[before[b - 1] as int].node_idx >= rows@[before[p as int] as int].node_idx);
                    } else {
                        assert(o[a] == before[a - 1] && o[b] == before[b - 1]);
                    }
                }
            }
        } else {
            proof {
                assert forall|x: usize| #[trigger] out@.contains(x) <==> ((x as int) < i + 1 && rows@[x as int].tree_idx == tree_idx) by {}
            }
        }
        i = i + 1;
    }
    out
}

/// The trees of a forest given as rows: tree `i` is made of the rows whose
/// tree index is `i + 1`, ordered by node index, each normalized. The tree
/// indices of the roots must be 1, 2, ... up to their number.
pub fn lower_trees(rows: &Vec<CsvNode>, problem: &ProblemDefinition) -> (r: Result<Vec<Tree>, LowerError>)
    requires
        forall|k: int| 0 <= k < rows@.len() ==> row_ok(#[trigger] rows@[k]),
    ensures
        r matches Ok(trees) ==> roots_numbered(root_indices(rows@)) && trees@.len() == root_indices(rows@).len() && forall|i: int|
            0 <= i < trees@.len() ==> lowered_tree(
                rows@,
                (i + 1) as usize,
                map_entries(problem.features_spec()),
                map_entries(problem.targets_spec()),
                #[trigger] trees@[i].nodes@,
            ),
        r == Err::<Vec<Tree>, LowerError>(LowerError::TreeIndexMismatch) <==> !roots_numbered(root_indices(rows@)),
        r matches Err(e) ==> e == LowerError::TreeIndexMismatch || e == LowerError::FeatureIdMissing || e
            == LowerError::TargetIdMissing || e == LowerError::NotBranchNorLeaf,
        r is Ok <==> roots_numbered(root_indices(rows@)) && rows_normalize(
            rows@,
            root_indices(rows@).len() as int,
            map_entries(problem.features_spec()),
            map_entries(problem.targets_spec()),
        ),
        r matches Err(e) ==> (e != LowerError::TreeIndexMismatch ==> first_row_error(
            rows@,
            map_entries(problem.features_spec()),
            map_entries(problem.targets_spec()),
            e,
        )),
{
    let ghost fe = map_entries(problem.features_spec());
    let ghost te = map_entries(problem.targets_spec());
    // The roots: the rows with node index 1.
    let roots = root_rows(rows);
    // Check that all tree roots are numbered 1, 2, ...
    if !check_roots(&roots) {
        return Err(LowerError::TreeIndexMismatch);
    }
    let num_trees = roots.len();
    let n_rows = rows.len();
    let mut trees: Vec<Tree> = Vec::new();
    let mut t: usize = 0;
    while t < num_trees
        invariant
            n_rows == rows@.len(),
            num_trees == root_indices(rows@).len(),
            roots_numbered(root_indices(rows@)),
            forall|k: int| 0 <= k < rows@.len() ==> row_ok(#[trigger] rows@[k]),
            fe == map_entries(problem.features_spec()),
            te == map_entries(problem.targets_spec()),
            0 <= t <= num_trees,
            trees@.len() == t,
            forall|q: int| 0 <= q < t ==> lowered_tree(rows@, (q + 1) as usize, fe, te, #[trigger] trees@[q].nodes@),
            rows_normalize(rows@, t as int, fe, te),
        decreases num_trees - t,
    {
        let tree_idx = t + 1;
        let order = sorted_tree_rows(rows, tree_idx);
        let mut nodes: Vec<Node> = Vec::new();
        let mut j: usize = 0;
        while j < order.len()
            invariant
                sorted_rows_of(rows@, tree_idx, order@),
                1 <= tree_idx <= root_indices(rows@).len(),
                roots_numbered(root_indices(rows@)),
                forall|k: int| 0 <= k < rows@.len() ==> row_ok(#[trigger] rows@[k]),
                fe == map_entries(problem.features_spec()),
                te == map_entries(problem.targets_spec()),
                0 <= j <= order@.len(),
                nodes@.len() == j,
                forall|q: int| 0 <= q < j ==> normalized(rows@[#[trigger] order@[q] as int], fe, te) == Ok::<Node, LowerError>(
                    nodes@[q],
                ),
                rows_normalize(rows@, (tree_idx - 1) as int, fe, te),
            decreases order@.len() - j,
        {
            proof {
                assert(order@.contains(order@[j as int]));
            }
            let row = &rows[order[j]];
            assert(row_ok(rows@[order@[j as int] as int]));
            match row.normalize(problem) {
                Ok(n) => {
                    nodes.push(n);
                },
                Err(e) => {
                    assert(e != LowerError::TreeIndexMismatch);
                    proof {
                        let k = order@[j as int] as int;
                        assert(order@.contains(order@[j as int]));
                        assert(rows@[k].tree_idx == tree_idx);
                        assert(!(normalized(rows@[k], fe, te) is Ok));
                        assert(1 <= rows@[k].tree_idx <= root_indices(rows@).len());
                        assert(!rows_normalize(rows@, root_indices(rows@).len() as int, fe, te));
                        assert(normalized(rows@[order@[j as int] as int], fe, te) == Err::<Node, LowerError>(e));
                        assert(first_row_error(rows@, fe, te, e)) by {
                            let tt = (tree_idx - 1) as int;
                            assert(sorted_rows_of(rows@, (tt + 1) as usize, order@));
                        }
                    }
                    return Err(e);
                },
            }
            j = j + 1;
        }
        let ghost before = trees@;
        trees.push(Tree::new(nodes));
        proof {
            assert forall|k: int| 0 <= k < rows@.len() && 1 <= (#[trigger] rows@[k]).tree_idx <= t + 1 implies normalized(
                rows@[k],
                fe,
                te,
            ) is Ok by {
                if rows@[k].tree_idx == tree_idx {
                    assert(order@.contains(k as usize));
                    let q = choose|q: int| 0 <= q < order@.len() && order@[q] == k as usize;
                    assert(normalized(rows@[order@[q] as int], fe, te) == Ok::<Node, LowerError>(nodes@[q]));
                }
            }
            assert(lowered_tree(rows@, tree_idx, fe, te, trees@[t as int].nodes@));
            assert forall|q: int| 0 <= q < t + 1 implies lowered_tree(rows@, (q + 1) as usize, fe, te, #[trigger] trees@[q].nodes@) by {
                if q < t {
                    assert(trees@[q] == before[q]);
                }
            }
        }
        t = t + 1;
    }
    proof {
        assert forall|k: int| 0 <= k < rows@.len() && 1 <= (#[trigger] rows@[k]).tree_idx <= num_trees implies normalized(
            rows@[k],
            fe,
            te,
        ) is Ok by {
            let q = rows@[k].tree_idx - 1;
            assert(lowered_tree(rows@, (q + 1) as usize, fe, te, trees@[q].nodes@));
            let order = choose|order: Seq<usize>| #[trigger] sorted_rows_of(rows@, (q + 1) as usize, order) && trees@[q].nodes@.len()
                == order.len() && forall|j: int| 0 <= j < order.len() ==> normalized(rows@[#[trigger] order[j] as int], fe, te)
                == Ok::<Node, LowerError>(trees@[q].nodes@[j]);
            assert(order.contains(k as usize));
            let j = choose|j: int| 0 <= j < order.len() && order[j] == k as usize;
            assert(normalized(rows@[order[j] as int], fe, te) == Ok::<Node, LowerError>(trees@[q].nodes@[j]));
        }
    }
    Ok(trees)
}

/// A forest given as CSV rows, with the problem its rows name.
pub struct CsvForest {
    nodes: Vec<CsvNode>,
    problem: ProblemDefinition,
}

impl CsvForest {
    pub closed spec fn spec_nodes(&self) -> Seq<CsvNode> {
        self.nodes@
    }

    pub closed spec fn spec_problem(&self) -> ProblemDefinition {
        self.problem
    }

    /// The forest of the rows: the features and targets they name, each
    /// indexed in order of first appearance. A branch row must have both
    /// daughters, and a prediction row must be a classification prediction.
    pub fn from_rows(rows: Vec<CsvNode>) -> (r: Result<Self, LowerError>)
        ensures
            r matches Ok(f) ==> f.spec_nodes() == rows@ && map_entries(f.spec_problem().features_spec()) == indexed_names(
                first_names(split_names(rows@)),
            ) && map_entries(f.spec_problem().targets_spec()) == indexed_names(first_names(prediction_names(rows@)))
                && forall|k: int| 0 <= k < rows@.len() ==> row_ok(#[trigger] rows@[k]),
            r matches Err(e) ==> e == LowerError::MissingDaughter || e == LowerError::NotClassification || e
                == LowerError::TooManyNames,
            r is Ok <==> (forall|k: int| 0 <= k < rows@.len() ==> row_ok(#[trigger] rows@[k])) && first_names(split_names(rows@)).len()
                <= 0xffff && first_names(prediction_names(rows@)).len() <= 0xffff,
            r matches Err(e) ==> problem_error(rows@, e),
    {
        let problem = match problem_from_rows(&rows) {
            Ok(p) => p,
            Err(e) => {
                return Err(e);
            },
        };
        Ok(CsvForest { nodes: rows, problem })
    }

    pub fn problem(&self) -> (p: &ProblemDefinition)
        ensures
            *p == self.spec_problem(),
    {
        &self.problem
    }

    pub fn features(&self) -> (m: &indexmap::IndexMap<String, u16>)
        ensures
            *m == self.spec_problem().features_spec(),
    {
        self.problem.features()
    }

    pub fn targets(&self) -> (m: &indexmap::IndexMap<String, u16>)
        ensures
            *m == self.spec_problem().targets_spec(),
    {
        self.problem.targets()
    }

    pub fn nodes(&self) -> (n: &Vec<CsvNode>)
        ensures
            n@ == self.spec_nodes(),
    {
        &self.nodes
    }

    /// Convert the rows into a forest model: tree `i` is made of the rows of
    /// tree `i + 1`, ordered by node index, each normalized. The roots' tree
    /// indices must be 1, 2, ... up to their number (`roots_are_numbered`).
    pub fn into_forest_model(self) -> (r: Result<ForestModel, LowerError>)
        requires
            forall|k: int| 0 <= k < self.spec_nodes().len() ==> row_ok(#[trigger] self.spec_nodes()[k]),
            roots_numbered(root_indices(self.spec_nodes())),
        ensures
            r matches Ok(m) ==> m.spec_problem() == self.spec_problem() && m.spec_trees().len() == root_indices(self.spec_nodes()).len()
                && forall|i: int| 0 <= i < m.spec_trees().len() ==> lowered_tree(
                self.spec_nodes(),
                (i + 1) as usize,
                map_entries(self.spec_problem().features_spec()),
                map_entries(self.spec_problem().targets_spec()),
                #[trigger] m.spec_trees()[i].nodes@,
            ),
            r is Ok <==> rows_normalize(
                self.spec_nodes(),
                root_indices(self.spec_nodes()).len() as int,
                map_entries(self.spec_problem().features_spec()),
                map_entries(self.spec_problem().targets_spec()),
            ),
            r matches Err(e) ==> first_row_error(
                self.spec_nodes(),
                map_entries(self.spec_problem().features_spec()),
                map_entries(self.spec_problem().targets_spec()),
                e,
            ),
    {
        assert(self.nodes@ == self.spec_nodes());
        let trees = match lower_trees(&self.nodes, &self.problem) {
            Ok(t) => t,
            Err(e) => {
                return Err(e);
            },
        };
        Ok(ForestModel::new(trees, self.problem))
    }

    /// Lower the rows into the intermediate representation: tree `i` is made
    /// of the rows of tree `i + 1`, ordered by node index, each normalized.
    pub fn lower_to_ir(self) -> (r: Result<InterRep, LowerError>)
        requires
            forall|k: int| 0 <= k < self.spec_nodes().len() ==> row_ok(#[trigger] self.spec_nodes()[k]),
        ensures
            r matches Ok(m) ==> m.spec_problem() == self.spec_problem() && m.spec_trees().len() == root_indices(self.spec_nodes()).len()
                && forall|i: int| 0 <= i < m.spec_trees().len() ==> lowered_tree(
                self.spec_nodes(),
                (i + 1) as usize,
                map_entries(self.spec_problem().features_spec()),
                map_entries(self.spec_problem().targets_spec()),
                #[trigger] m.spec_trees()[i].nodes@,
            ),
            r == Err::<InterRep, LowerError>(LowerError::TreeIndexMismatch) <==> !roots_numbered(root_indices(self.spec_nodes())),
            r is Ok <==> roots_numbered(root_indices(self.spec_nodes())) && rows_normalize(
                self.spec_nodes(),
                root_indices(self.spec_nodes()).len() as int,
                map_entries(self.spec_problem().features_spec()),
                map_entries(self.spec_problem().targets_spec()),
            ),
            r matches Err(e) ==> (e != LowerError::TreeIndexMismatch ==> first_row_error(
                self.spec_nodes(),
                map_entries(self.spec_problem().features_spec()),
                map_entries(self.spec_problem().targets_spec()),
                e,
            )),
    {
        assert(self.nodes@ == self.spec_nodes());
        let trees = match lower_trees(&self.nodes, &self.problem) {
            Ok(t) => t,
            Err(e) => {
                return Err(e);
            },
        };
        Ok(InterRep::new(trees, self.problem))
    }
}

} // verus!
