//! The forest format of the embedded runtime: an 8-byte header (the number
//! of trees, of features and of targets, and two bytes of padding), then
//! 8-byte branches whose child pointers index the branches.

use vstd::prelude::*;

use crate::bytes::{le16, le32, lemma_le32_digits, u16_from_le, u16_to_le, u32_from_le, u32_to_le};
use crate::model::acyclic::points_to;
use crate::model::{branch_bytes, branch_of, lemma_branch_decode_encode, Branch, Flags};
use crate::split::{bf16_le, feature_le};
use crate::Error;

verus! {

/// The length of the header before the branches.
pub const EMBEDDED_HEADER_LEN: usize = 8;

/// A forest of the embedded runtime, decoded from its bytes.
pub struct OptimizedForest {
    pub num_trees: u32,
    pub num_features: u8,
    /// `Some` for a classification forest, `None` for a regression forest.
    pub num_targets: Option<u8>,
    pub branches: Vec<Branch>,
}

/// The number of whole branches after the header.
pub open spec fn branch_count(b: Seq<u8>) -> int {
    (b.len() - 8) / 8
}

/// The branch that the bytes at branch position `i` encode.
pub open spec fn branch_at(b: Seq<u8>, i: int) -> Branch {
    branch_of(b.subrange(8 + 8 * i, 16 + 8 * i))
}

/// The pointer children of the branch index one of the `n` branches.
pub open spec fn pointers_within(br: Branch, n: int) -> bool {
    &&& !br.flags.spec_left_prediction() ==> (br.left as int) < n
    &&& !br.flags.spec_right_prediction() ==> (br.right as int) < n
}

/// The bytes hold a forest of the problem type asked for: a target count
/// (byte 5) that is not zero exactly for a classification forest.
pub open spec fn problem_type_matches(b: Seq<u8>, has_targets: bool) -> bool {
    (b[5] != 0) == has_targets
}

/// The branches fill the bytes after the header, and every pointer child
/// indexes one of them.
pub open spec fn branches_well_formed(b: Seq<u8>) -> bool {
    &&& (b.len() - 8) % 8 == 0
    &&& forall|i: int| 0 <= i < branch_count(b) ==> pointers_within(#[trigger] branch_at(b, i), branch_count(b))
}

/// Decode a forest of the embedded runtime, of a classification problem when
/// `has_targets` holds and of a regression problem otherwise. The buffer's
/// alignment in memory is the caller's to check.
pub fn deserialize(buffer: &[u8], has_targets: bool) -> (r: Result<OptimizedForest, Error>)
    requires
        buffer@.len() >= 16,
    ensures
        r == Err::<OptimizedForest, Error>(Error::WrongProblemType) <==> !problem_type_matches(buffer@, has_targets),
        problem_type_matches(buffer@, has_targets) ==> (r is Err <==> !branches_well_formed(buffer@)),
        r is Err ==> r == Err::<OptimizedForest, Error>(Error::WrongProblemType) || r == Err::<OptimizedForest, Error>(
            Error::MalformedForest,
        ),
        r matches Ok(f) ==> {
            let b = buffer@;
            &&& f.num_trees as int == le32(b[0], b[1], b[2], b[3])
            &&& f.num_features == b[4]
            &&& f.num_targets == (if b[5] == 0 { None::<u8> } else { Some(b[5]) })
            &&& f.branches@.len() == branch_count(b)
            &&& forall|i: int| 0 <= i < branch_count(b) ==> #[trigger] f.branches@[i] == branch_at(b, i)
        },
{
    let ghost b = buffer@;
    let num_trees = u32_from_le(buffer[0], buffer[1], buffer[2], buffer[3]);
    let num_features = buffer[4];
    let t = buffer[5];
    let num_targets = if t == 0 { None } else { Some(t) };
    if (t != 0) != has_targets {
        return Err(Error::WrongProblemType);
    }
    let slice_size = buffer.len() - EMBEDDED_HEADER_LEN;
    if slice_size % 8 != 0 {
        return Err(Error::MalformedForest);
    }
    let n = slice_size / 8;
    assert(slice_size == 8 * n) by (nonlinear_arith)
        requires
            slice_size % 8 == 0,
            n == slice_size / 8,
    ;
    let mut branches: Vec<Branch> = Vec::new();
    let mut i: usize = 0;
    while i < n
        invariant
            b == buffer@,
            b.len() == buffer.len(),
            b.len() == 8 + 8 * n,
            problem_type_matches(b, has_targets),
            n == branch_count(b),
            0 <= i <= n,
            branches@.len() == i,
            forall|j: int| 0 <= j < i ==> #[trigger] branches@[j] == branch_at(b, j),
            forall|j: int| 0 <= j < i ==> pointers_within(#[trigger] branch_at(b, j), n as int),
        decreases n - i,
    {
        let o = 8 + 8 * i;
        let br = Branch {
            left: u16_from_le(buffer[o], buffer[o + 1]),
            right: u16_from_le(buffer[o + 2], buffer[o + 3]),
            split_at: u16_from_le(buffer[o + 4], buffer[o + 5]),
            flags: Flags(u16_from_le(buffer[o + 6], buffer[o + 7])),
        };
        proof {
            let s = b.subrange(o as int, o + 8);
            assert(s[0] == b[o as int] && s[1] == b[o + 1] && s[2] == b[o + 2] && s[3] == b[o + 3]);
            assert(s[4] == b[o + 4] && s[5] == b[o + 5] && s[6] == b[o + 6] && s[7] == b[o + 7]);
            assert(br == branch_at(b, i as int));
        }
        if (!br.flags.left_prediction() && br.left as usize >= n) || (!br.flags.right_prediction() && br.right as usize >= n) {
            proof {
                assert(!pointers_within(branch_at(b, i as int), branch_count(b)));
            }
            return Err(Error::MalformedForest);
        }
        branches.push(br);
        i = i + 1;
    }
    Ok(OptimizedForest { num_trees, num_features, num_targets, branches })
}

/// The problem of a classification forest: its number of targets, which is
/// not zero.
pub struct Classification {
    pub num_targets: u16,
}

impl Classification {
    /// A classification problem with `num_targets` targets; none is refused.
    pub fn new(num_targets: u16) -> (r: Result<Self, Error>)
        ensures
            r is Ok <==> num_targets != 0,
            r matches Ok(c) ==> c.num_targets == num_targets,
            r is Err ==> r == Err::<Self, Error>(Error::MalformedForest),
    {
        if num_targets == 0 {
            return Err(Error::MalformedForest);
        }
        Ok(Classification { num_targets })
    }
}

/// A node read as a tree header: the tree's length, in nodes.
pub open spec fn header_tree_len(br: Branch) -> int {
    br.left + br.right * 0x1_0000
}

/// A node read as a tree header: the index, within the tree, of its first
/// branch.
pub open spec fn header_first_node(br: Branch) -> int {
    br.split_at + br.flags.0 * 0x1_0000
}

/// A node whose eight bytes are all zero.
pub open spec fn is_padding(br: Branch) -> bool {
    br.left == 0 && br.right == 0 && br.split_at == 0 && br.flags.0 == 0
}

/// The length of the tree whose header is `br`.
pub fn tree_len_of(br: &Branch) -> (r: u32)
    ensures
        r as int == header_tree_len(*br),
{
    br.left as u32 + br.right as u32 * 0x1_0000u32
}

/// The index, within the tree, of the first branch of the tree whose
/// header is `br`.
pub fn first_node_of(br: &Branch) -> (r: u32)
    ensures
        r as int == header_first_node(*br),
{
    br.split_at as u32 + br.flags.0 as u32 * 0x1_0000u32
}

/// Whether the node's bytes are all zero.
pub fn node_is_padding(br: &Branch) -> (r: bool)
    ensures
        r == is_padding(*br),
{
    br.left == 0 && br.right == 0 && br.split_at == 0 && br.flags.0 == 0
}

/// The index of the `k`-th tree header: the first at 0, each next one after
/// the tree of the one before.
pub open spec fn header_at(nodes: Seq<Branch>, k: nat) -> int
    decreases k,
{
    if k == 0 {
        0
    } else {
        let p = header_at(nodes, (k - 1) as nat);
        p + header_tree_len(nodes[p])
    }
}

/// The number of headers that the headers iterator visits: the number of
/// trees, and the header at 0 even when that number is zero.
pub open spec fn visited_count(num_trees: int) -> int {
    if num_trees == 0 {
        1
    } else {
        num_trees
    }
}

/// Every visited tree lies within the nodes and is not empty.
pub open spec fn headers_in_bounds(nodes: Seq<Branch>, num_trees: int) -> bool {
    forall|k: nat|
        k < visited_count(num_trees) ==> {
            let h = #[trigger] header_at(nodes, k);
            0 <= h && header_tree_len(nodes[h]) >= 1 && h + header_tree_len(nodes[h]) <= nodes.len()
        }
}

/// The node at index `i` of its tree is padding, or each of its pointer
/// children comes after it and within the `n` nodes.
pub open spec fn node_ok(br: Branch, i: int, n: int) -> bool {
    is_padding(br) || ((br.flags.spec_left_prediction() || (i < br.left && br.left < n)) && (br.flags.spec_right_prediction()
        || (i < br.right && br.right < n)))
}

/// Every node of the tree at `h`, from its first branch on, passes the check.
pub open spec fn tree_verified(nodes: Seq<Branch>, h: int) -> bool {
    forall|i: int|
        header_first_node(nodes[h]) <= i < header_tree_len(nodes[h]) ==> node_ok(#[trigger] nodes[h + i], i, nodes.len() as int)
}

/// The tree at `h` passes the check: its header sits at an even node index
/// (node 0 starts a 16-byte line and nodes are 8 bytes long), and every node
/// from its first branch on passes.
pub open spec fn tree_ok(nodes: Seq<Branch>, h: int) -> bool {
    h % 2 == 0 && tree_verified(nodes, h)
}

/// Every visited tree passes the check.
pub open spec fn forest_verified(nodes: Seq<Branch>, num_trees: int) -> bool {
    forall|k: nat| k < visited_count(num_trees) ==> tree_ok(nodes, #[trigger] header_at(nodes, k))
}

impl OptimizedForest {
    /// Check the visited trees in turn: a header at an odd node index is
    /// misaligned; otherwise each pointer child of a branch must come after
    /// the branch and within the nodes. The first tree that fails gives the
    /// error. Whether node 0 itself starts a 16-byte line in memory is the
    /// caller's to check.
    pub fn verify(&self) -> (r: Result<(), Error>)
        requires
            headers_in_bounds(self.branches@, self.num_trees as int),
        ensures
            r is Ok <==> forest_verified(self.branches@, self.num_trees as int),
            r is Err ==> exists|k: nat|
                k < visited_count(self.num_trees as int) && (forall|q: nat| q < k ==> tree_ok(self.branches@, #[trigger] header_at(self.branches@, q)))
                    && (if header_at(self.branches@, k) % 2 != 0 {
                    r == Err::<(), Error>(Error::MisalignedData)
                } else {
                    r == Err::<(), Error>(Error::MalformedForest) && !tree_verified(self.branches@, header_at(self.branches@, k))
                }),
    {
        let ghost nodes = self.branches@;
        let ghost nt = self.num_trees as int;
        let nodes_len = self.branches.len();
        let count: usize = if self.num_trees == 0 { 1 } else { self.num_trees as usize };
        let mut k: usize = 0;
        let mut h: usize = 0;
        while k < count
            invariant
                nodes == self.branches@,
                nodes_len == nodes.len(),
                nt == self.num_trees as int,
                count == visited_count(nt),
                headers_in_bounds(nodes, nt),
                0 <= k <= count,
                h as int == header_at(nodes, k as nat),
                forall|q: nat| q < k ==> tree_ok(nodes, #[trigger] header_at(nodes, q)),
            decreases count - k,
        {
            assert(0 <= header_at(nodes, k as nat));
            if h % 2 != 0 {
                proof {
                    assert(!tree_ok(nodes, header_at(nodes, k as nat)));
                    assert((k as nat) < visited_count(nt));
                    assert(!forest_verified(nodes, nt));
                    assert(header_at(nodes, k as nat) % 2 != 0);
                    assert(forall|q: nat| q < (k as nat) ==> tree_ok(nodes, #[trigger] header_at(nodes, q)));
                }
                return Err(Error::MisalignedData);
            }
            let tl = tree_len_of(&self.branches[h]) as usize;
            let first = first_node_of(&self.branches[h]) as usize;
            let mut i: usize = first;
            while i < tl
                invariant
                    nodes == self.branches@,
                    nodes_len == nodes.len(),
                    h as int == header_at(nodes, k as nat),
                    h % 2 == 0,
                    nt == self.num_trees as int,
                    count == visited_count(nt),
                    k < count,
                    headers_in_bounds(nodes, nt),
                    forall|q: nat| q < k ==> tree_ok(nodes, #[trigger] header_at(nodes, q)),
                    tl as int == header_tree_len(nodes[h as int]),
                    first as int == header_first_node(nodes[h as int]),
                    h + tl <= nodes.len(),
                    first <= i || tl <= i,
                    forall|j: int| first <= j < i && j < tl ==> node_ok(#[trigger] nodes[h + j], j, nodes.len() as int),
                decreases tl - i,
            {
                let br = &self.branches[h + i];
                if !node_is_padding(br) {
                    let left_ptr = br.left as usize;
                    let right_ptr = br.right as usize;
                    if (!br.flags.left_prediction() && (left_ptr <= i || left_ptr >= nodes_len)) || (
                    !br.flags.right_prediction() && (right_ptr <= i || right_ptr >= nodes_len)) {
                        proof {
                            assert(!node_ok(nodes[h + i], i as int, nodes.len() as int));
                            assert(!tree_verified(nodes, header_at(nodes, k as nat)));
                            assert((k as nat) < visited_count(nt));
                            assert(!forest_verified(nodes, nt));
                            assert(header_at(nodes, k as nat) % 2 == 0);
                            assert(forall|q: nat| q < (k as nat) ==> tree_ok(nodes, #[trigger] header_at(nodes, q)));
                        }
                        return Err(Error::MalformedForest);
                    }
                }
                i = i + 1;
            }
            assert(tree_ok(nodes, header_at(nodes, k as nat)));
            h = h + tl;
            k = k + 1;
        }
        assert(forest_verified(nodes, nt));
        Ok(())
    }
}

/// Iterator over the tree headers of an embedded forest: the header at 0,
/// then, for each further tree, the header after the tree before.
pub struct HeadersIterator<'a> {
    pub nodes: &'a [Branch],
    pub current_idx: usize,
    pub tree_idx: usize,
    pub num_trees: usize,
    pub first_pass: bool,
}

impl<'a> HeadersIterator<'a> {
    /// The number of trees to visit.
    pub fn len(&self) -> (r: usize)
        ensures
            r == self.num_trees,
    {
        self.num_trees
    }

    /// Whether there is no tree to visit.
    pub fn is_empty(&self) -> (r: bool)
        ensures
            r == (self.num_trees == 0),
    {
        self.num_trees == 0
    }

    /// The next header index: 0 on the first call; then, while trees are
    /// left, the current index moved by the current tree's length.
    pub fn next(&mut self) -> (r: Option<usize>)
        requires
            old(self).tree_idx < usize::MAX,
            !old(self).first_pass && old(self).tree_idx + 1 < old(self).num_trees ==> old(self).current_idx < old(self).nodes@.len()
                && old(self).current_idx + header_tree_len(old(self).nodes@[old(self).current_idx as int]) <= usize::MAX,
        ensures
            final(self).nodes@ == old(self).nodes@,
            final(self).num_trees == old(self).num_trees,
            !final(self).first_pass,
            old(self).first_pass ==> r == Some(0usize) && final(self).current_idx == old(self).current_idx && final(self).tree_idx
                == old(self).tree_idx,
            !old(self).first_pass ==> final(self).tree_idx == old(self).tree_idx + 1 && if old(self).tree_idx + 1 < old(
                self,
            ).num_trees {
                &&& final(self).current_idx == old(self).current_idx + header_tree_len(old(self).nodes@[old(self).current_idx as int])
                &&& r == Some(final(self).current_idx)
            } else {
                final(self).current_idx == old(self).current_idx && r is None
            },
    {
        if self.first_pass {
            self.first_pass = false;
            return Some(0);
        }
        self.tree_idx = self.tree_idx + 1;
        if self.tree_idx < self.num_trees {
            self.current_idx = self.current_idx + tree_len_of(&self.nodes[self.current_idx]) as usize;
            Some(self.current_idx)
        } else {
            None
        }
    }
}

impl OptimizedForest {
    /// The forest's nodes.
    pub fn nodes(&self) -> (n: &[Branch])
        ensures
            n@ == self.branches@,
    {
        self.branches.as_slice()
    }

    /// The forest's number of trees.
    pub fn num_trees(&self) -> (n: u32)
        ensures
            n == self.num_trees,
    {
        self.num_trees
    }

    /// An iterator over the indices of the forest's tree headers.
    pub fn tree_headers(&self) -> (it: HeadersIterator<'_>)
        ensures
            it.nodes@ == self.branches@,
            it.num_trees == self.num_trees as usize,
            it.current_idx == 0,
            it.tree_idx == 0,
            it.first_pass,
    {
        HeadersIterator {
            nodes: self.branches.as_slice(),
            current_idx: 0,
            tree_idx: 0,
            num_trees: self.num_trees as usize,
            first_pass: true,
        }
    }

    /// The node that the branch's left pointer indexes in its tree.
    pub fn next_left<'t>(tree_nodes: &'t [Branch], branch: &Branch) -> (n: &'t Branch)
        requires
            (branch.left as int) < tree_nodes@.len(),
        ensures
            *n == tree_nodes@[branch.left as int],
    {
        &tree_nodes[branch.left as usize]
    }

    /// The node that the branch's right pointer indexes in its tree.
    pub fn next_right<'t>(tree_nodes: &'t [Branch], branch: &Branch) -> (n: &'t Branch)
        requires
            (branch.right as int) < tree_nodes@.len(),
        ensures
            *n == tree_nodes@[branch.right as int],
    {
        &tree_nodes[branch.right as usize]
    }
}

/// The number of votes that the embedded runtime counts in, one slot per
/// class.
pub const NUM_VOTE_SLOTS: usize = 255;

/// The class that walking the tree's nodes from node `idx` gives for the
/// features (`bf16` bits), in at most `fuel` steps: at each branch, left
/// when the split feature is at most the split point.
pub open spec fn tree_walk(tree: Seq<Branch>, idx: int, features: Seq<u16>, fuel: nat) -> Option<u16>
    decreases fuel,
{
    if fuel == 0 || !(0 <= idx < tree.len()) {
        None
    } else {
        let b = tree[idx];
        let sv = b.flags.spec_split_var_idx() as int;
        if !(sv < features.len()) {
            None
        } else if bf16_le(features[sv], b.split_at) {
            if b.flags.spec_left_prediction() {
                Some(b.left)
            } else {
                tree_walk(tree, b.left as int, features, (fuel - 1) as nat)
            }
        } else {
            if b.flags.spec_right_prediction() {
                Some(b.right)
            } else {
                tree_walk(tree, b.right as int, features, (fuel - 1) as nat)
            }
        }
    }
}

/// The class that the `k`-th visited tree gives for the features: its walk
/// from its first branch, over the nodes of the tree, in as many steps as the
/// tree has nodes (a walk that ends visits each node at most once).
pub open spec fn tree_class(nodes: Seq<Branch>, k: nat, features: Seq<u16>) -> Option<u16> {
    let h = header_at(nodes, k);
    let tl = header_tree_len(nodes[h]);
    tree_walk(nodes.subrange(h, h + tl), header_first_node(nodes[h]), features, tl as nat)
}

/// The number of the first `upto` visited trees that give class `c`.
pub open spec fn class_votes(nodes: Seq<Branch>, features: Seq<u16>, c: int, upto: nat) -> nat
    decreases upto,
{
    if upto == 0 {
        0
    } else {
        class_votes(nodes, features, c, (upto - 1) as nat) + if tree_class(nodes, (upto - 1) as nat, features) == Some(
            c as u16,
        ) {
            1nat
        } else {
            0nat
        }
    }
}

/// Every visited tree's walk ends, at a class below the number of vote slots.
pub open spec fn walks_end(nodes: Seq<Branch>, num_trees: int, features: Seq<u16>) -> bool {
    forall|k: nat|
        k < visited_count(num_trees) ==> (#[trigger] tree_class(nodes, k, features) matches Some(c) && (c as int)
            < NUM_VOTE_SLOTS)
}

impl OptimizedForest {
    /// The class with the most votes of the visited trees; of classes with
    /// equally many votes, the one with the highest index.
    pub fn predict(&self, features: &[u16]) -> (r: u16)
        requires
            headers_in_bounds(self.branches@, self.num_trees as int),
            walks_end(self.branches@, self.num_trees as int, features@),
        ensures
            (r as int) < NUM_VOTE_SLOTS,
            forall|c: int|
                0 <= c < NUM_VOTE_SLOTS ==> #[trigger] class_votes(
                    self.branches@,
                    features@,
                    c,
                    visited_count(self.num_trees as int) as nat,
                ) <= class_votes(self.branches@, features@, r as int, visited_count(self.num_trees as int) as nat),
            forall|c: int|
                r < c < NUM_VOTE_SLOTS ==> #[trigger] class_votes(
                    self.branches@,
                    features@,
                    c,
                    visited_count(self.num_trees as int) as nat,
                ) < class_votes(self.branches@, features@, r as int, visited_count(self.num_trees as int) as nat),
    {
        let ghost nodes = self.branches@;
        let ghost nt = self.num_trees as int;
        let nodes_len = self.branches.len();
        let count: usize = if self.num_trees == 0 { 1 } else { self.num_trees as usize };
        let mut votes: Vec<u64> = Vec::new();
        while votes.len() < NUM_VOTE_SLOTS
            invariant
                votes@.len() <= NUM_VOTE_SLOTS,
                forall|c: int| 0 <= c < votes@.len() ==> votes@[c] == 0,
            decreases NUM_VOTE_SLOTS - votes@.len(),
        {
            votes.push(0);
        }
        let mut k: usize = 0;
        let mut h: usize = 0;
        while k < count
            invariant
                nodes == self.branches@,
                nodes_len == nodes.len(),
                nt == self.num_trees as int,
                count == visited_count(nt),
                count <= 0xffff_ffff,
                headers_in_bounds(nodes, nt),
                walks_end(nodes, nt, features@),
                0 <= k <= count,
                h as int == header_at(nodes, k as nat),
                votes@.len() == NUM_VOTE_SLOTS,
                forall|c: int| 0 <= c < NUM_VOTE_SLOTS ==> #[trigger] votes@[c] as int == class_votes(nodes, features@, c, k as nat),
            decreases count - k,
        {
            assert(0 <= header_at(nodes, k as nat));
            let tl = tree_len_of(&self.branches[h]) as usize;
            let first = first_node_of(&self.branches[h]) as usize;
            assert(h + tl <= nodes.len() && tl >= 1);
            let ghost sub = nodes.subrange(h as int, h + tl);
            let ghost target = tree_class(nodes, k as nat, features@);
            assert(target matches Some(c) && (c as int) < NUM_VOTE_SLOTS);
            let mut idx: usize = first;
            let ghost mut fuel: nat = tl as nat;
            let mut prediction: u16 = 0;
            loop
                invariant_except_break
                    tree_walk(sub, idx as int, features@, fuel) == target,
                invariant
                    nodes == self.branches@,
                    nodes_len == nodes.len(),
                    h + tl <= nodes.len(),
                    sub == nodes.subrange(h as int, h + tl),
                    target matches Some(c) && (c as int) < NUM_VOTE_SLOTS,
                ensures
                    target == Some(prediction),
                decreases fuel,
            {
                assert(fuel > 0 && idx < tl);
                let node = &self.branches[h + idx];
                assert(*node == sub[idx as int]);
                let sv = node.flags.split_var_idx() as usize;
                let test = feature_le(features[sv], node.split_at);
                if test {
                    if node.flags.left_prediction() {
                        prediction = node.left;
                        break;
                    } else {
                        idx = node.left as usize;
                    }
                } else if node.flags.right_prediction() {
                    prediction = node.right;
                    break;
                } else {
                    idx = node.right as usize;
                }
                proof {
                    fuel = (fuel - 1) as nat;
                }
            }
            assert(target == Some(prediction));
            let p = prediction as usize;
            let v = votes[p];
            assert(v as int == class_votes(nodes, features@, p as int, k as nat));
            assert(class_votes(nodes, features@, p as int, k as nat) <= k) by {
                lemma_class_votes_bound(nodes, features@, p as int, k as nat);
            }
            votes.set(p, v + 1);
            proof {
                assert forall|c: int| 0 <= c < NUM_VOTE_SLOTS implies #[trigger] votes@[c] as int == class_votes(
                    nodes,
                    features@,
                    c,
                    (k + 1) as nat,
                ) by {
                    assert(tree_class(nodes, k as nat, features@) == Some(prediction));
                    if c != p {
                        assert(prediction != c as u16);
                    }
                }
            }
            h = h + tl;
            k = k + 1;
        }
        let mut best: usize = 0;
        let mut c: usize = 1;
        while c < NUM_VOTE_SLOTS
            invariant
                votes@.len() == NUM_VOTE_SLOTS,
                1 <= c <= NUM_VOTE_SLOTS,
                best < c,
                forall|j: int| 0 <= j < c ==> votes@[j] <= votes@[best as int],
                forall|j: int| best < j < c ==> votes@[j] < votes@[best as int],
            decreases NUM_VOTE_SLOTS - c,
        {
            if votes[c] >= votes[best] {
                best = c;
            }
            c = c + 1;
        }
        proof {
            assert forall|j: int| 0 <= j < NUM_VOTE_SLOTS implies #[trigger] class_votes(nodes, features@, j, count as nat)
                <= class_votes(nodes, features@, best as int, count as nat) by {
                assert(votes@[j] as int == class_votes(nodes, features@, j, count as nat));
                assert(votes@[best as int] as int == class_votes(nodes, features@, best as int, count as nat));
            }
            assert forall|j: int| best < j < NUM_VOTE_SLOTS implies #[trigger] class_votes(nodes, features@, j, count as nat)
                < class_votes(nodes, features@, best as int, count as nat) by {
                assert(votes@[j] as int == class_votes(nodes, features@, j, count as nat));
                assert(votes@[best as int] as int == class_votes(nodes, features@, best as int, count as nat));
            }
        }
        best as u16
    }
}

/// A class has at most as many votes as trees were counted.
proof fn lemma_class_votes_bound(nodes: Seq<Branch>, features: Seq<u16>, c: int, upto: nat)
    ensures
        class_votes(nodes, features, c, upto) <= upto,
    decreases upto,
{
    if upto > 0 {
        lemma_class_votes_bound(nodes, features, c, (upto - 1) as nat);
    }
}

/// The bytes of the branches, eight per branch, one after the other.
pub open spec fn branches_bytes(bs: Seq<Branch>) -> Seq<u8>
    decreases bs.len(),
{
    if bs.len() == 0 {
        Seq::empty()
    } else {
        branches_bytes(bs.drop_last()) + branch_bytes(bs.last())
    }
}

/// The byte that records the number of targets: zero for a regression
/// forest.
pub open spec fn targets_byte(t: Option<u8>) -> u8 {
    match t {
        Some(n) => n,
        None => 0u8,
    }
}

/// The bytes of a forest: the number of trees (little-endian), of features
/// and of targets, two bytes of padding, then the branches.
pub open spec fn forest_bytes(f: OptimizedForest) -> Seq<u8> {
    let n = f.num_trees as int;
    seq![
        (n % 256) as u8, ((n / 256) % 256) as u8, ((n / 65536) % 256) as u8, (n / 16777216) as u8,
        f.num_features, targets_byte(f.num_targets), 0u8, 0u8,
    ] + branches_bytes(f.branches@)
}

/// The branches' bytes hold each branch at its eight bytes.
proof fn lemma_branches_bytes(bs: Seq<Branch>)
    ensures
        branches_bytes(bs).len() == 8 * bs.len(),
        forall|i: int| 0 <= i < bs.len() ==> #[trigger] branches_bytes(bs).subrange(8 * i, 8 * i + 8) == branch_bytes(bs[i]),
    decreases bs.len(),
{
    if bs.len() > 0 {
        let p = bs.drop_last();
        lemma_branches_bytes(p);
        let all = branches_bytes(bs);
        assert forall|i: int| 0 <= i < bs.len() implies #[trigger] all.subrange(8 * i, 8 * i + 8) == branch_bytes(bs[i]) by {
            if i < p.len() {
                assert(all.subrange(8 * i, 8 * i + 8) =~= branches_bytes(p).subrange(8 * i, 8 * i + 8));
            } else {
                assert(all.subrange(8 * i, 8 * i + 8) =~= branch_bytes(bs.last()));
            }
        }
    }
}

impl OptimizedForest {
    /// The forest's bytes, as `deserialize` reads them.
    pub fn to_bytes(&self) -> (r: Vec<u8>)
        ensures
            r@ == forest_bytes(*self),
    {
        let mut bytes: Vec<u8> = Vec::new();
        let (a, b, c, d) = u32_to_le(self.num_trees);
        bytes.push(a);
        bytes.push(b);
        bytes.push(c);
        bytes.push(d);
        bytes.push(self.num_features);
        let t: u8 = match self.num_targets {
            Some(n) => n,
            None => 0,
        };
        bytes.push(t);
        bytes.push(0);
        bytes.push(0);
        let ghost head = bytes@;
        proof {
            assert(head =~= forest_bytes(*self).subrange(0, 8));
        }
        let mut i: usize = 0;
        while i < self.branches.len()
            invariant
                0 <= i <= self.branches@.len(),
                head == forest_bytes(*self).subrange(0, 8),
                bytes@ == head + branches_bytes(self.branches@.subrange(0, i as int)),
            decreases self.branches@.len() - i,
        {
            let br = self.branches[i];
            let (l0, l1) = u16_to_le(br.left);
            let (r0, r1) = u16_to_le(br.right);
            let (s0, s1) = u16_to_le(br.split_at);
            let (f0, f1) = u16_to_le(br.flags.0);
            let ghost before = bytes@;
            bytes.push(l0);
            bytes.push(l1);
            bytes.push(r0);
            bytes.push(r1);
            bytes.push(s0);
            bytes.push(s1);
            bytes.push(f0);
            bytes.push(f1);
            proof {
                let sub = self.branches@.subrange(0, i + 1);
                assert(sub.drop_last() =~= self.branches@.subrange(0, i as int));
                assert(sub.last() == br);
                assert(bytes@ =~= before + branch_bytes(br));
                assert(bytes@ =~= head + branches_bytes(sub));
            }
            i = i + 1;
        }
        proof {
            assert(self.branches@.subrange(0, self.branches@.len() as int) =~= self.branches@);
            assert(bytes@ =~= forest_bytes(*self));
        }
        bytes
    }
}

/// Writing a forest and reading its bytes back gives the same forest: the
/// bytes are of the forest's problem type, their branches are well formed
/// when the forest's pointers index its branches, and each field and branch
/// reads back as it was. A forest needs a branch, and a classification
/// forest a non-zero number of targets, for its bytes to read back.
pub proof fn lemma_forest_bytes_round_trip(f: OptimizedForest)
    requires
        f.branches@.len() >= 1,
        f.num_targets != Some(0u8),
    ensures
        forest_bytes(f).len() >= 16,
        problem_type_matches(forest_bytes(f), f.num_targets is Some),
        branches_well_formed(forest_bytes(f)) <==> forall|i: int|
            0 <= i < f.branches@.len() ==> pointers_within(#[trigger] f.branches@[i], f.branches@.len() as int),
        le32(forest_bytes(f)[0], forest_bytes(f)[1], forest_bytes(f)[2], forest_bytes(f)[3]) == f.num_trees as int,
        forest_bytes(f)[4] == f.num_features,
        (if forest_bytes(f)[5] == 0 { None::<u8> } else { Some(forest_bytes(f)[5]) }) == f.num_targets,
        branch_count(forest_bytes(f)) == f.branches@.len(),
        forall|i: int| 0 <= i < f.branches@.len() ==> #[trigger] branch_at(forest_bytes(f), i) == f.branches@[i],
{
    let b = forest_bytes(f);
    let bs = f.branches@;
    lemma_branches_bytes(bs);
    let n = f.num_trees as int;
    assert(b[0] == (n % 256) as u8 && b[1] == ((n / 256) % 256) as u8 && b[2] == ((n / 65536) % 256) as u8 && b[3] == (n
        / 16777216) as u8);
    assert(le32(b[0], b[1], b[2], b[3]) == n) by (nonlinear_arith)
        requires
            0 <= n < 0x1_0000_0000,
            b[0] as int == n % 256,
            b[1] as int == (n / 256) % 256,
            b[2] as int == (n / 65536) % 256,
            b[3] as int == n / 16777216,
    ;
    assert(b.len() == 8 + 8 * bs.len());
    assert(branch_count(b) == bs.len()) by (nonlinear_arith)
        requires
            b.len() == 8 + 8 * bs.len(),
    ;
    assert forall|i: int| 0 <= i < bs.len() implies #[trigger] branch_at(b, i) == bs[i] by {
        assert(b.subrange(8 + 8 * i, 16 + 8 * i) =~= branches_bytes(bs).subrange(8 * i, 8 * i + 8));
        lemma_branch_decode_encode(bs[i]);
    }
    assert((b.len() - 8) % 8 == 0) by (nonlinear_arith)
        requires
            b.len() == 8 + 8 * bs.len(),
    ;
    let n_b = bs.len() as int;
    if forall|i: int| 0 <= i < n_b ==> pointers_within(#[trigger] bs[i], n_b) {
        assert forall|i: int| 0 <= i < branch_count(b) implies pointers_within(#[trigger] branch_at(b, i), branch_count(b)) by {
            assert(branch_at(b, i) == bs[i]);
        }
    }
    if branches_well_formed(b) {
        assert forall|i: int| 0 <= i < n_b implies pointers_within(#[trigger] bs[i], n_b) by {
            assert(branch_at(b, i) == bs[i]);
        }
    }
}

/// A forest that passes `verify` only points forward: in each visited tree,
/// every non-padding node at index `i` of its tree (from the tree's first
/// branch on) that has index `j` as a pointer child, left or right, has
/// `i < j < nodes.len()`; and the tree's header sits at an even node index.
pub proof fn lemma_verified_points_forward(nodes: Seq<Branch>, num_trees: int, k: nat, i: int, j: int)
    requires
        forest_verified(nodes, num_trees),
        k < visited_count(num_trees),
        header_first_node(nodes[header_at(nodes, k)]) <= i < header_tree_len(nodes[header_at(nodes, k)]),
        !is_padding(nodes[header_at(nodes, k) + i]),
        points_to(nodes[header_at(nodes, k) + i], j),
    ensures
        i < j < nodes.len(),
        header_at(nodes, k) % 2 == 0,
{
    let h = header_at(nodes, k);
    assert(tree_ok(nodes, h));
    assert(node_ok(nodes[h + i], i, nodes.len() as int));
}

} // verus!
