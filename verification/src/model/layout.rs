//! Checks of a model's node layout: its trees follow one another within the
//! nodes, and their pointers go forward.

use vstd::prelude::*;

use super::acyclic::{points_to, trees_in_bounds};
use super::{chain_ok, first_node_at, headers_from, lemma_headers_from_bounds, tree_at, tree_header_indices, tree_headers_of,
    tree_len_at, Model, Node};
use crate::Error;

verus! {

impl Model {
    /// Whether the trees follow one another from node 0 up to the last node,
    /// each with a non-zero length, and their number is the model's number of
    /// trees.
    pub fn layout_ok(&self) -> (b: bool)
        ensures
            b == (trees_in_bounds(self.nodes@) && tree_headers_of(self.nodes@).len() == self.num_trees.value()),
    {
        let ghost nodes = self.nodes@;
        let n = self.nodes.len();
        if n == 0 {
            return false;
        }
        let mut cur: usize = 0;
        let mut count: u64 = 0;
        let ghost mut seen: Seq<usize> = Seq::empty();
        loop
            invariant
                nodes == self.nodes@,
                n == nodes.len(),
                0 <= cur < n,
                seen.len() == count,
                count <= cur,
                seen + headers_from(nodes, cur as int) == tree_headers_of(nodes),
                chain_ok(nodes, cur as int) ==> chain_ok(nodes, 0),
                chain_ok(nodes, 0) ==> chain_ok(nodes, cur as int),
                forall|k: int| 0 <= k < seen.len() ==> (#[trigger] seen[k] as int) + tree_len_at(nodes, seen[k] as int) <= n,
            decreases n - cur,
        {
            let tl = self.nodes[cur].as_header().tree_len() as usize;
            if tl == 0 {
                return false;
            }
            if cur > usize::MAX - tl {
                return false;
            }
            let next = cur + tl;
            if next > n {
                proof {
                    if chain_ok(nodes, 0) {
                        lemma_headers_from_bounds(nodes, cur as int);
                        assert(tree_headers_of(nodes)[seen.len() as int] == cur);
                    }
                }
                return false;
            }
            count = count + 1;
            let ghost before = seen;
            proof {
                seen = seen.push(cur);
                assert forall|k: int| 0 <= k < seen.len() implies (#[trigger] seen[k] as int) + tree_len_at(nodes, seen[k] as int) <= n by {
                    if k < before.len() {
                        assert(seen[k] == before[k]);
                    }
                }
            }
            if next >= n {
                proof {
                    assert(headers_from(nodes, cur as int) == seq![cur]);
                    assert(seen =~= tree_headers_of(nodes));
                    assert(chain_ok(nodes, cur as int));
                    lemma_headers_from_bounds(nodes, 0);
                }
                return count == self.num_trees() as u64;
            }
            proof {
                assert(headers_from(nodes, cur as int) == seq![cur] + headers_from(nodes, next as int));
                assert(chain_ok(nodes, cur as int) ==> chain_ok(nodes, next as int));
                assert(seen + headers_from(nodes, next as int) =~= before + headers_from(nodes, cur as int));
                assert(chain_ok(nodes, next as int) ==> chain_ok(nodes, cur as int));
            }
            cur = next;
        }
    }
}

/// From node `first` on, every non-padding node of the tree points forward:
/// each pointer child is after the node and below `nodes_len`.
pub open spec fn points_forward(tree: Seq<Node>, first: int, nodes_len: int) -> bool {
    forall|i: int| first <= i < tree.len() && !(#[trigger] tree[i]).spec_is_padding() ==> {
        let b = tree[i].branch();
        &&& !b.flags.spec_left_prediction() ==> i < b.left < nodes_len
        &&& !b.flags.spec_right_prediction() ==> i < b.right < nodes_len
    }
}

/// Whether the tree points forward from node `first` on.
fn tree_points_forward(tree: &[Node], first: usize, nodes_len: usize) -> (b: bool)
    ensures
        b == points_forward(tree@, first as int, nodes_len as int),
{
    let mut i: usize = first;
    while i < tree.len()
        invariant
            first <= i,
            forall|k: int| first <= k < i && k < tree@.len() && !(#[trigger] tree@[k]).spec_is_padding() ==> {
                let b = tree@[k].branch();
                &&& !b.flags.spec_left_prediction() ==> k < b.left < nodes_len
                &&& !b.flags.spec_right_prediction() ==> k < b.right < nodes_len
            },
        decreases tree@.len() - i,
    {
        let node = &tree[i];
        // Skip padding.
        if !node.is_padding() {
            let branch = node.as_branch();
            let left_ptr = branch.left_ptr() as usize;
            let right_ptr = branch.right_ptr() as usize;
            if (!branch.flags().left_prediction() && (left_ptr <= i || left_ptr >= nodes_len)) || (!branch.flags().right_prediction()
                && (right_ptr <= i || right_ptr >= nodes_len)) {
                assert(first <= i < tree@.len() && !tree@[i as int].spec_is_padding());
                return false;
            }
        }
        i = i + 1;
    }
    true
}

/// The tree whose header is at `h` passes the forward check: its header sits
/// at an even node index, and from its first node on, each non-padding
/// node's pointer children come after it and below the number of nodes.
pub open spec fn tree_forward_ok(nodes: Seq<Node>, h: int) -> bool {
    h % 2 == 0 && points_forward(tree_at(nodes, h), first_node_at(nodes, h), nodes.len() as int)
}

impl Model {
    /// Verify the trees along the header chain: a header at an odd node index
    /// is misaligned (node 0 starts a 16-byte line and nodes are 8 bytes
    /// long); otherwise every tree's pointers must go forward: from its first
    /// node on, each non-padding node's pointer children come after it and
    /// below the number of nodes. The first tree that fails gives the error.
    ///
    /// Whether node 0 itself starts a 16-byte line in memory is for the
    /// caller that holds the byte buffer to check.
    pub fn verify(&self) -> (r: Result<(), Error>)
        requires
            trees_in_bounds(self.nodes@),
        ensures
            r is Ok <==> forall|k: int|
                0 <= k < tree_headers_of(self.nodes@).len() ==> tree_forward_ok(self.nodes@, #[trigger] tree_headers_of(self.nodes@)[k] as int),
            r is Err ==> exists|k: int|
                0 <= k < tree_headers_of(self.nodes@).len() && (forall|j: int|
                    0 <= j < k ==> tree_forward_ok(self.nodes@, #[trigger] tree_headers_of(self.nodes@)[j] as int)) && (if tree_headers_of(
                    self.nodes@,
                )[k] % 2 != 0 {
                    r == Err::<(), Error>(Error::MisalignedData)
                } else {
                    r == Err::<(), Error>(Error::MalformedForest) && !tree_forward_ok(self.nodes@, tree_headers_of(self.nodes@)[k] as int)
                }),
    {
        let nodes_len = self.nodes.len();
        let hs = tree_header_indices(self.nodes.as_slice());
        proof {
            lemma_headers_from_bounds(self.nodes@, 0);
        }
        let mut k: usize = 0;
        while k < hs.len()
            invariant
                hs@ == tree_headers_of(self.nodes@),
                nodes_len == self.nodes@.len(),
                trees_in_bounds(self.nodes@),
                forall|j: int| 0 <= j < hs@.len() ==> chain_ok(self.nodes@, #[trigger] hs@[j] as int) && hs@[j] < self.nodes@.len(),
                0 <= k <= hs@.len(),
                forall|j: int| 0 <= j < k ==> tree_forward_ok(self.nodes@, #[trigger] hs@[j] as int),
            decreases hs@.len() - k,
        {
            let header_idx = hs[k];
            assert(hs@[k as int] + tree_len_at(self.nodes@, hs@[k as int] as int) <= self.nodes@.len());
            assert(chain_ok(self.nodes@, hs@[k as int] as int));
            if header_idx % 2 != 0 {
                assert(!tree_forward_ok(self.nodes@, hs@[k as int] as int));
                return Err(Error::MisalignedData);
            }
            let (header, tree_nodes) = self.get_tree(header_idx);
            if !tree_points_forward(tree_nodes, header.first_node_idx() as usize, nodes_len) {
                assert(!tree_forward_ok(self.nodes@, hs@[k as int] as int));
                return Err(Error::MalformedForest);
            }
            k = k + 1;
        }
        Ok(())
    }
}

/// A tree that passes the forward check only points forward: from its first
/// node on, every non-padding node `i` that has node `j` as a pointer child
/// (left or right) has `i < j < nodes.len()`, and the tree's header sits at
/// an even node index. So `verify` gives `Ok` only for models in which every
/// path of pointers climbs strictly through the nodes.
pub proof fn lemma_forward_ok_points_forward(nodes: Seq<Node>, h: int, i: int, j: int)
    requires
        tree_forward_ok(nodes, h),
        first_node_at(nodes, h) <= i < tree_at(nodes, h).len(),
        !tree_at(nodes, h)[i].spec_is_padding(),
        points_to(tree_at(nodes, h)[i].branch(), j),
    ensures
        i < j < nodes.len(),
        h % 2 == 0,
{
}

/// Along a path of pointers in a tree that passes the forward check, the
/// node index grows by at least one at each step: after `n` steps from node
/// `i` (each from a non-padding node at or after the first), the path is at
/// a node of index at least `i + n`, so no path runs past `nodes.len()`
/// steps and no path returns to a node.
pub proof fn lemma_forward_paths_climb(nodes: Seq<Node>, h: int, path: Seq<int>)
    requires
        tree_forward_ok(nodes, h),
        path.len() >= 1,
        forall|k: int| 0 <= k < path.len() - 1 ==> {
            &&& first_node_at(nodes, h) <= #[trigger] path[k] < tree_at(nodes, h).len()
            &&& !tree_at(nodes, h)[path[k]].spec_is_padding()
            &&& points_to(tree_at(nodes, h)[path[k]].branch(), path[k + 1])
        },
    ensures
        forall|k: int| 0 <= k < path.len() ==> path[0] + k <= #[trigger] path[k],
        path.len() >= 2 ==> path[path.len() - 1] < nodes.len(),
    decreases path.len(),
{
    if path.len() >= 2 {
        let p = path.drop_last();
        assert forall|k: int| 0 <= k < p.len() - 1 implies {
            &&& first_node_at(nodes, h) <= #[trigger] p[k] < tree_at(nodes, h).len()
            &&& !tree_at(nodes, h)[p[k]].spec_is_padding()
            &&& points_to(tree_at(nodes, h)[p[k]].branch(), p[k + 1])
        } by {
            assert(p[k] == path[k] && p[k + 1] == path[k + 1]);
        }
        lemma_forward_paths_climb(nodes, h, p);
        let l = path.len() - 2;
        assert(path[l] == p[l]);
        lemma_forward_ok_points_forward(nodes, h, path[l], path[l + 1]);
        assert forall|k: int| 0 <= k < path.len() implies path[0] + k <= #[trigger] path[k] by {
            if k < p.len() {
                assert(path[k] == p[k]);
            }
        }
    }
}

} // verus!
