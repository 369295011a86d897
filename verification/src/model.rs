use vstd::prelude::*;

pub mod acyclic;
pub mod layout;
pub mod storage;

use crate::bytes::{le16, le32, lemma_le16_digits, lemma_le32_digits, u16_from_le, u16_to_le, u32_from_le, u32_to_le};
use crate::split::{bf16_le, feature_le};
use crate::Error;
use acyclic::trees_in_bounds;

verus! {

/// Bit-packed node flags: bits 0..14 hold the split variable index, bit 15 is
/// set when the left child is a prediction, bit 14 when the right one is.
#[derive(Clone, Copy)]
pub struct Flags(pub u16);

/// The flags built from a split variable and two prediction bits decode back
/// to them.
pub proof fn lemma_flags_decode(split_var_idx: u16, left: bool, right: bool)
    requires
        split_var_idx <= 0x3fff,
    ensures
        Flags(Flags::spec_new(split_var_idx, left, right)).spec_left_prediction() == left,
        Flags(Flags::spec_new(split_var_idx, left, right)).spec_right_prediction() == right,
        Flags(Flags::spec_new(split_var_idx, left, right)).spec_split_var_idx() == split_var_idx,
{
    let v = Flags::spec_new(split_var_idx, left, right) as int;
    let l: int = if left { 1 } else { 0 };
    let r: int = if right { 1 } else { 0 };
    assert(v == split_var_idx as int + 0x8000 * l + 0x4000 * r);
    assert(v % 0x8000 == split_var_idx as int + 0x4000 * r);
    assert(v % 0x4000 == split_var_idx as int);
}

impl Flags {
    pub open spec fn spec_new(split_var_idx: u16, left: bool, right: bool) -> u16 {
        (split_var_idx as int + (if left { 0x8000int } else { 0 }) + (if right { 0x4000int } else { 0 })) as u16
    }

    pub open spec fn spec_left_prediction(self) -> bool {
        self.0 >= 0x8000
    }

    pub open spec fn spec_right_prediction(self) -> bool {
        self.0 % 0x8000 >= 0x4000
    }

    pub open spec fn spec_split_var_idx(self) -> u16 {
        (self.0 % 0x4000) as u16
    }

    pub fn new(split_var_idx: u16, left_is_prediction: bool, right_is_prediction: bool) -> (f: Self)
        requires
            split_var_idx <= 0x3fff,
        ensures
            f.0 == Self::spec_new(split_var_idx, left_is_prediction, right_is_prediction),
            f.spec_left_prediction() == left_is_prediction,
            f.spec_right_prediction() == right_is_prediction,
            f.spec_split_var_idx() == split_var_idx,
    {
        let l: u16 = if left_is_prediction { 1 } else { 0 };
        let r: u16 = if right_is_prediction { 1 } else { 0 };
        let val = split_var_idx | (l << 15u16) | (r << 14u16);
        assert(val == Self::spec_new(split_var_idx, left_is_prediction, right_is_prediction)) by (bit_vector)
            requires
                split_var_idx <= 0x3fff,
                l == (if left_is_prediction { 1u16 } else { 0u16 }),
                r == (if right_is_prediction { 1u16 } else { 0u16 }),
                val == split_var_idx | (l << 15u16) | (r << 14u16);
        Flags(val)
    }

    pub fn left_prediction(&self) -> (b: bool)
        ensures
            b == self.spec_left_prediction(),
    {
        let v = self.0;
        let b = (v >> 15u16) & 1 != 0;
        assert(b == (v >= 0x8000)) by (bit_vector)
            requires
                b == ((v >> 15u16) & 1 != 0);
        b
    }

    pub fn right_prediction(&self) -> (b: bool)
        ensures
            b == self.spec_right_prediction(),
    {
        let v = self.0;
        let b = (v >> 14u16) & 1 != 0;
        assert(b == (v % 0x8000 >= 0x4000)) by (bit_vector)
            requires
                b == ((v >> 14u16) & 1 != 0);
        b
    }

    pub fn both_predictions(&self) -> (b: bool)
        ensures
            b == (self.spec_left_prediction() && self.spec_right_prediction()),
    {
        self.left_prediction() && self.right_prediction()
    }

    pub fn split_var_idx(&self) -> (i: u16)
        ensures
            i == self.spec_split_var_idx(),
    {
        let v = self.0;
        let i = v & (u16::MAX >> 2u16);
        assert(i == v % 0x4000) by (bit_vector)
            requires
                i == v & (0xffffu16 >> 2u16);
        i
    }
}


/// Cache metadata of a tree header: a non-zero value marks the first tree of a
/// cell's cache and gives the number of trees in that cache.
#[derive(Clone, Copy)]
pub struct CacheMetadata(pub u16);

impl CacheMetadata {
    /// Metadata of a cell header holding `num_trees` trees (non-zero).
    pub fn new_cell_header(num_trees: u16) -> (r: Result<Self, Error>)
        requires
            num_trees > 0,
        ensures
            r matches Ok(m) && m.0 == num_trees,
    {
        Ok(CacheMetadata(num_trees))
    }

    /// Metadata of a header that does not start a cell.
    pub fn new_empty() -> (m: Self)
        ensures
            m.0 == 0,
    {
        CacheMetadata(0)
    }

    /// Returns `true` if the cache header flag is set.
    pub fn is_cell_header(&self) -> (b: bool)
        ensures
            b == (self.0 > 0),
    {
        self.0 > 0
    }

    /// The number of trees in the cache if this is a cell header, `None`
    /// otherwise.
    pub fn get_num_trees(&self) -> (r: Option<u16>)
        ensures
            r == (if self.0 > 0 { Some(self.0) } else { None::<u16> }),
    {
        if self.is_cell_header() {
            Some(self.0)
        } else {
            None
        }
    }
}

/// The header node of a tree: its length in nodes, the index of its first
/// branch within the tree, and its cache metadata.
#[derive(Clone, Copy)]
pub struct TreeHeader {
    pub tree_len: u32,
    pub first_node_idx: u16,
    pub cache_metadata: CacheMetadata,
}

impl TreeHeader {
    pub fn new(tree_len: u32, first_node_idx: u16, cache_metadata: CacheMetadata) -> (r: Result<Self, Error>)
        ensures
            r matches Ok(h) && h == (TreeHeader { tree_len, first_node_idx, cache_metadata }),
    {
        Ok(TreeHeader { tree_len, first_node_idx, cache_metadata })
    }

    pub fn set_tree_len(&mut self, tree_len: u32)
        ensures
            *final(self) == (TreeHeader { tree_len, ..*old(self) }),
    {
        self.tree_len = tree_len;
    }

    pub fn set_cache_metadata(&mut self, cache_metadata: CacheMetadata)
        ensures
            *final(self) == (TreeHeader { cache_metadata, ..*old(self) }),
    {
        self.cache_metadata = cache_metadata;
    }

    pub fn cache_metadata(&self) -> (m: &CacheMetadata)
        ensures
            *m == self.cache_metadata,
    {
        &self.cache_metadata
    }

    pub fn tree_len(&self) -> (l: u32)
        ensures
            l == self.tree_len,
    {
        self.tree_len
    }

    pub fn first_node_idx(&self) -> (i: u16)
        ensures
            i == self.first_node_idx,
    {
        self.first_node_idx
    }
}

/// A branch node: two child pointers (or predictions), the split threshold as
/// `bf16` bits, and the flags.
#[derive(Clone, Copy)]
pub struct Branch {
    pub left: u16,
    pub right: u16,
    pub split_at: u16,
    pub flags: Flags,
}

impl Branch {
    pub fn new(split_with: u16, split_at: u16, left: u16, right: u16, left_leaf: bool, right_leaf: bool) -> (b: Self)
        requires
            split_with <= 0x3fff,
        ensures
            b.left == left,
            b.right == right,
            b.split_at == split_at,
            b.flags.spec_split_var_idx() == split_with,
            b.flags.spec_left_prediction() == left_leaf,
            b.flags.spec_right_prediction() == right_leaf,
            b.flags.0 == Flags::spec_new(split_with, left_leaf, right_leaf),
    {
        let flags = Flags::new(split_with, left_leaf, right_leaf);
        Branch { flags, split_at, left, right }
    }

    pub fn split_with(&self) -> (i: u16)
        ensures
            i == self.flags.spec_split_var_idx(),
    {
        self.flags.split_var_idx()
    }

    pub fn split_at(&self) -> (s: u16)
        ensures
            s == self.split_at,
    {
        self.split_at
    }

    pub fn left_ptr(&self) -> (p: u16)
        ensures
            p == self.left,
    {
        self.left
    }

    pub fn right_ptr(&self) -> (p: u16)
        ensures
            p == self.right,
    {
        self.right
    }

    pub fn flags(&self) -> (f: Flags)
        ensures
            f == self.flags,
    {
        self.flags
    }
}

/// An 8-byte node of a compiled model: a tree header, a branch or padding,
/// depending on its position.
#[derive(Clone, Copy)]
pub struct Node(pub [u8; 8]);

/// The tree header that 8 bytes encode.
pub open spec fn header_of(b: Seq<u8>) -> TreeHeader {
    TreeHeader {
        tree_len: le32(b[0], b[1], b[2], b[3]) as u32,
        first_node_idx: le16(b[4], b[5]) as u16,
        cache_metadata: CacheMetadata(le16(b[6], b[7]) as u16),
    }
}

/// The branch that 8 bytes encode.
pub open spec fn branch_of(b: Seq<u8>) -> Branch {
    Branch {
        left: le16(b[0], b[1]) as u16,
        right: le16(b[2], b[3]) as u16,
        split_at: le16(b[4], b[5]) as u16,
        flags: Flags(le16(b[6], b[7]) as u16),
    }
}

impl Node {
    pub open spec fn header(self) -> TreeHeader {
        header_of(self.0@)
    }

    pub open spec fn branch(self) -> Branch {
        branch_of(self.0@)
    }

    pub open spec fn spec_is_padding(self) -> bool {
        forall|i: int| 0 <= i < 8 ==> self.0@[i] == 0u8
    }

    /// The all-zero padding node.
    pub fn padding() -> (n: Node)
        ensures
            n.spec_is_padding(),
            n.0@ == seq![0u8, 0u8, 0u8, 0u8, 0u8, 0u8, 0u8, 0u8],
    {
        let n = Node([0u8, 0u8, 0u8, 0u8, 0u8, 0u8, 0u8, 0u8]);
        assert(n.0@ =~= seq![0u8, 0u8, 0u8, 0u8, 0u8, 0u8, 0u8, 0u8]);
        n
    }

    pub fn as_header(&self) -> (h: TreeHeader)
        ensures
            h == self.header(),
    {
        let b = &self.0;
        TreeHeader {
            tree_len: u32_from_le(b[0], b[1], b[2], b[3]),
            first_node_idx: u16_from_le(b[4], b[5]),
            cache_metadata: CacheMetadata(u16_from_le(b[6], b[7])),
        }
    }

    pub fn from_header(header: TreeHeader) -> (n: Node)
        ensures
            n.header() == header,
            n.0@ == header_bytes(header),
    {
        let (b0, b1, b2, b3) = u32_to_le(header.tree_len);
        let (b4, b5) = u16_to_le(header.first_node_idx);
        let (b6, b7) = u16_to_le(header.cache_metadata.0);
        let n = Node([b0, b1, b2, b3, b4, b5, b6, b7]);
        assert(n.0@ =~= seq![b0, b1, b2, b3, b4, b5, b6, b7]);
        n
    }

    pub fn as_branch(&self) -> (br: Branch)
        ensures
            br == self.branch(),
    {
        let b = &self.0;
        Branch {
            left: u16_from_le(b[0], b[1]),
            right: u16_from_le(b[2], b[3]),
            split_at: u16_from_le(b[4], b[5]),
            flags: Flags(u16_from_le(b[6], b[7])),
        }
    }

    pub fn from_branch(branch: Branch) -> (n: Node)
        ensures
            n.branch() == branch,
            n.0@ == branch_bytes(branch),
    {
        let (b0, b1) = u16_to_le(branch.left);
        let (b2, b3) = u16_to_le(branch.right);
        let (b4, b5) = u16_to_le(branch.split_at);
        let (b6, b7) = u16_to_le(branch.flags.0);
        let n = Node([b0, b1, b2, b3, b4, b5, b6, b7]);
        assert(n.0@ =~= seq![b0, b1, b2, b3, b4, b5, b6, b7]);
        n
    }

    pub fn is_padding(&self) -> (r: bool)
        ensures
            r == self.spec_is_padding(),
    {
        let mut i: usize = 0;
        while i < 8
            invariant
                0 <= i <= 8,
                forall|j: int| 0 <= j < i ==> self.0@[j] == 0u8,
            decreases 8 - i,
        {
            if self.0[i] != 0 {
                return false;
            }
            i = i + 1;
        }
        true
    }
}


/// The bytes that encode a header.
pub open spec fn header_bytes(h: TreeHeader) -> Seq<u8> {
    let l = h.tree_len as int;
    let f = h.first_node_idx as int;
    let c = h.cache_metadata.0 as int;
    seq![
        (l % 256) as u8, ((l / 256) % 256) as u8, ((l / 65536) % 256) as u8, (l / 16777216) as u8,
        (f % 256) as u8, (f / 256) as u8, (c % 256) as u8, (c / 256) as u8,
    ]
}

/// The bytes that encode a branch.
pub open spec fn branch_bytes(b: Branch) -> Seq<u8> {
    let l = b.left as int;
    let r = b.right as int;
    let s = b.split_at as int;
    let f = b.flags.0 as int;
    seq![
        (l % 256) as u8, (l / 256) as u8, (r % 256) as u8, (r / 256) as u8,
        (s % 256) as u8, (s / 256) as u8, (f % 256) as u8, (f / 256) as u8,
    ]
}

/// Every 8 bytes are the encoding of the header they decode to: the header
/// view of a node loses nothing.
pub proof fn lemma_header_bytes_roundtrip(b: Seq<u8>)
    requires
        b.len() == 8,
    ensures
        header_bytes(header_of(b)) == b,
{
    lemma_le32_digits(b[0], b[1], b[2], b[3]);
    lemma_le16_digits(b[4], b[5]);
    lemma_le16_digits(b[6], b[7]);
    assert(header_bytes(header_of(b)) =~= b);
}

/// Every 8 bytes are the encoding of the branch they decode to: the branch
/// view of a node loses nothing.
pub proof fn lemma_branch_bytes_roundtrip(b: Seq<u8>)
    requires
        b.len() == 8,
    ensures
        branch_bytes(branch_of(b)) == b,
{
    lemma_le16_digits(b[0], b[1]);
    lemma_le16_digits(b[2], b[3]);
    lemma_le16_digits(b[4], b[5]);
    lemma_le16_digits(b[6], b[7]);
    assert(branch_bytes(branch_of(b)) =~= b);
}

/// A header decodes back from its encoding.
pub proof fn lemma_header_decode_encode(h: TreeHeader)
    ensures
        header_of(header_bytes(h)) == h,
{
}

/// A branch decodes back from its encoding.
pub proof fn lemma_branch_decode_encode(b: Branch)
    ensures
        branch_of(branch_bytes(b)) == b,
{
}


/// A 3-byte little-endian unsigned integer.
#[allow(non_camel_case_types)]
#[derive(Clone, Copy)]
pub struct u24(pub [u8; 3]);

impl u24 {
    /// The value of this integer.
    pub open spec fn value(self) -> int {
        self.0@[0] as int + 256 * (self.0@[1] as int) + 65536 * (self.0@[2] as int)
    }

    pub fn as_bytes_le(&self) -> (b: &[u8; 3])
        ensures
            *b == self.0,
    {
        &self.0
    }

    /// Converts a `u32` below `0xff_ffff` (that value itself is refused).
    pub fn try_from(value: u32) -> (r: Result<u24, ()>)
        ensures
            value >= 0xff_ffff ==> r is Err,
            value < 0xff_ffff ==> (r matches Ok(v) && v.value() == value as int),
    {
        if value >= 0xff_ffff {
            return Err(());
        }
        let (b0, b1, b2, _b3) = u32_to_le(value);
        let v = u24([b0, b1, b2]);
        assert(v.0@ =~= seq![b0, b1, b2]);
        Ok(v)
    }

    /// The value as a `u32`.
    pub fn to_u32(self) -> (v: u32)
        ensures
            v as int == self.value(),
    {
        u32_from_le(self.0[0], self.0[1], self.0[2], 0)
    }
}

/// The length recorded in the header at index `i`.
pub open spec fn tree_len_at(nodes: Seq<Node>, i: int) -> int {
    nodes[i].header().tree_len as int
}

/// The first-branch index recorded in the header at index `i`.
pub open spec fn first_node_at(nodes: Seq<Node>, i: int) -> int {
    nodes[i].header().first_node_idx as int
}

/// The chain of headers starting at `i` is walkable: each header has a
/// non-zero length and the next header index fits in a `usize`.
pub open spec fn chain_ok(nodes: Seq<Node>, i: int) -> bool
    decreases nodes.len() - i,
{
    if 0 <= i < nodes.len() {
        let tl = tree_len_at(nodes, i);
        tl > 0 && i + tl <= usize::MAX && (i + tl < nodes.len() ==> chain_ok(nodes, i + tl))
    } else {
        true
    }
}

/// The header indices reached from index `i` by following tree lengths.
pub open spec fn headers_from(nodes: Seq<Node>, i: int) -> Seq<usize>
    decreases nodes.len() - i,
{
    if 0 <= i < nodes.len() {
        let tl = tree_len_at(nodes, i);
        if tl > 0 && i + tl < nodes.len() {
            seq![i as usize] + headers_from(nodes, i + tl)
        } else {
            seq![i as usize]
        }
    } else {
        Seq::empty()
    }
}

/// The tree headers of a node sequence: those reached from index 0.
pub open spec fn tree_headers_of(nodes: Seq<Node>) -> Seq<usize> {
    headers_from(nodes, 0)
}

/// Every index in a header chain is within the nodes, and the chain grows.
pub proof fn lemma_headers_from_bounds(nodes: Seq<Node>, i: int)
    requires
        chain_ok(nodes, i),
    ensures
        forall|k: int| 0 <= k < headers_from(nodes, i).len() ==> i <= #[trigger] headers_from(nodes, i)[k] < nodes.len(),
        forall|k: int| 0 <= k < headers_from(nodes, i).len() ==> chain_ok(nodes, #[trigger] headers_from(nodes, i)[k] as int),
        forall|k: int| 0 <= k < headers_from(nodes, i).len() - 1 ==>
            headers_from(nodes, i)[k + 1] == #[trigger] headers_from(nodes, i)[k] + tree_len_at(nodes, headers_from(nodes, i)[k] as int),
        0 <= i < nodes.len() ==> headers_from(nodes, i).len() > 0 && headers_from(nodes, i)[0] == i,
        headers_from(nodes, i).len() <= nodes.len() - i || headers_from(nodes, i).len() == 0,
    decreases nodes.len() - i,
{
    if 0 <= i < nodes.len() {
        let tl = tree_len_at(nodes, i);
        if tl > 0 && i + tl < nodes.len() {
            lemma_headers_from_bounds(nodes, i + tl);
            let rest = headers_from(nodes, i + tl);
            assert(headers_from(nodes, i) == seq![i as usize] + rest);
            assert forall|k: int| 0 <= k < headers_from(nodes, i).len() - 1 implies
                headers_from(nodes, i)[k + 1] == #[trigger] headers_from(nodes, i)[k] + tree_len_at(nodes, headers_from(nodes, i)[k] as int) by {
                if k > 0 {
                    assert(headers_from(nodes, i)[k] == rest[k - 1]);
                }
            }
        }
    }
}

/// A header of the chain lies within the nodes, and the next one, if any,
/// is the header moved by its tree's length, while that stays within the
/// nodes and the length is not zero.
pub proof fn lemma_headers_step(nodes: Seq<Node>, i: int, k: int)
    requires
        0 <= k < headers_from(nodes, i).len(),
        nodes.len() <= usize::MAX,
    ensures
        0 <= headers_from(nodes, i)[k] < nodes.len(),
        headers_from(nodes, i)[k] >= i,
        k == 0 ==> headers_from(nodes, i)[k] == i,
        ({
            let h = headers_from(nodes, i)[k] as int;
            let tl = tree_len_at(nodes, h);
            &&& (k + 1 < headers_from(nodes, i).len()) == (tl > 0 && h + tl < nodes.len())
            &&& k + 1 < headers_from(nodes, i).len() ==> headers_from(nodes, i)[k + 1] == h + tl
        }),
    decreases nodes.len() - i,
{
    let hs = headers_from(nodes, i);
    let tl0 = tree_len_at(nodes, i);
    if tl0 > 0 && i + tl0 < nodes.len() {
        let rest = headers_from(nodes, i + tl0);
        assert(hs == seq![i as usize] + rest);
        if k > 0 {
            lemma_headers_step(nodes, i + tl0, k - 1);
            assert(hs[k] == rest[k - 1]);
            if k + 1 < hs.len() {
                assert(hs[k + 1] == rest[k]);
            }
        } else if rest.len() > 0 {
            lemma_headers_step(nodes, i + tl0, 0);
        }
    } else {
        assert(hs == seq![i as usize]);
    }
}

/// A node sequence whose header chain from index 0 is walkable.
pub open spec fn headers_walkable(nodes: Seq<Node>) -> bool {
    nodes.len() > 0 && chain_ok(nodes, 0)
}

/// Iterator over the tree headers of a node slice, from index 0.
pub struct HeadersIterator<'a> {
    pub nodes: &'a [Node],
    pub current_idx: usize,
    pub first_pass: bool,
}

impl<'a> HeadersIterator<'a> {
    pub fn new(nodes: &'a [Node]) -> (it: Self)
        ensures
            it.nodes@ == nodes@,
            it.current_idx == 0,
            it.first_pass,
    {
        HeadersIterator { nodes, current_idx: 0, first_pass: true }
    }

    /// The next header index: 0 on the first call, then the current index
    /// moved by the current tree's length, while it stays within the nodes.
    pub fn next(&mut self) -> (r: Option<usize>)
        requires
            !old(self).first_pass ==> old(self).current_idx < old(self).nodes@.len(),
            !old(self).first_pass ==> old(self).current_idx + tree_len_at(old(self).nodes@, old(self).current_idx as int) <= usize::MAX,
        ensures
            final(self).nodes@ == old(self).nodes@,
            !final(self).first_pass,
            old(self).first_pass ==> r == Some(0usize) && final(self).current_idx == old(self).current_idx,
            !old(self).first_pass ==> {
                let n = old(self).current_idx + tree_len_at(old(self).nodes@, old(self).current_idx as int);
                &&& final(self).current_idx == n
                &&& r == (if n < old(self).nodes@.len() { Some(n as usize) } else { None::<usize> })
            },
    {
        if self.first_pass {
            self.first_pass = false;
            return Some(0);
        }
        let tl = self.nodes[self.current_idx].as_header().tree_len() as usize;
        self.current_idx = self.current_idx + tl;
        if self.current_idx < self.nodes.len() {
            Some(self.current_idx)
        } else {
            None
        }
    }
}

/// Iterate over the tree headers in the provided node slice. The first node
/// must be a tree header.
pub fn iter_trees<'a>(nodes: &'a [Node]) -> (it: HeadersIterator<'a>)
    ensures
        it.nodes@ == nodes@,
        it.current_idx == 0,
        it.first_pass,
{
    HeadersIterator::new(nodes)
}

/// All the tree header indices of a walkable node slice, in order: the
/// headers iterator run to its end. It yields exactly the header chain, and
/// then `None`.
#[verifier::spinoff_prover]
#[verifier::rlimit(40)]
pub fn tree_header_indices(nodes: &[Node]) -> (r: Vec<usize>)
    requires
        headers_walkable(nodes@),
    ensures
        r@ == tree_headers_of(nodes@),
{
    let ghost hs = tree_headers_of(nodes@);
    proof {
        lemma_headers_from_bounds(nodes@, 0);
    }
    let n = nodes.len();
    let mut it = iter_trees(nodes);
    let mut res: Vec<usize> = Vec::new();
    match it.next() {
        Some(h) => res.push(h),
        None => {},
    }
    loop
        invariant_except_break
            1 <= res@.len() <= hs.len(),
            res@ == hs.take(res@.len() as int),
            it.current_idx == hs[res@.len() - 1],
        invariant
            n == nodes@.len(),
            it.nodes@ == nodes@,
            !it.first_pass,
            hs == tree_headers_of(nodes@),
            headers_walkable(nodes@),
            forall|k: int| 0 <= k < hs.len() ==> chain_ok(nodes@, #[trigger] hs[k] as int),
        ensures
            res@ == hs,
        decreases nodes@.len() - it.current_idx,
    {
        let ghost k = res@.len() - 1;
        proof {
            lemma_headers_step(nodes@, 0, k);
            assert(chain_ok(nodes@, hs[k] as int));
        }
        match it.next() {
            Some(h) => {
                proof {
                    assert(hs.take(k + 2) =~= hs.take(k + 1).push(h));
                }
                res.push(h);
            },
            None => {
                assert(res@ =~= hs);
                break;
            },
        }
    }
    res
}


/// Size of the vote table used by predictions: class indices must be below it.
pub const MAX_NUM_CLASSES: usize = 255;

/// The class that a tree (its nodes `tree`, pointers relative to the tree's
/// header) predicts for `features` (bf16 bit patterns), walking from node
/// `idx` for at most `fuel` branches. A feature goes left when it is `<=` the
/// split.
pub open spec fn walk(tree: Seq<Node>, idx: int, features: Seq<u16>, fuel: nat) -> Option<u16>
    decreases fuel,
{
    if fuel == 0 || !(0 <= idx < tree.len()) {
        None
    } else {
        let b = tree[idx].branch();
        let sv = b.flags.spec_split_var_idx() as int;
        if !(sv < features.len()) {
            None
        } else if bf16_le(features[sv], b.split_at) {
            if b.flags.spec_left_prediction() {
                Some(b.left)
            } else {
                walk(tree, b.left as int, features, (fuel - 1) as nat)
            }
        } else {
            if b.flags.spec_right_prediction() {
                Some(b.right)
            } else {
                walk(tree, b.right as int, features, (fuel - 1) as nat)
            }
        }
    }
}

/// Every path from node `idx` reaches a prediction below `MAX_NUM_CLASSES`
/// within `fuel` branches, through in-bounds nodes whose split variables are
/// below `num_features`.
pub open spec fn paths_end(tree: Seq<Node>, idx: int, num_features: nat, fuel: nat) -> bool
    decreases fuel,
{
    if fuel == 0 || !(0 <= idx < tree.len()) {
        false
    } else {
        let b = tree[idx].branch();
        &&& (b.flags.spec_split_var_idx() as int) < num_features
        &&& if b.flags.spec_left_prediction() {
            b.left < MAX_NUM_CLASSES
        } else {
            paths_end(tree, b.left as int, num_features, (fuel - 1) as nat)
        }
        &&& if b.flags.spec_right_prediction() {
            b.right < MAX_NUM_CLASSES
        } else {
            paths_end(tree, b.right as int, num_features, (fuel - 1) as nat)
        }
    }
}

/// Where every path ends, the walk ends in a class below `MAX_NUM_CLASSES`.
pub proof fn lemma_paths_end_walk(tree: Seq<Node>, idx: int, features: Seq<u16>, fuel: nat)
    requires
        paths_end(tree, idx, features.len(), fuel),
    ensures
        walk(tree, idx, features, fuel) matches Some(c) && c < MAX_NUM_CLASSES,
    decreases fuel,
{
    let b = tree[idx].branch();
    if !b.flags.spec_left_prediction() {
        lemma_paths_end_walk(tree, b.left as int, features, (fuel - 1) as nat);
    }
    if !b.flags.spec_right_prediction() {
        lemma_paths_end_walk(tree, b.right as int, features, (fuel - 1) as nat);
    }
}

/// The nodes of the tree whose header is at `h`.
pub open spec fn tree_at(nodes: Seq<Node>, h: int) -> Seq<Node> {
    nodes.subrange(h, h + tree_len_at(nodes, h))
}

/// The tree at header `h` lies within the nodes, and every path from its first
/// branch ends.
pub open spec fn tree_predicts(nodes: Seq<Node>, h: int, num_features: nat) -> bool {
    &&& 0 <= h
    &&& tree_len_at(nodes, h) > 0
    &&& h + tree_len_at(nodes, h) <= nodes.len()
    &&& exists|fuel: nat| paths_end(tree_at(nodes, h), first_node_at(nodes, h), num_features, fuel)
}

/// Enough fuel for every path of the tree at `h` to end.
pub open spec fn tree_fuel(nodes: Seq<Node>, h: int, num_features: nat) -> nat {
    choose|fuel: nat| paths_end(tree_at(nodes, h), first_node_at(nodes, h), num_features, fuel)
}

/// More fuel keeps every path ending, with the same prediction.
pub proof fn lemma_paths_end_more_fuel(tree: Seq<Node>, idx: int, features: Seq<u16>, f1: nat, f2: nat)
    requires
        paths_end(tree, idx, features.len(), f1),
        f1 <= f2,
    ensures
        paths_end(tree, idx, features.len(), f2),
        walk(tree, idx, features, f2) == walk(tree, idx, features, f1),
    decreases f1,
{
    let b = tree[idx].branch();
    if !b.flags.spec_left_prediction() {
        lemma_paths_end_more_fuel(tree, b.left as int, features, (f1 - 1) as nat, (f2 - 1) as nat);
    }
    if !b.flags.spec_right_prediction() {
        lemma_paths_end_more_fuel(tree, b.right as int, features, (f1 - 1) as nat, (f2 - 1) as nat);
    }
}

/// Any two fuels on which every path ends give the same prediction.
pub proof fn lemma_walk_fuel_independent(tree: Seq<Node>, idx: int, features: Seq<u16>, f1: nat, f2: nat)
    requires
        paths_end(tree, idx, features.len(), f1),
        paths_end(tree, idx, features.len(), f2),
    ensures
        walk(tree, idx, features, f1) == walk(tree, idx, features, f2),
{
    if f1 <= f2 {
        lemma_paths_end_more_fuel(tree, idx, features, f1, f2);
    } else {
        lemma_paths_end_more_fuel(tree, idx, features, f2, f1);
    }
}

/// A node sequence on which a prediction with `num_features` features runs to
/// its end: the header chain is walkable and every tree predicts.
pub open spec fn predictable(nodes: Seq<Node>, num_features: nat) -> bool {
    &&& headers_walkable(nodes)
    &&& forall|k: int| 0 <= k < tree_headers_of(nodes).len() ==>
        tree_predicts(nodes, #[trigger] tree_headers_of(nodes)[k] as int, num_features)
}

/// The class that the tree at header `h` votes for.
pub open spec fn tree_vote(nodes: Seq<Node>, h: int, features: Seq<u16>) -> u16 {
    walk(tree_at(nodes, h), first_node_at(nodes, h), features, tree_fuel(nodes, h, features.len())).unwrap()
}

/// The number of trees, among those with headers `hs`, that vote for class `c`.
pub open spec fn count_votes(nodes: Seq<Node>, hs: Seq<usize>, features: Seq<u16>, c: int) -> nat
    decreases hs.len(),
{
    if hs.len() == 0 {
        0
    } else {
        count_votes(nodes, hs.drop_last(), features, c) + (if tree_vote(nodes, hs.last() as int, features) as int == c {
            1nat
        } else {
            0nat
        })
    }
}

/// The votes for class `c` over all the trees of the nodes.
pub open spec fn model_votes(nodes: Seq<Node>, features: Seq<u16>, c: int) -> nat {
    count_votes(nodes, tree_headers_of(nodes), features, c)
}

/// `r` is the class with the most votes among `0..MAX_NUM_CLASSES`, the lowest
/// such class on a tie.
pub open spec fn is_winning_class(votes: spec_fn(int) -> nat, r: int) -> bool {
    &&& 0 <= r < MAX_NUM_CLASSES
    &&& forall|c: int| 0 <= c < MAX_NUM_CLASSES ==> #[trigger] votes(c) <= votes(r)
    &&& forall|c: int| 0 <= c < r ==> #[trigger] votes(c) < votes(r)
}

/// The vote counts of a vote table.
pub open spec fn table_votes(t: Seq<u64>) -> spec_fn(int) -> nat {
    |c: int| t[c] as nat
}

/// The index of the largest entry in a vote table of `MAX_NUM_CLASSES`
/// entries, the lowest index on a tie.
pub fn winning_class(votes: &Vec<u64>) -> (r: usize)
    requires
        votes@.len() == MAX_NUM_CLASSES,
    ensures
        is_winning_class(table_votes(votes@), r as int),
{
    let mut best: usize = 0;
    let mut i: usize = 1;
    while i < MAX_NUM_CLASSES
        invariant
            votes@.len() == MAX_NUM_CLASSES,
            1 <= i <= MAX_NUM_CLASSES,
            best < i,
            forall|c: int| 0 <= c < i ==> votes@[c] <= votes@[best as int],
            forall|c: int| 0 <= c < best ==> votes@[c] < votes@[best as int],
        decreases MAX_NUM_CLASSES - i,
    {
        if votes[i] > votes[best] {
            best = i;
        }
        i = i + 1;
    }
    best
}

/// Walk a tree from node `first` to the class it predicts for `features`.
pub fn predict_tree(tree: &[Node], first: usize, features: &[u16], Ghost(fuel): Ghost<nat>) -> (c: u16)
    requires
        paths_end(tree@, first as int, features@.len(), fuel),
    ensures
        Some(c) == walk(tree@, first as int, features@, fuel),
        c < MAX_NUM_CLASSES,
{
    let ghost mut f = fuel;
    let mut node = tree[first].as_branch();
    let ghost mut idx: int = first as int;
    proof {
        lemma_paths_end_walk(tree@, first as int, features@, fuel);
    }
    loop
        invariant
            paths_end(tree@, idx, features@.len(), f),
            node == tree@[idx].branch(),
            walk(tree@, idx, features@, f) == walk(tree@, first as int, features@, fuel),
        decreases f,
    {
        proof {
            lemma_paths_end_walk(tree@, idx, features@, f);
        }
        let test = feature_le(features[node.split_with() as usize], node.split_at());
        if test {
            if node.flags.left_prediction() {
                return node.left_ptr();
            } else {
                let next = node.left_ptr() as usize;
                proof {
                    idx = next as int;
                    f = (f - 1) as nat;
                }
                node = tree[next].as_branch();
            }
        } else if node.flags.right_prediction() {
            return node.right_ptr();
        } else {
            let next = node.right_ptr() as usize;
            proof {
                idx = next as int;
                f = (f - 1) as nat;
            }
            node = tree[next].as_branch();
        }
    }
}

/// An array-backed, optimized random forest model.
pub struct Model {
    pub num_trees: u24,
    pub num_cells: u8,
    pub num_features: u16,
    pub num_targets: u16,
    pub nodes: Vec<Node>,
}

impl Model {
    /// Builds a model. The number of trees must fit in 3 bytes (below
    /// `0xff_ffff`); the numbers of features and targets are non-zero.
    pub fn new(num_trees: u32, num_cells: u8, nodes: Vec<Node>, num_features: u16, num_targets: u16) -> (r: Result<Self, Error>)
        requires
            num_trees < 0xff_ffff,
            num_features > 0,
            num_targets > 0,
        ensures
            r matches Ok(m) && m.num_trees.value() == num_trees as int && m.num_cells == num_cells
                && m.nodes@ == nodes@ && m.num_features == num_features && m.num_targets == num_targets,
    {
        let num_trees = match u24::try_from(num_trees) {
            Ok(v) => v,
            Err(_) => {
                return Err(Error::TooManyTrees);
            },
        };
        Ok(Model { num_trees, num_cells, num_features, num_targets, nodes })
    }

    pub fn nodes(&self) -> (n: &[Node])
        ensures
            n@ == self.nodes@,
    {
        self.nodes.as_slice()
    }

    pub fn num_trees(&self) -> (n: u32)
        ensures
            n as int == self.num_trees.value(),
    {
        self.num_trees.to_u32()
    }

    pub fn num_trees_to_bytes(&self) -> (b: &[u8])
        ensures
            b@ == self.num_trees.0@,
    {
        self.num_trees.as_bytes_le().as_slice()
    }

    pub fn num_cells(&self) -> (n: u8)
        ensures
            n == self.num_cells,
    {
        self.num_cells
    }

    pub fn num_targets(&self) -> (n: u16)
        ensures
            n == self.num_targets,
    {
        self.num_targets
    }

    pub fn num_features(&self) -> (n: u16)
        ensures
            n == self.num_features,
    {
        self.num_features
    }

    /// The header and the nodes of the tree whose header is at `header_idx`.
    pub fn get_tree(&self, header_idx: usize) -> (r: (TreeHeader, &[Node]))
        requires
            header_idx < self.nodes@.len(),
            tree_len_at(self.nodes@, header_idx as int) > 0,
            header_idx + tree_len_at(self.nodes@, header_idx as int) <= self.nodes@.len(),
        ensures
            r.0 == self.nodes@[header_idx as int].header(),
            r.1@ == tree_at(self.nodes@, header_idx as int),
    {
        let header = self.nodes[header_idx].as_header();
        let tl = header.tree_len() as usize;
        let _len = self.nodes.len();
        let last_node_idx = header_idx + tl - 1;
        (header, &self.nodes.as_slice()[header_idx..last_node_idx + 1])
    }

    /// The child node on the left of `branch`.
    pub fn next_left<'a>(tree_nodes: &'a [Node], branch: &Branch) -> (n: &'a Node)
        requires
            (branch.left as int) < tree_nodes@.len(),
        ensures
            *n == tree_nodes@[branch.left as int],
    {
        &tree_nodes[branch.left_ptr() as usize]
    }

    /// The child node on the right of `branch`.
    pub fn next_right<'a>(tree_nodes: &'a [Node], branch: &Branch) -> (n: &'a Node)
        requires
            (branch.right as int) < tree_nodes@.len(),
        ensures
            *n == tree_nodes@[branch.right as int],
    {
        &tree_nodes[branch.right_ptr() as usize]
    }

    /// The indices of all tree headers of this model.
    pub fn tree_headers(&self) -> (it: HeadersIterator<'_>)
        ensures
            it.nodes@ == self.nodes@,
            it.current_idx == 0,
            it.first_pass,
    {
        iter_trees(self.nodes.as_slice())
    }

    /// Perform a prediction with the given features vector (bf16 bit
    /// patterns): every tree votes for a class, and the class with the most
    /// votes wins. In case of a tie, the class with the lowest index wins.
    pub fn predict(&self, features: &[u16]) -> (r: u16)
        requires
            predictable(self.nodes@, features@.len()),
        ensures
            is_winning_class(|c: int| model_votes(self.nodes@, features@, c), r as int),
    {
        let hs = tree_header_indices(self.nodes.as_slice());
        proof {
            lemma_headers_from_bounds(self.nodes@, 0);
        }
        let mut votes: Vec<u64> = vec![0u64; MAX_NUM_CLASSES];
        let mut k: usize = 0;
        while k < hs.len()
            invariant
                hs@ == tree_headers_of(self.nodes@),
                predictable(self.nodes@, features@.len()),
                0 <= k <= hs@.len(),
                hs@.len() <= self.nodes@.len(),
                votes@.len() == MAX_NUM_CLASSES,
                forall|c: int| 0 <= c < MAX_NUM_CLASSES ==> votes@[c] as int == count_votes(self.nodes@, hs@.take(k as int), features@, c),
                forall|c: int| 0 <= c < MAX_NUM_CLASSES ==> votes@[c] <= k,
                forall|j: int| 0 <= j < hs@.len() ==> chain_ok(self.nodes@, #[trigger] hs@[j] as int) && hs@[j] < self.nodes@.len(),
            decreases hs@.len() - k,
        {
            let h = hs[k];
            assert(tree_predicts(self.nodes@, hs@[k as int] as int, features@.len()));
            let (header, tree_nodes) = self.get_tree(h);
            let p = predict_tree(tree_nodes, header.first_node_idx() as usize, features, Ghost(tree_fuel(self.nodes@, h as int, features@.len())));
            let ghost old_votes = votes@;
            let v = votes[p as usize];
            votes.set(p as usize, v + 1);
            proof {
                assert(hs@.take(k + 1).drop_last() =~= hs@.take(k as int));
                assert(hs@.take(k + 1).last() == h);
                assert(tree_vote(self.nodes@, h as int, features@) == p);
            }
            k = k + 1;
        }
        assert(hs@.take(hs@.len() as int) =~= hs@);
        let best = winning_class(&votes);
        assert forall|c: int| 0 <= c < MAX_NUM_CLASSES implies table_votes(votes@)(c) == model_votes(self.nodes@, features@, c) by {}
        best as u16
    }
}


/// The header at `h` starts a cell's cache.
pub open spec fn is_cell_header_at(nodes: Seq<Node>, h: usize) -> bool {
    nodes[h as int].header().cache_metadata.0 > 0
}

/// The test for a cell header, as a function of the header index.
pub open spec fn cell_pred(nodes: Seq<Node>) -> spec_fn(usize) -> bool {
    |h: usize| is_cell_header_at(nodes, h)
}

/// The cell headers of a node sequence: its tree headers that start a cache.
pub open spec fn cell_headers_of(nodes: Seq<Node>) -> Seq<usize> {
    tree_headers_of(nodes).filter(cell_pred(nodes))
}

/// The first cell header on the header chain from index `i` on, `i`
/// included.
pub open spec fn cell_from(nodes: Seq<Node>, i: int) -> Option<usize>
    decreases nodes.len() - i,
{
    if !(0 <= i < nodes.len()) {
        None
    } else if is_cell_header_at(nodes, i as usize) {
        Some(i as usize)
    } else {
        let tl = tree_len_at(nodes, i);
        if tl > 0 && i + tl < nodes.len() {
            cell_from(nodes, i + tl)
        } else {
            None
        }
    }
}

/// The first cell header on the header chain after the header at `i`.
pub open spec fn cell_after(nodes: Seq<Node>, i: int) -> Option<usize> {
    let tl = tree_len_at(nodes, i);
    if tl > 0 && i + tl < nodes.len() {
        cell_from(nodes, i + tl)
    } else {
        None
    }
}

/// Iterator over the cell headers of a node slice.
pub struct CellsIterator<'a> {
    pub iter: HeadersIterator<'a>,
}

/// Iterate over the cell headers in the provided node slice.
pub fn iter_cells<'a>(nodes: &'a [Node]) -> (it: CellsIterator<'a>)
    ensures
        it.iter.nodes@ == nodes@,
        it.iter.current_idx == 0,
        it.iter.first_pass,
{
    CellsIterator { iter: HeadersIterator::new(nodes) }
}

impl<'a> CellsIterator<'a> {
    /// The next tree header, from the iterator's position, that starts a cell.
    pub fn next(&mut self) -> (r: Option<usize>)
        requires
            headers_walkable(old(self).iter.nodes@),
            !old(self).iter.first_pass ==> old(self).iter.current_idx < old(self).iter.nodes@.len()
                && chain_ok(old(self).iter.nodes@, old(self).iter.current_idx as int),
        ensures
            final(self).iter.nodes@ == old(self).iter.nodes@,
            r matches Some(h) ==> (h as int) < old(self).iter.nodes@.len() && is_cell_header_at(old(self).iter.nodes@, h)
                && final(self).iter.current_idx == h && !final(self).iter.first_pass
                && chain_ok(final(self).iter.nodes@, h as int),
            old(self).iter.first_pass ==> r == cell_from(old(self).iter.nodes@, 0),
            !old(self).iter.first_pass ==> r == cell_after(old(self).iter.nodes@, old(self).iter.current_idx as int),
            r is None ==> !final(self).iter.first_pass && final(self).iter.current_idx >= final(self).iter.nodes@.len(),
    {
        let ghost nodes = self.iter.nodes@;
        let ghost target = if self.iter.first_pass {
            cell_from(nodes, 0)
        } else {
            cell_after(nodes, self.iter.current_idx as int)
        };
        proof {
            lemma_headers_from_bounds(nodes, 0);
        }
        if self.iter.first_pass {
            self.iter.first_pass = false;
            if self.iter.nodes[0].as_header().cache_metadata.is_cell_header() {
                self.iter.current_idx = 0;
                return Some(0);
            }
            self.iter.current_idx = 0;
            assert(chain_ok(nodes, 0));
            assert(target == cell_after(nodes, 0));
        }
        loop
            invariant
                self.iter.nodes@ == nodes,
                nodes == old(self).iter.nodes@,
                headers_walkable(nodes),
                !self.iter.first_pass,
                self.iter.current_idx < nodes.len(),
                chain_ok(nodes, self.iter.current_idx as int),
                target == cell_after(nodes, self.iter.current_idx as int),
                old(self).iter.first_pass ==> target == cell_from(nodes, 0),
                !old(self).iter.first_pass ==> target == cell_after(nodes, old(self).iter.current_idx as int),
            decreases nodes.len() - self.iter.current_idx,
        {
            let tl = self.iter.nodes[self.iter.current_idx].as_header().tree_len() as usize;
            let next = self.iter.current_idx + tl;
            self.iter.current_idx = next;
            if next >= self.iter.nodes.len() {
                return None;
            }
            if self.iter.nodes[next].as_header().cache_metadata.is_cell_header() {
                return Some(next);
            }
            assert(chain_ok(nodes, next as int));
            assert(target == cell_after(nodes, next as int));
        }
    }
}

/// The first item of a sequence, if it has one.
pub open spec fn first_of(s: Seq<usize>) -> Option<usize> {
    if s.len() > 0 {
        Some(s[0])
    } else {
        None
    }
}

/// The header chain from a header of the chain is the rest of the chain.
proof fn lemma_headers_suffix(nodes: Seq<Node>, i: int, j: int)
    requires
        chain_ok(nodes, i),
        0 <= j < headers_from(nodes, i).len(),
    ensures
        headers_from(nodes, headers_from(nodes, i)[j] as int) == headers_from(nodes, i).skip(j),
    decreases j,
{
    let hs = headers_from(nodes, i);
    lemma_headers_from_bounds(nodes, i);
    if j == 0 {
        assert(hs.skip(0) =~= hs);
    } else {
        let tl = tree_len_at(nodes, i);
        let rest = headers_from(nodes, i + tl);
        assert(hs == seq![i as usize] + rest);
        assert(hs[j] == rest[j - 1]);
        lemma_headers_suffix(nodes, i + tl, j - 1);
        assert(rest.skip(j - 1) =~= hs.skip(j));
    }
}

/// The first cell header from index `i` on is the first of the chain's
/// headers from `i` that starts a cell.
#[verifier::spinoff_prover]
#[verifier::rlimit(40)]
proof fn lemma_cell_from_filter(nodes: Seq<Node>, i: int)
    requires
        chain_ok(nodes, i),
    ensures
        cell_from(nodes, i) == first_of(headers_from(nodes, i).filter(cell_pred(nodes))),
    decreases nodes.len() - i,
{
    let p = cell_pred(nodes);
    let hs = headers_from(nodes, i);
    if 0 <= i < nodes.len() {
        let tl = tree_len_at(nodes, i);
        let head = seq![i as usize];
        let rest = if tl > 0 && i + tl < nodes.len() { headers_from(nodes, i + tl) } else { Seq::empty() };
        assert(hs =~= head + rest);
        Seq::filter_distributes_over_add(head, rest, p);
        reveal_with_fuel(Seq::filter, 2);
        assert(head.drop_last() =~= Seq::<usize>::empty());
        if tl > 0 && i + tl < nodes.len() {
            lemma_cell_from_filter(nodes, i + tl);
        } else {
            assert(rest.filter(p) =~= Seq::<usize>::empty());
        }
        if p(i as usize) {
            assert(head.filter(p) =~= head);
        } else {
            assert(head.filter(p) =~= Seq::<usize>::empty());
            assert(hs.filter(p) =~= rest.filter(p));
        }
    } else {
        reveal_with_fuel(Seq::filter, 1);
    }
}

/// Walking the tree headers: the header indices that the headers iterator
/// gives strictly increase and stay within the nodes; one step from the
/// `k`-th header gives the next one, or, from the last, an index past the
/// nodes, where the walk ends.
#[verifier::spinoff_prover]
#[verifier::rlimit(40)]
pub proof fn lemma_headers_walk(nodes: Seq<Node>, k: int)
    requires
        headers_walkable(nodes),
        0 <= k < tree_headers_of(nodes).len(),
    ensures
        ({
            let hs = tree_headers_of(nodes);
            let n = hs[k] + tree_len_at(nodes, hs[k] as int);
            &&& hs[k] < nodes.len()
            &&& n <= usize::MAX
            &&& k + 1 < hs.len() ==> hs[k + 1] == n && hs[k] < hs[k + 1]
            &&& k + 1 == hs.len() ==> n >= nodes.len()
        }),
        forall|a: int, b: int|
            0 <= a < b < tree_headers_of(nodes).len() ==> #[trigger] tree_headers_of(nodes)[a] < #[trigger] tree_headers_of(nodes)[b],
{
    let hs = tree_headers_of(nodes);
    lemma_headers_from_bounds(nodes, 0);
    let h = hs[k] as int;
    assert(chain_ok(nodes, h));
    lemma_headers_suffix(nodes, 0, k);
    let tl = tree_len_at(nodes, h);
    assert(hs.skip(k)[0] == hs[k]);
    if k + 1 == hs.len() {
        assert(headers_from(nodes, h).len() == 1);
        if h + tl < nodes.len() {
            assert(headers_from(nodes, h) == seq![h as usize] + headers_from(nodes, h + tl));
            lemma_headers_from_bounds(nodes, h + tl);
        }
    }
    assert forall|a: int, b: int| 0 <= a < b < hs.len() implies #[trigger] hs[a] < #[trigger] hs[b] by {
        lemma_headers_increase_from(nodes, a, b);
    }
}

proof fn lemma_headers_increase_from(nodes: Seq<Node>, a: int, b: int)
    requires
        headers_walkable(nodes),
        0 <= a < b < tree_headers_of(nodes).len(),
    ensures
        tree_headers_of(nodes)[a] < tree_headers_of(nodes)[b],
    decreases b - a,
{
    let hs = tree_headers_of(nodes);
    lemma_headers_from_bounds(nodes, 0);
    assert(chain_ok(nodes, hs[b - 1] as int));
    assert(hs[b] == hs[b - 1] + tree_len_at(nodes, hs[b - 1] as int));
    if a < b - 1 {
        lemma_headers_increase_from(nodes, a, b - 1);
    }
}

/// The cells iterator gives the tree headers filtered by the cell flag: its
/// first item is the first cell header of the chain, and after the `j`-th
/// tree header it gives the first cell header among the tree headers that
/// follow it, or ends where none does.
#[verifier::spinoff_prover]
#[verifier::rlimit(40)]
pub proof fn lemma_cells_filter_headers(nodes: Seq<Node>, j: int)
    requires
        headers_walkable(nodes),
        0 <= j < tree_headers_of(nodes).len(),
    ensures
        cell_from(nodes, 0) == first_of(cell_headers_of(nodes)),
        cell_after(nodes, tree_headers_of(nodes)[j] as int) == first_of(tree_headers_of(nodes).skip(j + 1).filter(cell_pred(nodes))),
{
    let hs = tree_headers_of(nodes);
    lemma_cell_from_filter(nodes, 0);
    lemma_headers_from_bounds(nodes, 0);
    let h = hs[j] as int;
    assert(chain_ok(nodes, h));
    lemma_headers_suffix(nodes, 0, j);
    let hj = headers_from(nodes, h);
    assert(hj == hs.skip(j));
    let tl = tree_len_at(nodes, h);
    if h + tl < nodes.len() {
        let rest = headers_from(nodes, h + tl);
        assert(hj == seq![h as usize] + rest);
        assert(rest =~= hj.skip(1));
        assert(hs.skip(j).skip(1) =~= hs.skip(j + 1));
        lemma_cell_from_filter(nodes, h + tl);
        assert(cell_after(nodes, h) == cell_from(nodes, h + tl));
    } else {
        assert(hj.len() == 1);
        assert(hs.skip(j + 1) =~= Seq::<usize>::empty());
        reveal_with_fuel(Seq::filter, 1);
        assert(cell_after(nodes, h) is None);
    }
}

/// The first item of a sequence that satisfies `p`: the filter is that item
/// and then the filter of what follows it.
proof fn lemma_filter_first(s: Seq<usize>, p: spec_fn(usize) -> bool) -> (i: int)
    requires
        s.filter(p).len() > 0,
    ensures
        0 <= i < s.len(),
        p(s[i]),
        s.filter(p) == seq![s[i]] + s.skip(i + 1).filter(p),
    decreases s.len(),
{
    if s.len() == 0 {
        reveal_with_fuel(Seq::filter, 1);
        assert(false);
        0
    } else {
        let head = seq![s[0]];
        let rest = s.skip(1);
        assert(s =~= head + rest);
        Seq::filter_distributes_over_add(head, rest, p);
        reveal_with_fuel(Seq::filter, 2);
        assert(head.drop_last() =~= Seq::<usize>::empty());
        if p(s[0]) {
            assert(head.filter(p) =~= head);
            0
        } else {
            assert(head.filter(p) =~= Seq::<usize>::empty());
            assert(s.filter(p) =~= rest.filter(p));
            let j = lemma_filter_first(rest, p);
            assert(rest.skip(j + 1) =~= s.skip(j + 2));
            j + 1
        }
    }
}

/// All the cell header indices of a walkable node slice, in order: the cells
/// iterator run to its end. It yields exactly the tree headers that carry
/// the cell flag, and then `None`.
#[verifier::spinoff_prover]
#[verifier::rlimit(40)]
pub fn cell_header_indices(nodes: &[Node]) -> (r: Vec<usize>)
    requires
        headers_walkable(nodes@),
    ensures
        r@ == cell_headers_of(nodes@),
        r@ == tree_headers_of(nodes@).filter(cell_pred(nodes@)),
{
    let ghost hs = tree_headers_of(nodes@);
    let ghost p = cell_pred(nodes@);
    proof {
        lemma_headers_from_bounds(nodes@, 0);
        lemma_headers_walk(nodes@, 0);
        lemma_cells_filter_headers(nodes@, 0);
    }
    let mut it = iter_cells(nodes);
    let mut res: Vec<usize> = Vec::new();
    let first = it.next();
    let ghost mut j: int = 0;
    match first {
        None => {
            assert(hs.filter(p).len() == 0);
            assert(res@ =~= hs.filter(p));
            return res;
        },
        Some(h) => {
            proof {
                let i = lemma_filter_first(hs, p);
                j = i;
                assert(h == hs[i]);
            }
            res.push(h);
        },
    }
    loop
        invariant_except_break
            0 <= j < hs.len(),
            it.iter.current_idx == hs[j],
            res@ + hs.skip(j + 1).filter(p) == hs.filter(p),
        invariant
            it.iter.nodes@ == nodes@,
            !it.iter.first_pass,
            hs == tree_headers_of(nodes@),
            p == cell_pred(nodes@),
            headers_walkable(nodes@),
            forall|k: int| 0 <= k < hs.len() ==> chain_ok(nodes@, #[trigger] hs[k] as int) && hs[k] < nodes@.len(),
            forall|a: int, b: int| 0 <= a < b < hs.len() ==> #[trigger] hs[a] < #[trigger] hs[b],
        ensures
            res@ == hs.filter(p),
        decreases nodes@.len() - it.iter.current_idx,
    {
        proof {
            lemma_cells_filter_headers(nodes@, j);
        }
        let ghost rest = hs.skip(j + 1);
        match it.next() {
            None => {
                assert(rest.filter(p).len() == 0);
                assert(res@ =~= res@ + rest.filter(p));
                break;
            },
            Some(h) => {
                proof {
                    let i = lemma_filter_first(rest, p);
                    assert(h == hs[j + 1 + i]);
                    assert(rest.skip(i + 1) =~= hs.skip(j + 2 + i));
                    assert(res@.push(h) + hs.skip(j + 2 + i).filter(p) =~= res@ + rest.filter(p));
                    j = j + 1 + i;
                }
                res.push(h);
            },
        }
    }
    res
}

impl Model {
    /// The indices of all cell headers of this model.
    pub fn cache_headers(&self) -> (it: CellsIterator<'_>)
        ensures
            it.iter.nodes@ == self.nodes@,
            it.iter.current_idx == 0,
            it.iter.first_pass,
    {
        iter_cells(self.nodes.as_slice())
    }
}

/// The index of the last header among the first `n` of the chain from `c`.
pub open spec fn cell_last_header(nodes: Seq<Node>, c: int, n: int) -> int {
    let hs = headers_from(nodes, c);
    hs[(if n < hs.len() { n } else { hs.len() as int }) - 1] as int
}

/// The end (exclusive) of the nodes of the cell whose header is at `c`.
pub open spec fn cell_end(nodes: Seq<Node>, c: int) -> int {
    let last = cell_last_header(nodes, c, nodes[c].header().cache_metadata.0 as int);
    last + tree_len_at(nodes, last)
}

/// Every cell's trees lie within the nodes.
pub open spec fn cells_in_bounds(nodes: Seq<Node>) -> bool {
    forall|k: int| 0 <= k < cell_headers_of(nodes).len() ==>
        cell_end(nodes, #[trigger] cell_headers_of(nodes)[k] as int) <= nodes.len()
}

/// The index of the last tree header among the first `n` from cell header `c`.
fn last_header_of_cell(nodes: &[Node], c: usize, n: u16) -> (r: usize)
    requires
        c < nodes@.len(),
        chain_ok(nodes@, c as int),
        n > 0,
    ensures
        r as int == cell_last_header(nodes@, c as int, n as int),
        chain_ok(nodes@, r as int),
        (r as int) < nodes@.len(),
{
    proof {
        lemma_headers_from_bounds(nodes@, c as int);
    }
    let mut cur: usize = c;
    let mut count: u16 = 1;
    while count < n
        invariant
            chain_ok(nodes@, c as int),
            (c as int) < nodes@.len(),
            1 <= count <= n,
            (count as int) <= headers_from(nodes@, c as int).len(),
            headers_from(nodes@, c as int)[count - 1] == cur,
            (cur as int) < nodes@.len(),
            chain_ok(nodes@, cur as int),
        decreases n - count,
    {
        proof {
            lemma_headers_from_bounds(nodes@, c as int);
        }
        let tl = nodes[cur].as_header().tree_len() as usize;
        let next = cur + tl;
        if next >= nodes.len() {
            assert(count as int == headers_from(nodes@, c as int).len()) by {
                if (count as int) < headers_from(nodes@, c as int).len() {
                    let k = count - 1;
                    assert(0 <= k < headers_from(nodes@, c as int).len() - 1);
                    assert(headers_from(nodes@, c as int)[k + 1] == headers_from(nodes@, c as int)[k]
                        + tree_len_at(nodes@, headers_from(nodes@, c as int)[k] as int));
                }
            }
            return cur;
        }
        proof {
            assert((count as int) < headers_from(nodes@, c as int).len()) by {
                if count as int == headers_from(nodes@, c as int).len() {
                    lemma_chain_last(nodes@, c as int);
                }
            }
            let k = count - 1;
            assert(headers_from(nodes@, c as int)[k + 1] == headers_from(nodes@, c as int)[k]
                + tree_len_at(nodes@, headers_from(nodes@, c as int)[k] as int));
        }
        cur = next;
        count = count + 1;
    }
    cur
}

/// The last header of a chain ends the nodes.
pub proof fn lemma_chain_last(nodes: Seq<Node>, i: int)
    requires
        chain_ok(nodes, i),
        0 <= i < nodes.len(),
    ensures
        ({
            let hs = headers_from(nodes, i);
            let last = hs[hs.len() - 1] as int;
            last + tree_len_at(nodes, last) >= nodes.len()
        }),
    decreases nodes.len() - i,
{
    let tl = tree_len_at(nodes, i);
    if i + tl < nodes.len() {
        lemma_chain_last(nodes, i + tl);
        lemma_headers_from_bounds(nodes, i + tl);
        assert(headers_from(nodes, i) == seq![i as usize] + headers_from(nodes, i + tl));
    }
}

impl Model {
    /// The node slices of the cells' caches, one per cell header: from the
    /// cell header to the end of the last of the cell's trees. A model may
    /// hold at most `max_cells` cells.
    pub fn split_cache_data(&self, max_cells: usize) -> (r: Vec<&[Node]>)
        requires
            headers_walkable(self.nodes@),
            cells_in_bounds(self.nodes@),
            cell_headers_of(self.nodes@).len() <= max_cells,
        ensures
            r@.len() == cell_headers_of(self.nodes@).len(),
            forall|k: int| 0 <= k < r@.len() ==> (#[trigger] r@[k])@ == self.nodes@.subrange(
                cell_headers_of(self.nodes@)[k] as int, cell_end(self.nodes@, cell_headers_of(self.nodes@)[k] as int)),
    {
        let ghost nodes = self.nodes@;
        let hs = tree_header_indices(self.nodes.as_slice());
        proof {
            lemma_headers_from_bounds(nodes, 0);
        }
        let ghost cells = cell_headers_of(nodes);
        let mut result: Vec<&[Node]> = Vec::new();
        let mut k: usize = 0;
        while k < hs.len()
            invariant
                nodes == self.nodes@,
                hs@ == tree_headers_of(nodes),
                cells == cell_headers_of(nodes),
                headers_walkable(nodes),
                cells_in_bounds(nodes),
                cells.len() <= max_cells,
                0 <= k <= hs@.len(),
                forall|j: int| 0 <= j < hs@.len() ==> chain_ok(nodes, #[trigger] hs@[j] as int) && hs@[j] < nodes.len(),
                result@.len() == hs@.take(k as int).filter(cell_pred(nodes)).len(),
                forall|j: int| 0 <= j < result@.len() ==> (#[trigger] result@[j])@ == nodes.subrange(
                    hs@.take(k as int).filter(cell_pred(nodes))[j] as int,
                    cell_end(nodes, hs@.take(k as int).filter(cell_pred(nodes))[j] as int)),
            decreases hs@.len() - k,
        {
            let c = hs[k];
            let ghost before = hs@.take(k as int).filter(cell_pred(nodes));
            proof {
                assert(hs@.take(k + 1).drop_last() =~= hs@.take(k as int));
                assert(hs@.take(k + 1).last() == c);
                lemma_filter_prefix(hs@, k as int, cell_pred(nodes));
            }
            if let Some(n) = self.nodes[c].as_header().cache_metadata().get_num_trees() {
                proof {
                    lemma_filter_prefix_len(hs@, (k + 1) as int, cell_pred(nodes));
                    assert(before.push(c) == hs@.take(k + 1).filter(cell_pred(nodes)));
                    assert(cells_in_bounds(nodes));
                    lemma_filter_prefix_is_prefix(hs@, (k + 1) as int, cell_pred(nodes));
                    assert(cells[before.len() as int] == c);
                    assert(cell_end(nodes, c as int) <= nodes.len());
                    lemma_headers_from_bounds(nodes, c as int);
                }
                let last = last_header_of_cell(self.nodes.as_slice(), c, n);
                assert(c <= last);
                let end = last + self.nodes[last].as_header().tree_len() as usize;
                let slice = &self.nodes.as_slice()[c..end];
                result.push(slice);
                proof {
                    assert forall|j: int| 0 <= j < result@.len() implies (#[trigger] result@[j])@ == nodes.subrange(
                        hs@.take(k + 1).filter(cell_pred(nodes))[j] as int,
                        cell_end(nodes, hs@.take(k + 1).filter(cell_pred(nodes))[j] as int)) by {
                        assert(hs@.take(k + 1).filter(cell_pred(nodes)) == before.push(c));
                    }
                }
            } else {
                proof {
                    assert(before == hs@.take(k + 1).filter(cell_pred(nodes)));
                }
            }
            k = k + 1;
        }
        assert(hs@.take(hs@.len() as int) =~= hs@);
        result
    }
}

impl Model {
    /// Whether the cells' caches can be cut out of the nodes: the trees follow
    /// one another within the nodes, every cell's trees lie within the nodes,
    /// and there are at most `max_cells` cells.
    pub fn cells_fit(&self, max_cells: usize) -> (b: bool)
        ensures
            b == (trees_in_bounds(self.nodes@) && tree_headers_of(self.nodes@).len() == self.num_trees.value() && cells_in_bounds(
                self.nodes@,
            ) && cell_headers_of(self.nodes@).len() <= max_cells),
            b ==> headers_walkable(self.nodes@),
    {
        let ghost nodes = self.nodes@;
        if !self.layout_ok() {
            return false;
        }
        let hs = tree_header_indices(self.nodes.as_slice());
        proof {
            lemma_headers_from_bounds(nodes, 0);
        }
        let mut count: usize = 0;
        let mut k: usize = 0;
        while k < hs.len()
            invariant
                nodes == self.nodes@,
                hs@ == tree_headers_of(nodes),
                headers_walkable(nodes),
                0 <= k <= hs@.len(),
                forall|j: int| 0 <= j < hs@.len() ==> chain_ok(nodes, #[trigger] hs@[j] as int) && hs@[j] < nodes.len(),
                count == hs@.take(k as int).filter(cell_pred(nodes)).len(),
                count <= max_cells,
                forall|j: int| 0 <= j < count ==> cell_end(nodes, #[trigger] hs@.take(k as int).filter(cell_pred(nodes))[j] as int)
                    <= nodes.len(),
            decreases hs@.len() - k,
        {
            let c = hs[k];
            let ghost before = hs@.take(k as int).filter(cell_pred(nodes));
            proof {
                assert(hs@.take(k + 1).drop_last() =~= hs@.take(k as int));
                assert(hs@.take(k + 1).last() == c);
                lemma_filter_prefix(hs@, k as int, cell_pred(nodes));
            }
            if let Some(n) = self.nodes[c].as_header().cache_metadata().get_num_trees() {
                let last = last_header_of_cell(self.nodes.as_slice(), c, n);
                let tl = self.nodes[last].as_header().tree_len() as usize;
                proof {
                    assert(hs@.take(k + 1).filter(cell_pred(nodes)) == before.push(c));
                    lemma_filter_prefix_is_prefix(hs@, (k + 1) as int, cell_pred(nodes));
                    lemma_filter_prefix_len(hs@, (k + 1) as int, cell_pred(nodes));
                    assert(hs@.take(hs@.len() as int) =~= hs@);
                    assert(cell_headers_of(nodes)[before.len() as int] == c);
                }
                if tl > self.nodes.len() - last {
                    return false;
                }
                if count == max_cells {
                    return false;
                }
                count = count + 1;
                proof {
                    assert(hs@.take(k + 1).filter(cell_pred(nodes)) == before.push(c));
                    assert forall|j: int| 0 <= j < count implies cell_end(nodes, #[trigger] hs@.take(k + 1).filter(cell_pred(nodes))[j] as int)
                        <= nodes.len() by {
                        if j < before.len() {
                            assert(hs@.take(k + 1).filter(cell_pred(nodes))[j] == before[j]);
                        }
                    }
                }
            } else {
                proof {
                    assert(before == hs@.take(k + 1).filter(cell_pred(nodes)));
                }
            }
            k = k + 1;
        }
        assert(hs@.take(hs@.len() as int) =~= hs@);
        true
    }
}

/// Filtering a prefix one longer adds the new element when it passes.
pub proof fn lemma_filter_prefix(s: Seq<usize>, k: int, f: spec_fn(usize) -> bool)
    requires
        0 <= k < s.len(),
    ensures
        s.take(k + 1).filter(f) == (if f(s[k]) { s.take(k).filter(f).push(s[k]) } else { s.take(k).filter(f) }),
{
    assert(s.take(k + 1).drop_last() =~= s.take(k));
    reveal_with_fuel(Seq::filter, 1);
}

/// A filtered prefix is no longer than the filtered whole.
pub proof fn lemma_filter_prefix_len(s: Seq<usize>, k: int, f: spec_fn(usize) -> bool)
    requires
        0 <= k <= s.len(),
    ensures
        s.take(k).filter(f).len() <= s.filter(f).len(),
    decreases s.len() - k,
{
    if k < s.len() {
        lemma_filter_prefix(s, k, f);
        lemma_filter_prefix_len(s, k + 1, f);
    } else {
        assert(s.take(k) =~= s);
    }
}

/// A filtered prefix is a prefix of the filtered whole.
pub proof fn lemma_filter_prefix_is_prefix(s: Seq<usize>, k: int, f: spec_fn(usize) -> bool)
    requires
        0 <= k <= s.len(),
    ensures
        forall|j: int| 0 <= j < s.take(k).filter(f).len() ==> s.take(k).filter(f)[j] == #[trigger] s.filter(f)[j],
    decreases s.len() - k,
{
    if k < s.len() {
        lemma_filter_prefix(s, k, f);
        lemma_filter_prefix_is_prefix(s, k + 1, f);
    } else {
        assert(s.take(k) =~= s);
    }
}


/// The plain content of a model: header fields, and the bytes of each node.
pub struct ModelView {
    pub num_trees: int,
    pub num_cells: u8,
    pub num_features: u16,
    pub num_targets: u16,
    pub nodes: Seq<Seq<u8>>,
}

impl View for Model {
    type V = ModelView;

    open spec fn view(&self) -> ModelView {
        ModelView {
            num_trees: self.num_trees.value(),
            num_cells: self.num_cells,
            num_features: self.num_features,
            num_targets: self.num_targets,
            nodes: self.nodes@.map_values(|n: Node| n.0@),
        }
    }
}

/// Length of the fixed part of a serialized model: 3 bytes of tree count, 1 of
/// cell count, 2 of feature count, 2 of target count and 8 of padding.
pub const MODEL_HEADER_LEN: usize = 16;

/// Length of a serialized node.
pub const NODE_LEN: usize = 8;

/// The concatenation of byte sequences.
pub open spec fn flatten(s: Seq<Seq<u8>>) -> Seq<u8>
    decreases s.len(),
{
    if s.len() == 0 {
        Seq::empty()
    } else {
        flatten(s.drop_last()) + s.last()
    }
}

/// The serialized form of a model.
pub open spec fn spec_serialize(m: ModelView) -> Seq<u8> {
    let t = m.num_trees;
    let f = m.num_features as int;
    let g = m.num_targets as int;
    seq![
        (t % 256) as u8, ((t / 256) % 256) as u8, ((t / 65536) % 256) as u8, m.num_cells,
        (f % 256) as u8, (f / 256) as u8, (g % 256) as u8, (g / 256) as u8,
        0u8, 0u8, 0u8, 0u8, 0u8, 0u8, 0u8, 0u8,
    ] + flatten(m.nodes)
}

/// What a byte buffer of at least 24 bytes deserializes to.
pub open spec fn spec_deserialize(b: Seq<u8>) -> Result<ModelView, Error> {
    if le16(b[4], b[5]) == 0 {
        Err(Error::NoFeatures)
    } else if le16(b[6], b[7]) == 0 {
        Err(Error::NoTargets)
    } else if (b.len() - 16) % 8 != 0 {
        Err(Error::MalformedForest)
    } else {
        Ok(ModelView {
            num_trees: b[0] as int + 256 * (b[1] as int) + 65536 * (b[2] as int),
            num_cells: b[3],
            num_features: le16(b[4], b[5]) as u16,
            num_targets: le16(b[6], b[7]) as u16,
            nodes: Seq::new(((b.len() - 16) / 8) as nat, |i: int| b.subrange(16 + 8 * i, 24 + 8 * i)),
        })
    }
}

/// The flattening of 8-byte sequences has length 8 per sequence, and holds
/// each sequence at its offset.
pub proof fn lemma_flatten(s: Seq<Seq<u8>>)
    requires
        forall|i: int| 0 <= i < s.len() ==> (#[trigger] s[i]).len() == 8,
    ensures
        flatten(s).len() == 8 * s.len(),
        forall|i: int| 0 <= i < s.len() ==> flatten(s).subrange(8 * i, 8 * i + 8) == #[trigger] s[i],
    decreases s.len(),
{
    if s.len() > 0 {
        let p = s.drop_last();
        lemma_flatten(p);
        assert forall|i: int| 0 <= i < s.len() implies flatten(s).subrange(8 * i, 8 * i + 8) == #[trigger] s[i] by {
            if i < s.len() - 1 {
                assert(flatten(s).subrange(8 * i, 8 * i + 8) =~= flatten(p).subrange(8 * i, 8 * i + 8));
                assert(p[i] == s[i]);
            } else {
                assert(flatten(s).subrange(8 * i, 8 * i + 8) =~= s.last());
            }
        }
    }
}

/// Deserializing a serialized model gives the model back, when it has
/// features and targets.
pub proof fn lemma_serialize_deserialize(m: ModelView)
    requires
        0 <= m.num_trees < 0x100_0000,
        m.num_features > 0,
        m.num_targets > 0,
        forall|i: int| 0 <= i < m.nodes.len() ==> (#[trigger] m.nodes[i]).len() == 8,
    ensures
        spec_serialize(m).len() >= 16,
        spec_deserialize(spec_serialize(m)) == Ok::<ModelView, Error>(m),
{
    let b = spec_serialize(m);
    lemma_flatten(m.nodes);
    let f = m.num_features;
    let g = m.num_targets;
    lemma_le16_digits((f % 256) as u8, (f / 256) as u8);
    lemma_le16_digits((g % 256) as u8, (g / 256) as u8);
    assert(le16(b[4], b[5]) == f as int);
    assert(le16(b[6], b[7]) == g as int);
    let t = m.num_trees;
    assert(b[0] as int + 256 * (b[1] as int) + 65536 * (b[2] as int) == t);
    let r = spec_deserialize(b);
    assert((b.len() - 16) / 8 == m.nodes.len());
    let ns = Seq::new(((b.len() - 16) / 8) as nat, |i: int| b.subrange(16 + 8 * i, 24 + 8 * i));
    assert forall|i: int| 0 <= i < m.nodes.len() implies #[trigger] ns[i] == m.nodes[i] by {
        assert(b.subrange(16 + 8 * i, 24 + 8 * i) =~= flatten(m.nodes).subrange(8 * i, 8 * i + 8));
    }
    assert(ns =~= m.nodes);
}

impl Model {
    /// The bytes of this model: tree count (3 bytes), cell count, feature and
    /// target counts (2 little-endian bytes each), 8 bytes of padding, then the
    /// nodes.
    pub fn serialize(&self) -> (r: Vec<u8>)
        requires
            16 + 8 * self.nodes@.len() <= usize::MAX,
        ensures
            r@ == spec_serialize(self@),
    {
        let mut bytes: Vec<u8> = Vec::new();
        bytes.push(self.num_trees.0[0]);
        bytes.push(self.num_trees.0[1]);
        bytes.push(self.num_trees.0[2]);
        bytes.push(self.num_cells);
        let (f0, f1) = u16_to_le(self.num_features);
        bytes.push(f0);
        bytes.push(f1);
        let (g0, g1) = u16_to_le(self.num_targets);
        bytes.push(g0);
        bytes.push(g1);
        let mut p: usize = 0;
        while p < 8
            invariant
                0 <= p <= 8,
                bytes@.len() == 8 + p,
                forall|j: int| 8 <= j < 8 + p ==> bytes@[j] == 0u8,
                bytes@.subrange(0, 8) == seq![self.num_trees.0@[0], self.num_trees.0@[1], self.num_trees.0@[2], self.num_cells, f0, f1, g0, g1],
            decreases 8 - p,
        {
            bytes.push(0);
            p = p + 1;
            assert(bytes@.subrange(0, 8) =~= bytes@.subrange(0, 8));
        }
        let ghost head = bytes@;
        let ghost v = self@;
        proof {
            lemma_le32_digits(self.num_trees.0@[0], self.num_trees.0@[1], self.num_trees.0@[2], 0);
            assert(head =~= spec_serialize(v).subrange(0, 16));
        }
        let mut i: usize = 0;
        while i < self.nodes.len()
            invariant
                v == self@,
                16 + 8 * self.nodes@.len() <= usize::MAX,
                0 <= i <= self.nodes@.len(),
                head == spec_serialize(v).subrange(0, 16),
                bytes@ == head + flatten(v.nodes.take(i as int)),
                bytes@.len() == 16 + 8 * i,
            decreases self.nodes@.len() - i,
        {
            let ghost before = bytes@;
            let node = &self.nodes[i];
            let mut j: usize = 0;
            while j < 8
                invariant
                    0 <= j <= 8,
                    (i as int) < self.nodes@.len(),
                    *node == self.nodes@[i as int],
                    bytes@ == before + node.0@.take(j as int),
                decreases 8 - j,
            {
                bytes.push(node.0[j]);
                assert(node.0@.take(j + 1) =~= node.0@.take(j as int).push(node.0@[j as int]));
                j = j + 1;
            }
            proof {
                assert(node.0@.take(8) =~= node.0@);
                assert(v.nodes.take(i + 1).drop_last() =~= v.nodes.take(i as int));
                assert(v.nodes.take(i + 1).last() == node.0@);
                lemma_flatten(v.nodes.take(i as int));
            }
            i = i + 1;
        }
        proof {
            assert(v.nodes.take(self.nodes@.len() as int) =~= v.nodes);
            assert(bytes@ =~= spec_serialize(v));
        }
        bytes
    }

    /// Read a model back from its bytes, checking the feature and target
    /// counts and that the nodes are whole.
    pub fn deserialize(buffer: &[u8]) -> (r: Result<Model, Error>)
        requires
            buffer@.len() >= MODEL_HEADER_LEN + NODE_LEN,
        ensures
            match spec_deserialize(buffer@) {
                Ok(v) => r matches Ok(m) && m@ == v,
                Err(e) => r == Err::<Model, Error>(e),
            },
    {
        let num_trees = u24([buffer[0], buffer[1], buffer[2]]);
        let num_cells = buffer[3];
        let num_features = u16_from_le(buffer[4], buffer[5]);
        if num_features == 0 {
            return Err(Error::NoFeatures);
        }
        let num_targets = u16_from_le(buffer[6], buffer[7]);
        if num_targets == 0 {
            return Err(Error::NoTargets);
        }
        let blen = buffer.len();
        let slice_size = blen - MODEL_HEADER_LEN;
        if slice_size % NODE_LEN != 0 {
            return Err(Error::MalformedForest);
        }
        let slice_len = slice_size / NODE_LEN;
        let mut nodes: Vec<Node> = Vec::new();
        let mut i: usize = 0;
        while i < slice_len
            invariant
                blen == buffer@.len(),
                slice_size == buffer@.len() - 16,
                slice_len == (buffer@.len() - 16) / 8,
                (buffer@.len() - 16) % 8 == 0,
                0 <= i <= slice_len,
                nodes@.len() == i,
                forall|k: int| 0 <= k < i ==> (#[trigger] nodes@[k]).0@ == buffer@.subrange(16 + 8 * k, 24 + 8 * k),
            decreases slice_len - i,
        {
            assert(16 + 8 * i + 8 <= buffer@.len());
            let o = MODEL_HEADER_LEN + NODE_LEN * i;
            let n = Node([buffer[o], buffer[o + 1], buffer[o + 2], buffer[o + 3], buffer[o + 4], buffer[o + 5], buffer[o + 6], buffer[o + 7]]);
            assert(n.0@ =~= buffer@.subrange(16 + 8 * i, 24 + 8 * i));
            nodes.push(n);
            i = i + 1;
        }
        let m = Model { num_trees, num_cells, num_features, num_targets, nodes };
        proof {
            let v = spec_deserialize(buffer@)->Ok_0;
            assert(num_trees.0@ =~= seq![buffer@[0], buffer@[1], buffer@[2]]);
            assert(m@.nodes =~= v.nodes);
        }
        Ok(m)
    }
}

} // verus!
