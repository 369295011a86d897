use lumberjack::bytes::{u16_from_le, u16_to_le, u32_from_le, u32_to_le};
use lumberjack::model::acyclic::{check_tree_acyclic, find_root};
use lumberjack::model::storage::BackingStorage;
use lumberjack::model::{
    cell_header_indices, iter_cells, iter_trees, tree_header_indices, winning_class, Branch, CacheMetadata, Flags, Model, Node, TreeHeader, u24,
    MAX_NUM_CLASSES, MODEL_HEADER_LEN, NODE_LEN,
};
use lumberjack::split::feature_le;
use lumberjack::Error;

fn bits(x: f32) -> u16 {
    half::bf16::from_f32(x).to_bits()
}

fn header(tree_len: u32, first: u16, cell_trees: u16) -> Node {
    let meta = if cell_trees == 0 { CacheMetadata::new_empty() } else { CacheMetadata::new_cell_header(cell_trees).unwrap() };
    Node::from_header(TreeHeader::new(tree_len, first, meta).unwrap())
}

fn branch(split_with: u16, split_at: f32, left: u16, right: u16, left_leaf: bool, right_leaf: bool) -> Node {
    Node::from_branch(Branch::new(split_with, bits(split_at), left, right, left_leaf, right_leaf))
}

/// Two trees, each a header, a padding node and branches.
/// Tree 0: feature 0 <= 2.5 ? class 0 : (feature 1 <= 1.0 ? class 1 : class 2)
/// Tree 1: feature 1 <= 0.5 ? class 2 : class 1
fn two_tree_nodes() -> Vec<Node> {
    vec![
        header(4, 2, 2),
        Node::padding(),
        branch(0, 2.5, 0, 3, true, false),
        branch(1, 1.0, 1, 2, true, true),
        header(3, 2, 0),
        Node::padding(),
        branch(1, 0.5, 2, 1, true, true),
    ]
}

fn two_tree_model() -> Model {
    Model::new(2, 1, two_tree_nodes(), 2, 3).unwrap()
}

#[test]
fn flags_pack_split_index_and_leaf_bits() {
    let f = Flags::new(5, true, false);
    assert!(f.left_prediction());
    assert!(!f.right_prediction());
    assert!(!f.both_predictions());
    assert_eq!(f.split_var_idx(), 5);
    assert_eq!(f.0, 0x8005);

    let g = Flags::new(0x3fff, false, true);
    assert_eq!(g.0, 0x7fff);
    assert!(g.right_prediction());
    assert_eq!(g.split_var_idx(), 0x3fff);

    let h = Flags::new(7, true, true);
    assert!(h.both_predictions());
    assert_eq!(h.0, 0xc007);
}

#[test]
fn little_endian_helpers_round_trip() {
    assert_eq!(u16_from_le(0x34, 0x12), 0x1234);
    assert_eq!(u16_to_le(0xabcd), (0xcd, 0xab));
    assert_eq!(u32_from_le(0x78, 0x56, 0x34, 0x12), 0x1234_5678);
    assert_eq!(u32_to_le(0xdead_beef), (0xef, 0xbe, 0xad, 0xde));
}

#[test]
fn header_node_round_trips() {
    let h = TreeHeader::new(0x0102_0304, 0x0506, CacheMetadata::new_cell_header(7).unwrap()).unwrap();
    let n = Node::from_header(h);
    assert_eq!(n.0, [0x04, 0x03, 0x02, 0x01, 0x06, 0x05, 0x07, 0x00]);
    let back = n.as_header();
    assert_eq!(back.tree_len(), 0x0102_0304);
    assert_eq!(back.first_node_idx(), 0x0506);
    assert_eq!(back.cache_metadata().get_num_trees(), Some(7));
    assert!(!n.is_padding());
}

#[test]
fn header_setters_change_one_field() {
    let mut h = TreeHeader::new(10, 2, CacheMetadata::new_empty()).unwrap();
    assert_eq!(h.cache_metadata().get_num_trees(), None);
    h.set_tree_len(12);
    assert_eq!(h.tree_len(), 12);
    assert_eq!(h.first_node_idx(), 2);
    h.set_cache_metadata(CacheMetadata::new_cell_header(3).unwrap());
    assert!(h.cache_metadata().is_cell_header());
    assert_eq!(h.tree_len(), 12);
}

#[test]
fn branch_node_round_trips() {
    let b = Branch::new(3, bits(1.5), 9, 0x0102, false, true);
    let n = Node::from_branch(b);
    let back = n.as_branch();
    assert_eq!(back.split_with(), 3);
    assert_eq!(back.split_at(), bits(1.5));
    assert_eq!(back.left_ptr(), 9);
    assert_eq!(back.right_ptr(), 0x0102);
    assert!(!back.flags().left_prediction());
    assert!(back.flags().right_prediction());
    assert_eq!(n.0[0], 9);
    assert_eq!(n.0[1], 0);
    assert_eq!(n.0[2], 0x02);
    assert_eq!(n.0[3], 0x01);
}

#[test]
fn padding_is_all_zero() {
    let p = Node::padding();
    assert!(p.is_padding());
    assert_eq!(p.0, [0u8; 8]);
    assert!(!Node([0, 0, 0, 0, 0, 0, 0, 1]).is_padding());
}

#[test]
fn u24_bounds_and_bytes() {
    let v = u24::try_from(0x12_3456).unwrap();
    assert_eq!(v.as_bytes_le(), &[0x56, 0x34, 0x12]);
    assert_eq!(v.to_u32(), 0x12_3456);
    assert!(u24::try_from(0xff_fffe).is_ok());
    assert!(u24::try_from(0xff_ffff).is_err());
    assert!(u24::try_from(0x100_0000).is_err());
}

#[test]
fn model_new_keeps_fields() {
    let m = two_tree_model();
    assert_eq!(m.num_trees(), 2);
    assert_eq!(m.num_cells(), 1);
    assert_eq!(m.num_features(), 2);
    assert_eq!(m.num_targets(), 3);
    assert_eq!(m.nodes().len(), 7);
    assert_eq!(m.num_trees_to_bytes(), &[2, 0, 0]);
}

#[test]
fn tree_headers_follow_tree_lengths() {
    let m = two_tree_model();
    assert_eq!(tree_header_indices(m.nodes()), vec![0, 4]);
    let mut it = m.tree_headers();
    assert_eq!(it.next(), Some(0));
    assert_eq!(it.next(), Some(4));
    assert_eq!(it.next(), None);
    let (h, tree) = m.get_tree(4);
    assert_eq!(h.tree_len(), 3);
    assert_eq!(tree.len(), 3);
}

#[test]
fn cell_headers_are_marked_headers() {
    let m = two_tree_model();
    let mut cells = m.cache_headers();
    assert_eq!(cells.next(), Some(0));
    assert_eq!(cells.next(), None);
    let mut again = iter_cells(m.nodes());
    assert_eq!(again.next(), Some(0));
    let caches = m.split_cache_data(4);
    assert_eq!(caches.len(), 1);
    assert_eq!(caches[0].len(), 7);
}

#[test]
fn winning_class_prefers_lowest_index_on_tie() {
    let mut votes = vec![0u64; MAX_NUM_CLASSES];
    votes[1] = 3;
    votes[2] = 3;
    votes[0] = 1;
    assert_eq!(winning_class(&votes), 1);
    votes[7] = 4;
    assert_eq!(winning_class(&votes), 7);
    let none = vec![0u64; MAX_NUM_CLASSES];
    assert_eq!(winning_class(&none), 0);
}

#[test]
fn feature_comparison_is_bf16_less_or_equal() {
    assert!(feature_le(bits(1.0), bits(1.0)));
    assert!(feature_le(bits(-3.0), bits(2.0)));
    assert!(!feature_le(bits(2.5), bits(2.0)));
    assert!(feature_le(bits(-1.0), bits(-0.5)));
}

#[test]
fn model_predicts_majority_of_tree_votes() {
    let m = two_tree_model();
    // Tree 0 -> 0, tree 1 -> 1: tie between classes 0 and 1, lowest wins.
    assert_eq!(m.predict(&[bits(1.0), bits(1.0)]), 0);
    // Tree 0 -> 1 (f0 > 2.5, f1 <= 1.0), tree 1 -> 1 (f1 > 0.5).
    assert_eq!(m.predict(&[bits(3.0), bits(0.75)]), 1);
    // Tree 0 -> 2, tree 1 -> 1: tie between 1 and 2.
    assert_eq!(m.predict(&[bits(3.0), bits(5.0)]), 1);
    // Tree 0 -> 1, tree 1 -> 2: tie between 1 and 2.
    assert_eq!(m.predict(&[bits(3.0), bits(0.25)]), 1);
    // Tree 0 -> 0, tree 1 -> 2.
    assert_eq!(m.predict(&[bits(0.0), bits(0.0)]), 0);
}

#[test]
fn layout_and_forward_pointers_accept_a_good_model() {
    let m = two_tree_model();
    assert!(m.layout_ok());
    assert_eq!(m.verify(), Ok(()));
    assert_eq!(m.verify_acyclic(), Ok(()));
}

#[test]
fn layout_rejects_wrong_tree_count() {
    let m = Model::new(3, 1, two_tree_nodes(), 2, 3).unwrap();
    assert!(!m.layout_ok());
    let short = Model::new(1, 1, vec![header(5, 1, 1)], 2, 3).unwrap();
    assert!(!short.layout_ok());
}

#[test]
fn verify_rejects_backward_pointer() {
    let nodes = vec![
        header(4, 2, 1),
        Node::padding(),
        branch(0, 1.0, 0, 3, true, false),
        branch(0, 2.0, 2, 1, false, true),
    ];
    let m = Model::new(1, 1, nodes, 1, 2).unwrap();
    assert!(m.layout_ok());
    assert_eq!(m.verify(), Err(Error::MalformedForest));
}

#[test]
fn acyclic_check_finds_cycle() {
    // Branch 2 points to 3 and branch 3 points back to 2.
    let tree = vec![
        header(4, 2, 1),
        Node::padding(),
        branch(0, 1.0, 0, 3, true, false),
        branch(0, 2.0, 2, 1, false, true),
    ];
    assert_eq!(find_root(&tree, 2, 4), None);
    assert_eq!(check_tree_acyclic(&tree, 2, 4), Err(Error::CyclicTree));
    // With every node pointed to, the tree has no root.
    let m = Model::new(1, 1, tree, 1, 2).unwrap();
    assert_eq!(m.verify_acyclic(), Err(Error::MalformedForest));
}

#[test]
fn acyclic_check_reports_a_cycle_below_the_root() {
    // Root 2 points to 3; 3 and 4 point to each other.
    let tree = vec![
        header(6, 2, 1),
        Node::padding(),
        branch(0, 1.0, 3, 0, false, true),
        branch(0, 2.0, 4, 1, false, true),
        branch(0, 3.0, 3, 2, false, true),
        Node::padding(),
    ];
    assert_eq!(find_root(&tree, 2, 6), Some(2));
    let m = Model::new(1, 1, tree, 1, 3).unwrap();
    assert!(m.layout_ok());
    assert_eq!(m.verify_acyclic(), Err(Error::CyclicTree));
}

#[test]
fn acyclic_check_reports_a_pointer_beyond_the_nodes() {
    let tree = vec![header(4, 2, 1), Node::padding(), branch(0, 1.0, 9, 0, false, true), Node::padding()];
    let m = Model::new(1, 1, tree, 1, 2).unwrap();
    assert!(m.layout_ok());
    assert_eq!(m.verify_acyclic(), Err(Error::MalformedForest));
}

#[test]
fn acyclic_check_accepts_tree_and_finds_root() {
    let tree = vec![
        header(4, 2, 1),
        Node::padding(),
        branch(0, 1.0, 0, 3, true, false),
        branch(1, 2.0, 1, 2, true, true),
    ];
    assert_eq!(find_root(&tree, 2, 4), Some(2));
    assert_eq!(check_tree_acyclic(&tree, 2, 4), Ok(()));
}

#[test]
fn acyclic_check_rejects_pointer_to_padding() {
    let tree = vec![
        header(4, 2, 1),
        Node::padding(),
        branch(0, 1.0, 0, 3, true, false),
        Node::padding(),
    ];
    assert_eq!(check_tree_acyclic(&tree, 2, 4), Err(Error::MalformedForest));
}

#[test]
fn serialize_lays_out_header_then_nodes() {
    let m = two_tree_model();
    let bytes = m.serialize();
    assert_eq!(bytes.len(), MODEL_HEADER_LEN + NODE_LEN * 7);
    assert_eq!(&bytes[0..8], &[2, 0, 0, 1, 2, 0, 3, 0]);
    assert_eq!(&bytes[8..16], &[0u8; 8]);
    assert_eq!(&bytes[16..24], &two_tree_nodes()[0].0);
    assert_eq!(&bytes[24..32], &[0u8; 8]);
}

#[test]
fn serialize_then_deserialize_gives_the_same_model() {
    let m = two_tree_model();
    let back = Model::deserialize(&m.serialize()).unwrap();
    assert_eq!(back.num_trees(), 2);
    assert_eq!(back.num_cells(), 1);
    assert_eq!(back.num_features(), 2);
    assert_eq!(back.num_targets(), 3);
    assert_eq!(back.nodes().len(), 7);
    for (a, b) in back.nodes().iter().zip(m.nodes().iter()) {
        assert_eq!(a.0, b.0);
    }
    assert_eq!(back.predict(&[bits(3.0), bits(0.75)]), 1);
}

#[test]
fn deserialize_rejects_zero_features() {
    let mut bytes = two_tree_model().serialize();
    bytes[4] = 0;
    bytes[5] = 0;
    assert_eq!(Model::deserialize(&bytes).err(), Some(Error::NoFeatures));
}

#[test]
fn deserialize_rejects_zero_targets() {
    let mut bytes = two_tree_model().serialize();
    bytes[6] = 0;
    bytes[7] = 0;
    assert_eq!(Model::deserialize(&bytes).err(), Some(Error::NoTargets));
}

#[test]
fn deserialize_rejects_partial_node() {
    let mut bytes = two_tree_model().serialize();
    bytes.push(0);
    bytes.push(0);
    bytes.push(0);
    assert_eq!(Model::deserialize(&bytes).err(), Some(Error::MalformedForest));
}

#[test]
fn backing_storage_hands_back_its_bytes() {
    let s = BackingStorage::new([1u8, 2, 3, 4]);
    assert_eq!(s.to_slice(), &[1, 2, 3, 4]);
}

fn embedded_bytes(num_targets: u8, branches: &[[u8; 8]], extra: usize) -> Vec<u8> {
    let mut b = vec![3, 0, 0, 0, 4, num_targets, 0, 0];
    for br in branches {
        b.extend_from_slice(br);
    }
    b.extend(std::iter::repeat(0u8).take(extra));
    b
}

#[test]
fn embedded_forest_decodes_header_and_branches() {
    // Branch 0 points left to branch 1 and predicts 2 on the right; branch 1
    // predicts 0 and 1.
    let b0 = [1, 0, 2, 0, 0x20, 0x40, 0x05, 0x40];
    let b1 = [0, 0, 1, 0, 0x80, 0x3f, 0x00, 0xc0];
    let bytes = embedded_bytes(3, &[b0, b1], 0);
    let f = lumberjack::embedded::deserialize(&bytes, true).unwrap();
    assert_eq!(f.num_trees, 3);
    assert_eq!(f.num_features, 4);
    assert_eq!(f.num_targets, Some(3));
    assert_eq!(f.branches.len(), 2);
    assert_eq!(f.branches[0].left, 1);
    assert_eq!(f.branches[0].right, 2);
    assert_eq!(f.branches[0].split_at, 0x4020);
    assert_eq!(f.branches[1].flags.0, 0xc000);
}

#[test]
fn embedded_forest_refusals() {
    let b0 = [1, 0, 2, 0, 0x20, 0x40, 0x05, 0x40];
    let b1 = [0, 0, 1, 0, 0x80, 0x3f, 0x00, 0xc0];
    // A classification forest asked for as a regression forest, and back.
    assert!(matches!(lumberjack::embedded::deserialize(&embedded_bytes(3, &[b0, b1], 0), false), Err(Error::WrongProblemType)));
    assert!(matches!(lumberjack::embedded::deserialize(&embedded_bytes(0, &[b0, b1], 0), true), Err(Error::WrongProblemType)));
    // A partial branch.
    assert!(matches!(lumberjack::embedded::deserialize(&embedded_bytes(3, &[b0, b1], 3), true), Err(Error::MalformedForest)));
    // A pointer past the last branch.
    let bad = [5, 0, 2, 0, 0x20, 0x40, 0x05, 0x40];
    assert!(matches!(lumberjack::embedded::deserialize(&embedded_bytes(3, &[bad, b1], 0), true), Err(Error::MalformedForest)));
    // A regression forest.
    assert!(lumberjack::embedded::deserialize(&embedded_bytes(0, &[b0, b1], 0), false).is_ok());
}

#[test]
fn cells_are_tree_headers_with_the_cell_flag() {
    // Four trees of lengths 2, 4, 2, 2; cells start at the first and third.
    let nodes = vec![
        header(2, 1, 2),
        branch(0, 1.0, 0, 1, true, true),
        header(4, 1, 0),
        branch(0, 1.0, 2, 0, false, true),
        branch(1, 1.0, 0, 1, true, true),
        Node::padding(),
        header(2, 1, 2),
        branch(0, 1.0, 0, 1, true, true),
        header(2, 1, 0),
        branch(0, 1.0, 0, 1, true, true),
    ];
    let mut trees = Vec::new();
    let mut it = iter_trees(&nodes);
    while let Some(h) = it.next() {
        trees.push(h);
    }
    assert_eq!(trees, vec![0, 2, 6, 8]);
    assert!(trees.windows(2).all(|w| w[0] < w[1]));
    let filtered: Vec<usize> = trees.iter().copied().filter(|&h| nodes[h].as_header().cache_metadata.is_cell_header()).collect();
    let mut cells = Vec::new();
    let mut ci = iter_cells(&nodes);
    while let Some(c) = ci.next() {
        cells.push(c);
    }
    assert_eq!(cells, vec![0, 6]);
    assert_eq!(cells, filtered);
    assert_eq!(cell_header_indices(&nodes), vec![0, 6]);
    assert_eq!(tree_header_indices(&nodes), vec![0, 2, 6, 8]);
}

fn embedded_header(tree_len: u32, first: u32) -> Branch {
    Branch {
        left: (tree_len & 0xffff) as u16,
        right: (tree_len >> 16) as u16,
        split_at: (first & 0xffff) as u16,
        flags: Flags((first >> 16) as u16),
    }
}

fn embedded_forest() -> lumberjack::embedded::OptimizedForest {
    let pad = Branch { left: 0, right: 0, split_at: 0, flags: Flags(0) };
    lumberjack::embedded::OptimizedForest {
        num_trees: 2,
        num_features: 2,
        num_targets: Some(3),
        branches: vec![
            embedded_header(4, 1),
            Branch::new(0, bits(2.5), 0, 2, true, false),
            Branch::new(1, bits(1.0), 1, 2, true, true),
            pad,
            embedded_header(2, 1),
            Branch::new(1, bits(0.5), 2, 1, true, true),
        ],
    }
}

#[test]
fn embedded_headers_follow_tree_lengths() {
    let f = embedded_forest();
    let mut it = f.tree_headers();
    assert_eq!(it.len(), 2);
    assert!(!it.is_empty());
    assert_eq!(it.next(), Some(0));
    assert_eq!(it.next(), Some(4));
    assert_eq!(it.next(), None);
    assert_eq!(f.num_trees(), 2);
    assert_eq!(f.nodes().len(), 6);
}

#[test]
fn embedded_verify_checks_forward_pointers() {
    let mut f = embedded_forest();
    assert_eq!(f.verify(), Ok(()));
    // A pointer back to the branch itself is refused.
    f.branches[1] = Branch::new(0, bits(2.5), 0, 1, true, false);
    assert_eq!(f.verify(), Err(Error::MalformedForest));
}

#[test]
fn embedded_predict_counts_votes_and_prefers_highest_on_tie() {
    let f = embedded_forest();
    // Tree 0 gives class 0, tree 1 class 2: a tie goes to the higher class.
    assert_eq!(f.predict(&[bits(1.0), bits(0.5)]), 2);
    // Tree 0 gives class 2, tree 1 class 1.
    assert_eq!(f.predict(&[bits(3.0), bits(2.0)]), 2);
    // Both trees give class 1.
    assert_eq!(f.predict(&[bits(3.0), bits(0.7)]), 1);
    let left = lumberjack::embedded::OptimizedForest::next_left(&f.branches[0..4], &f.branches[1]);
    assert_eq!(left.left, 4);
    let right = lumberjack::embedded::OptimizedForest::next_right(&f.branches[0..4], &f.branches[1]);
    assert_eq!(right.split_at, bits(1.0));
}

#[test]
fn embedded_classification_needs_targets() {
    assert!(matches!(lumberjack::embedded::Classification::new(0), Err(Error::MalformedForest)));
    assert_eq!(lumberjack::embedded::Classification::new(3).ok().map(|c| c.num_targets), Some(3));
}

#[test]
fn embedded_forest_bytes_read_back() {
    let f = embedded_forest();
    let bytes = f.to_bytes();
    assert_eq!(bytes.len(), 8 + 8 * 6);
    assert_eq!(&bytes[0..8], &[2, 0, 0, 0, 2, 3, 0, 0]);
    // The first header: tree length 4, first branch 1.
    assert_eq!(&bytes[8..16], &[4, 0, 0, 0, 1, 0, 0, 0]);
    let back = lumberjack::embedded::deserialize(&bytes, true).unwrap();
    assert_eq!(back.num_trees, 2);
    assert_eq!(back.num_features, 2);
    assert_eq!(back.num_targets, Some(3));
    assert_eq!(back.branches.len(), 6);
    for (a, b) in back.branches.iter().zip(f.branches.iter()) {
        assert_eq!((a.left, a.right, a.split_at, a.flags.0), (b.left, b.right, b.split_at, b.flags.0));
    }
}

#[test]
fn verify_acyclic_refuses_a_header_at_an_odd_index() {
    let nodes = vec![
        header(3, 1, 2),
        branch(0, 1.0, 0, 1, true, true),
        Node::padding(),
        header(2, 1, 0),
        branch(0, 1.0, 1, 0, true, true),
    ];
    let m = Model::new(2, 1, nodes, 1, 2).unwrap();
    assert_eq!(m.verify_acyclic(), Err(Error::MisalignedData));
}

#[test]
fn embedded_verify_refuses_a_header_at_an_odd_index() {
    let pad = Branch { left: 0, right: 0, split_at: 0, flags: Flags(0) };
    let f = lumberjack::embedded::OptimizedForest {
        num_trees: 2,
        num_features: 1,
        num_targets: Some(2),
        branches: vec![
            embedded_header(3, 1),
            Branch::new(0, bits(1.0), 0, 1, true, true),
            pad,
            embedded_header(2, 1),
            Branch::new(0, bits(1.0), 1, 0, true, true),
        ],
    };
    assert_eq!(f.verify(), Err(Error::MisalignedData));
}

#[test]
fn model_verify_refuses_a_header_at_an_odd_index() {
    let nodes = vec![
        header(3, 1, 2),
        branch(0, 1.0, 0, 1, true, true),
        Node::padding(),
        header(2, 1, 0),
        branch(0, 1.0, 1, 0, true, true),
    ];
    let m = Model::new(2, 1, nodes, 1, 2).unwrap();
    assert_eq!(m.verify(), Err(Error::MisalignedData));
}

#[test]
fn serialized_classification_rejects_regression_deserialization() {
    let f = embedded_forest();
    assert_eq!(f.verify(), Ok(()));
    let serialized = f.to_bytes();
    assert!(lumberjack::embedded::deserialize(&serialized, false).is_err());
}
