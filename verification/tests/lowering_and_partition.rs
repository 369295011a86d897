use lumberjack::analysis::analyze;
use lumberjack::compiler::paired::{compile_paired_tree, headers_follow, order_by_length, paired_placement, split_cells};
use lumberjack::compiler::tree_compiler::{compile, CompileError, LinkedNode, PlacementStrategy};
use lumberjack::compiler::tree_partition::{
    can_fit, order_by_depth_desc, partition_equal_random, partition_equal_sorted, partition_greedy_search,
    partition_in_order, tree_max_depth, tree_max_traversal_depth_superscalar, PartitionStrategy,
};
use lumberjack::compiler::{predict_tree, BranchNode, LeafNode, Node, Tree};
use lumberjack::feature_vectors::{column_features, data_point, place_features, prediction_column, sample_points, columns_within, SampleError};
use lumberjack::csv_forest::{lower_trees, problem_from_rows, roots_are_numbered, CsvForest, CsvNode, LowerError};
use lumberjack::forest_model::{ForestModel, IntermediateRepresentation};
use lumberjack::model;
use lumberjack::model::{CacheMetadata, Model, TreeHeader};
use lumberjack::problem::ProblemDefinition;
use lumberjack::Error;

fn bits(x: f32) -> u16 {
    half::bf16::from_f32(x).to_bits()
}

fn row(tree: usize, node: usize, left: usize, right: usize, split: Option<&str>, at: f32, pred: Option<&str>) -> CsvNode {
    CsvNode {
        tree_idx: tree,
        node_idx: node,
        left,
        right,
        split_on: split.map(|s| s.to_string()),
        split_at: bits(at),
        status: if split.is_some() { 1 } else { -1 },
        prediction: pred.map(|s| s.to_string()),
    }
}

/// Two trees given as rows; the rows of the second tree come first and the
/// rows of the first tree are out of node order.
fn rows() -> Vec<CsvNode> {
    vec![
        row(2, 1, 2, 3, Some("stem"), 3.0, None),
        row(2, 2, 0, 0, None, 0.0, Some("virginica")),
        row(2, 3, 0, 0, None, 0.0, Some("setosa")),
        row(1, 3, 4, 5, Some("sepal"), 1.0, None),
        row(1, 1, 2, 3, Some("petal"), 2.5, None),
        row(1, 2, 0, 0, None, 0.0, Some("setosa")),
        row(1, 4, 0, 0, None, 0.0, Some("versicolor")),
        row(1, 5, 0, 0, None, 0.0, Some("virginica")),
    ]
}

fn br(split_with: u16, split_at: f32, left: usize, right: usize) -> Node {
    Node::Branch(BranchNode { split_with, split_at: bits(split_at), left, right })
}

fn leaf(prediction: u16) -> Node {
    Node::Leaf(LeafNode { prediction })
}

fn deep_tree() -> Tree {
    Tree::new(vec![
        br(0, 5.0, 1, 2),
        br(1, 2.0, 3, 4),
        br(2, 1.0, 5, 6),
        leaf(0),
        leaf(1),
        br(0, 7.0, 7, 8),
        leaf(2),
        leaf(1),
        leaf(0),
    ])
}

fn small_tree() -> Tree {
    Tree::new(vec![br(0, 2.5, 1, 2), leaf(0), br(1, 1.0, 3, 4), leaf(1), leaf(2)])
}

fn stump() -> Tree {
    Tree::new(vec![br(2, 3.0, 1, 2), leaf(2), leaf(0)])
}

fn problem() -> ProblemDefinition {
    let mut p = ProblemDefinition::new();
    p.add_feature("sepal".to_string(), 0);
    p.add_feature("petal".to_string(), 1);
    p.add_feature("stem".to_string(), 2);
    p.add_target("setosa".to_string(), 0);
    p.add_target("versicolor".to_string(), 1);
    p.add_target("virginica".to_string(), 2);
    p
}

fn grid() -> Vec<Vec<u16>> {
    let values = [0.0f32, 1.0, 2.0, 2.5, 3.0, 4.5, 6.0, 8.0];
    let mut out = Vec::new();
    for a in values.iter() {
        for b in values.iter() {
            for c in values.iter() {
                out.push(vec![bits(*a), bits(*b), bits(*c)]);
            }
        }
    }
    out
}

fn compiled(t: &Tree) -> Vec<model::Node> {
    compile(t, PlacementStrategy::ExecutionAware).unwrap()
}

fn header(tree_len: u32, first: u16, cell_trees: u16) -> model::Node {
    let meta = if cell_trees == 0 { CacheMetadata::new_empty() } else { CacheMetadata::new_cell_header(cell_trees).unwrap() };
    model::Node::from_header(TreeHeader::new(tree_len, first, meta).unwrap())
}

fn mbranch(split_with: u16, at: f32, left: u16, right: u16, ll: bool, rl: bool) -> model::Node {
    model::Node::from_branch(model::Branch::new(split_with, bits(at), left, right, ll, rl))
}

fn two_tree_model() -> Model {
    let nodes = vec![
        header(4, 2, 2),
        model::Node::padding(),
        mbranch(0, 2.5, 0, 3, true, false),
        mbranch(1, 1.0, 1, 2, true, true),
        header(3, 2, 0),
        model::Node::padding(),
        mbranch(1, 0.5, 2, 1, true, true),
    ];
    Model::new(2, 1, nodes, 2, 3).unwrap()
}

// ---- CSV lowering ----

#[test]
fn problem_indexes_names_in_order_of_first_appearance() {
    let p = problem_from_rows(&rows()).unwrap();
    assert_eq!(p.num_features(), 3);
    assert_eq!(p.feature_index("stem"), Some(0));
    assert_eq!(p.feature_index("sepal"), Some(1));
    assert_eq!(p.feature_index("petal"), Some(2));
    assert_eq!(p.feature_index("leaf"), None);
    assert_eq!(p.num_targets(), 3);
    assert_eq!(p.target_index("virginica"), Some(0));
    assert_eq!(p.target_index("setosa"), Some(1));
    assert_eq!(p.target_index("versicolor"), Some(2));
    assert_eq!(p.target_name(2), Some("versicolor".to_string()));
    assert_eq!(p.target_name(3), None);
}

#[test]
fn problem_definition_keeps_first_index() {
    let mut p = ProblemDefinition::new();
    assert!(p.add_feature("a".to_string(), 0));
    assert!(!p.add_feature("a".to_string(), 1));
    assert_eq!(p.feature_index("a"), Some(0));
    assert_eq!(p.features().len(), 1);
    assert_eq!(p.targets().len(), 0);
}

#[test]
fn branch_row_without_daughter_is_refused() {
    let mut r = rows();
    r[0].right = 0;
    assert_eq!(problem_from_rows(&r).err(), Some(LowerError::MissingDaughter));
    assert_eq!(CsvForest::from_rows(r).err(), Some(LowerError::MissingDaughter));
}

#[test]
fn regression_row_is_refused() {
    let mut r = rows();
    r[1].status = 1;
    assert_eq!(problem_from_rows(&r).err(), Some(LowerError::NotClassification));
}

#[test]
fn row_normalizes_to_zero_indexed_node() {
    let p = problem_from_rows(&rows()).unwrap();
    let r = rows();
    match r[3].normalize(&p).unwrap() {
        Node::Branch(b) => {
            assert_eq!(b.split_with, 1);
            assert_eq!(b.split_at, bits(1.0));
            assert_eq!((b.left, b.right), (3, 4));
        }
        Node::Leaf(_) => panic!("expected a branch"),
    }
    match r[6].normalize(&p).unwrap() {
        Node::Leaf(l) => assert_eq!(l.prediction, 2),
        Node::Branch(_) => panic!("expected a leaf"),
    }
    assert_eq!(r[3].node_idx(), 3);
    assert_eq!(r[3].tree_idx(), 1);
    assert_eq!(r[3].feature_id(p.features()), Some(1));
    assert_eq!(r[6].target_id(p.targets()), Some(2));
}

#[test]
fn row_without_split_or_prediction_is_neither() {
    let p = problem_from_rows(&rows()).unwrap();
    let r = row(1, 9, 0, 0, None, 0.0, None);
    assert_eq!(r.normalize(&p).err(), Some(LowerError::NotBranchNorLeaf));
    let unknown = row(1, 9, 1, 2, Some("unknown"), 0.0, None);
    assert_eq!(unknown.normalize(&p).err(), Some(LowerError::FeatureIdMissing));
    let unknown_target = row(1, 9, 0, 0, None, 0.0, Some("unknown"));
    assert_eq!(unknown_target.normalize(&p).err(), Some(LowerError::TargetIdMissing));
}

#[test]
fn rows_lower_to_trees_in_tree_and_node_order() {
    let p = problem_from_rows(&rows()).unwrap();
    let trees = lower_trees(&rows(), &p).unwrap();
    assert_eq!(trees.len(), 2);
    assert_eq!(trees[0].nodes.len(), 5);
    assert_eq!(trees[1].nodes.len(), 3);
    match trees[0].nodes[0] {
        Node::Branch(b) => assert_eq!((b.split_with, b.left, b.right), (2, 1, 2)),
        Node::Leaf(_) => panic!("root is a branch"),
    }
    match trees[0].nodes[1] {
        Node::Leaf(l) => assert_eq!(l.prediction, 1),
        Node::Branch(_) => panic!("node 2 is a leaf"),
    }
    // f(stem)=0, f(sepal)=1, f(petal)=2 in this problem's order.
    assert_eq!(predict_tree(&trees[0], &[bits(0.0), bits(0.0), bits(1.0)]), 1);
    assert_eq!(predict_tree(&trees[0], &[bits(0.0), bits(2.0), bits(3.0)]), 0);
    assert_eq!(predict_tree(&trees[1], &[bits(5.0), bits(0.0), bits(0.0)]), 1);
}

#[test]
fn roots_must_be_numbered_from_one() {
    let mut r = rows();
    for x in r.iter_mut() {
        if x.tree_idx == 2 {
            x.tree_idx = 3;
        }
    }
    let p = problem_from_rows(&r).unwrap();
    assert!(!roots_are_numbered(&r));
    assert!(roots_are_numbered(&rows()));
    assert_eq!(lower_trees(&r, &p).err(), Some(LowerError::TreeIndexMismatch));
    let f = CsvForest::from_rows(r).unwrap();
    assert_eq!(f.lower_to_ir().err(), Some(LowerError::TreeIndexMismatch));
}

#[test]
fn csv_forest_lowers_to_ir_and_forest_model() {
    let f = CsvForest::from_rows(rows()).unwrap();
    assert_eq!(f.nodes().len(), 8);
    assert_eq!(f.features().len(), 3);
    assert_eq!(f.targets().len(), 3);
    assert_eq!(f.problem().num_targets(), 3);
    let ir = CsvForest::from_rows(rows()).unwrap().lower_to_ir().unwrap();
    assert_eq!(ir.num_trees(), 2);
    let fm = f.into_forest_model().unwrap();
    assert_eq!(fm.num_trees(), 2);
    // tree 1 -> versicolor (petal 3 > 2.5, sepal 0.5 <= 1), tree 2 -> virginica (stem 1 <= 3)
    let feats = [bits(1.0), bits(0.5), bits(3.0)];
    assert_eq!(ir.predict(&feats), ("virginica".to_string(), 1));
    assert_eq!(fm.predict(&feats), "virginica".to_string());
}

// ---- partitioning ----

#[test]
fn tree_depths_of_compiled_trees() {
    let m = two_tree_model();
    let nodes = m.nodes();
    assert_eq!(tree_max_depth(&nodes[0..4], 2), 2);
    assert_eq!(tree_max_depth(&nodes[4..7], 2), 1);
    assert_eq!(tree_max_traversal_depth_superscalar(&nodes[0..4], 0), 2);
    assert_eq!(tree_max_traversal_depth_superscalar(&nodes[4..7], 0), 2);
    let deep = compiled(&deep_tree());
    let first = deep[0].as_header().first_node_idx() as usize;
    assert_eq!(tree_max_depth(&deep, first), 3);
}

#[test]
fn order_by_depth_is_stable_and_descending() {
    assert_eq!(order_by_depth_desc(&vec![3, 5, 3, 1]), vec![(1, 5), (0, 3), (2, 3), (3, 1)]);
    assert_eq!(order_by_depth_desc(&Vec::new()), Vec::<(usize, usize)>::new());
}

#[test]
fn greedy_fit_counts_groups() {
    assert!(!can_fit(&vec![5, 3, 3, 1], 6, 2));
    assert!(can_fit(&vec![5, 3, 3, 1], 8, 2));
    assert!(can_fit(&vec![5, 3, 3, 1], 6, 3));
    assert!(can_fit(&vec![], 0, 1));
}

#[test]
fn in_order_partition_cuts_equal_chunks() {
    let forest: Vec<Vec<model::Node>> = vec![compiled(&small_tree()), compiled(&deep_tree()), compiled(&stump())];
    let cells = partition_in_order(&forest, &[2, 0, 1], 2);
    assert_eq!(cells.len(), 2);
    assert_eq!(cells[0].len(), 2);
    assert_eq!(cells[1].len(), 1);
    assert_eq!(cells[0][0].len(), forest[2].len());
    assert_eq!(cells[0][1].len(), forest[0].len());
    assert_eq!(cells[1][0].len(), forest[1].len());
}

#[test]
fn equal_partitions_keep_every_tree() {
    let forest: Vec<Vec<model::Node>> =
        vec![compiled(&small_tree()), compiled(&deep_tree()), compiled(&stump()), compiled(&deep_tree()), compiled(&stump())];
    for cells in [partition_equal_random(&forest, 2), partition_equal_sorted(&forest, 2)].iter() {
        assert_eq!(cells.len(), 2);
        assert_eq!(cells[0].len(), 3);
        assert_eq!(cells[1].len(), 2);
        let mut sizes: Vec<usize> = cells.iter().flat_map(|c| c.iter().map(|t| t.len())).collect();
        let mut want: Vec<usize> = forest.iter().map(|t| t.len()).collect();
        sizes.sort();
        want.sort();
        assert_eq!(sizes, want);
    }
    let one = partition_equal_random(&forest, 1);
    assert_eq!(one.len(), 1);
    assert_eq!(one[0].len(), 5);
}

#[test]
fn sorted_partition_puts_deepest_trees_first() {
    let forest: Vec<Vec<model::Node>> = vec![compiled(&stump()), compiled(&deep_tree()), compiled(&small_tree())];
    let cells = partition_equal_sorted(&forest, 3);
    assert_eq!(cells[0][0].len(), forest[1].len());
    assert_eq!(cells[2][0].len(), forest[0].len());
}

#[test]
fn greedy_partition_uses_at_most_the_cells() {
    let forest: Vec<Vec<model::Node>> =
        vec![compiled(&small_tree()), compiled(&deep_tree()), compiled(&stump()), compiled(&deep_tree())];
    let cells = partition_greedy_search(&forest, 2);
    assert!(cells.len() <= 2 && !cells.is_empty());
    let total: usize = cells.iter().map(|c| c.len()).sum();
    assert_eq!(total, 4);
    let whole = PartitionStrategy::Greedy.partition(&forest, 1);
    assert_eq!(whole.len(), 1);
    assert_eq!(whole[0].len(), 4);
}

// ---- analysis ----

#[test]
fn analysis_counts_pairs_lines_and_padding() {
    let a = analyze(&two_tree_model()).unwrap();
    assert_eq!(a.num_trees, 2);
    assert_eq!(a.num_features, 2);
    assert_eq!(a.num_targets, 3);
    assert_eq!(a.used_cells, 1);
    assert_eq!(a.total_nodes, 7);
    assert_eq!(a.total_size_bytes, 56);
    assert_eq!(a.max_tree_size, 4);
    assert_eq!(a.max_tree_depth, 2);
    assert_eq!(a.trees.len(), 2);
    let t0 = &a.trees[0];
    assert_eq!((t0.index, t0.size, t0.depth), (0, 4, 2));
    assert_eq!((t0.good_pairs, t0.guaranteed, t0.cache_lines, t0.padding), (1, 1, 2, 1));
    assert!(t0.cell_header);
    let t1 = &a.trees[1];
    assert_eq!((t1.index, t1.size, t1.depth), (1, 3, 1));
    assert_eq!((t1.good_pairs, t1.guaranteed, t1.cache_lines, t1.padding), (0, 0, 2, 1));
    assert!(!t1.cell_header);
    assert_eq!(a.cells.len(), 1);
    let c = &a.cells[0];
    assert_eq!((c.index, c.num_trees, c.required_capacity), (0, 2, 7));
    assert_eq!((c.good_pairs, c.guaranteed_pairs, c.cache_lines, c.padding), (1, 1, 4, 2));
}

#[test]
fn analysis_refuses_broken_layout() {
    let m = Model::new(3, 1, two_tree_model().nodes().to_vec(), 2, 3).unwrap();
    assert_eq!(analyze(&m).err(), Some(Error::MalformedForest));
}

// ---- paired layout ----

#[test]
fn paired_placement_places_every_branch() {
    let placed = paired_placement(&deep_tree()).unwrap();
    let mut ids: Vec<usize> = placed
        .iter()
        .filter_map(|n| match n {
            LinkedNode::Branch(b) => Some(b.id),
            LinkedNode::Padding => None,
        })
        .collect();
    ids.sort();
    assert_eq!(ids, vec![0, 1, 2, 5]);
}

#[test]
fn paired_trees_predict_as_ir_trees() {
    for t in [small_tree(), deep_tree(), stump()].iter() {
        let nodes = compile_paired_tree(t).unwrap();
        let m = Model::new(1, 0, nodes, 3, 3).unwrap();
        assert!(m.layout_ok());
        assert_eq!(m.verify(), Ok(()));
        for f in grid().iter() {
            assert_eq!(m.predict(f), predict_tree(t, f));
        }
    }
}

#[test]
fn trees_order_by_length_shortest_first() {
    let trees = vec![deep_tree(), stump(), small_tree()];
    assert_eq!(order_by_length(&trees), vec![1, 2, 0]);
}

#[test]
fn forest_model_compiles_and_predicts() {
    let fm = ForestModel::new(vec![small_tree(), deep_tree(), stump()], problem());
    assert_eq!(fm.num_trees(), 3);
    assert_eq!(fm.num_features(), 3);
    assert_eq!(fm.num_targets(), 3);
    let nodes = fm.compile().unwrap();
    assert!(headers_follow(&nodes));
    let m = Model::new(3, 0, nodes, 3, 3).unwrap();
    assert_eq!(m.verify(), Ok(()));
    for f in grid().iter() {
        assert_eq!(fm.problem().target_name(m.predict(f)), Some(fm.predict(f)));
    }
}

#[test]
fn intermediate_representation_compiles_into_cells() {
    let ir = IntermediateRepresentation::new(vec![small_tree(), deep_tree(), stump(), small_tree()], problem());
    assert_eq!(ir.num_trees(), 4);
    for cells in 1u8..4 {
        let nodes = ir.compile(cells).unwrap();
        let m = Model::new(4, cells, nodes, 3, 3).unwrap();
        assert!(m.layout_ok());
        assert_eq!(m.verify(), Ok(()));
        let mut count = 0usize;
        let mut it = m.cache_headers();
        while let Some(_) = it.next() {
            count += 1;
        }
        assert!(count >= 1 && count <= cells as usize);
        for f in grid().iter() {
            let (name, _) = ir.predict(f);
            assert_eq!(ir.problem().target_name(m.predict(f)), Some(name));
        }
    }
}

#[test]
fn intermediate_representation_of_no_trees_is_refused() {
    let ir = IntermediateRepresentation::new(vec![], problem());
    assert!(matches!(ir.compile(2), Err(CompileError::MalformedTrees)));
    let ir = IntermediateRepresentation::new(vec![small_tree()], problem());
    assert!(ir.compile(4).is_ok());
}

#[test]
fn split_cells_marks_cell_headers() {
    let fm = ForestModel::new(vec![small_tree(), deep_tree(), stump(), small_tree()], problem());
    let mut nodes = fm.compile().unwrap();
    assert_eq!(split_cells(&mut nodes, 2, 4), Ok(()));
    let m = Model::new(4, 2, nodes, 3, 3).unwrap();
    let mut marked = Vec::new();
    let mut it = m.cache_headers();
    while let Some(h) = it.next() {
        marked.push(m.nodes()[h].as_header().cache_metadata().get_num_trees().unwrap());
    }
    assert_eq!(marked, vec![2, 2]);
}

#[test]
fn split_cells_with_at_most_one_cell_marks_the_first_header() {
    let fm = ForestModel::new(vec![small_tree(), stump()], problem());
    let mut nodes = fm.compile().unwrap();
    assert_eq!(split_cells(&mut nodes, 0, 2), Ok(()));
    assert_eq!(nodes[0].as_header().cache_metadata().get_num_trees(), Some(2));
    let mut again = fm.compile().unwrap();
    assert_eq!(split_cells(&mut again, 1, 0), Err(CompileError::EmptyCell));
}

#[test]
fn split_cells_refuses_an_empty_cell_before_the_headers_run_out() {
    // Three trees laid out, but only one counted: the second cell would get
    // none while trees remain.
    let fm = ForestModel::new(vec![small_tree(), stump(), small_tree()], problem());
    let mut nodes = fm.compile().unwrap();
    assert_eq!(split_cells(&mut nodes, 2, 1), Err(CompileError::EmptyCell));
    // A cell count with fewer trees than cells leaves the last cells unmarked.
    let mut nodes = fm.compile().unwrap();
    assert_eq!(split_cells(&mut nodes, 5, 3), Ok(()));
}

#[test]
fn paired_compile_fails_exactly_when_some_tree_cannot_be_paired() {
    let fm = ForestModel::new(vec![small_tree(), deep_tree(), stump()], problem());
    assert!(fm.compile().is_ok());
    let empty = ForestModel::new(vec![], problem());
    assert!(empty.compile().unwrap().is_empty());
    // Both children of the root are the same leaf: the second lookup finds
    // it taken already.
    let shared = Tree::new(vec![Node::Branch(BranchNode { split_with: 0, split_at: 0, left: 1, right: 1 }), Node::Leaf(LeafNode { prediction: 0 })]);
    assert!(matches!(compile_paired_tree(&shared), Err(CompileError::PlacementFailed)));
    let fm = ForestModel::new(vec![small_tree(), shared], problem());
    assert!(matches!(fm.compile(), Err(CompileError::PlacementFailed)));
}

// ---- even split of a compiled model ----

#[test]
fn split_gives_each_cell_its_trees_nodes() {
    let m = two_tree_model();
    let cells = lumberjack::forest_model::split(&m, 2);
    assert_eq!(cells.len(), 2);
    assert_eq!(cells[0].len(), 4);
    assert_eq!(cells[1].len(), 3);
    assert_eq!(cells[1][0].0, m.nodes()[4].0);
    let one = lumberjack::forest_model::split(&m, 1);
    assert_eq!(one.len(), 1);
    assert_eq!(one[0].len(), 7);
}

#[test]
fn split_puts_extra_trees_in_first_cells() {
    let fm = ForestModel::new(vec![small_tree(), deep_tree(), stump()], problem());
    let nodes = fm.compile().unwrap();
    let m = Model::new(3, 2, nodes, 3, 3).unwrap();
    let headers = lumberjack::model::tree_header_indices(m.nodes());
    let cells = lumberjack::forest_model::split(&m, 2);
    assert_eq!(cells.len(), 2);
    assert_eq!(cells[0].len(), headers[2]);
    assert_eq!(cells[1].len(), m.nodes().len() - headers[2]);
}

// ---- feature vectors ----

#[test]
fn prediction_column_is_the_first_named_prediction() {
    let h: Vec<String> = vec!["a", "prediction", "b", "prediction"].into_iter().map(|s| s.to_string()).collect();
    assert_eq!(prediction_column(&h), Some(1));
    let none: Vec<String> = vec!["a".to_string(), "b".to_string()];
    assert_eq!(prediction_column(&none), None);
}

#[test]
fn columns_map_to_feature_indices() {
    let p = problem();
    let h: Vec<String> = vec!["stem", "prediction", "unknown", "sepal", "petal"].into_iter().map(|s| s.to_string()).collect();
    assert_eq!(column_features(&h, &p), vec![Some(2), None, None, Some(0), Some(1)]);
    assert!(columns_within(&column_features(&h, &p), 3));
    assert!(!columns_within(&column_features(&h, &p), 2));
}

#[test]
fn row_values_go_to_their_features() {
    let p = problem();
    let h: Vec<String> = vec!["stem", "prediction", "sepal"].into_iter().map(|s| s.to_string()).collect();
    let cols = column_features(&h, &p);
    let values = vec![bits(4.0), 0, bits(1.5)];
    assert_eq!(place_features(&cols, &values, 3), vec![bits(1.5), 0, bits(4.0)]);
    let dp = data_point(&cols, &values, "virginica", &p).unwrap();
    assert_eq!(dp.reference_prediction, 2);
    assert_eq!(dp.features, vec![bits(1.5), 0, bits(4.0)]);
    assert!(data_point(&cols, &values, "rose", &p).is_none());
}

#[test]
fn later_column_of_a_feature_wins() {
    let cols = vec![Some(0), Some(0), None];
    assert_eq!(place_features(&cols, &vec![1, 2, 3], 2), vec![2, 0]);
    assert_eq!(place_features(&cols, &vec![1], 2), vec![1, 0]);
}

#[test]
fn even_cells_sum_their_trees_metrics() {
    let a = analyze(&two_tree_model()).unwrap();
    let cells = lumberjack::analysis::even_cells(&a.trees, 2);
    assert_eq!(cells.len(), 2);
    assert_eq!((cells[0].index, cells[0].num_trees, cells[0].required_capacity, cells[0].max_depth), (0, 1, 4, 2));
    assert_eq!((cells[1].index, cells[1].num_trees, cells[1].required_capacity, cells[1].max_depth), (1, 1, 3, 1));
    let one = lumberjack::analysis::even_cells(&a.trees, 1);
    assert_eq!((one[0].num_trees, one[0].required_capacity, one[0].max_depth, one[0].cache_lines), (2, 7, 3, 4));
}

#[test]
fn sample_rows_make_points_in_order() {
    let p = problem();
    let h: Vec<String> = vec!["stem", "prediction", "sepal"].into_iter().map(|s| s.to_string()).collect();
    let cols = column_features(&h, &p);
    let rows = vec![vec![bits(4.0), 0, bits(1.5)], vec![bits(2.0), 0, bits(0.5)]];
    let preds = vec!["virginica".to_string(), "setosa".to_string()];
    let points = sample_points(&cols, &rows, &preds, &p).unwrap();
    assert_eq!(points.len(), 2);
    assert_eq!(points[0].reference_prediction, 2);
    assert_eq!(points[0].features, vec![bits(1.5), 0, bits(4.0)]);
    assert_eq!(points[1].reference_prediction, 0);
    assert_eq!(points[1].features, vec![bits(0.5), 0, bits(2.0)]);
}

#[test]
fn sample_rows_refusals() {
    let p = problem();
    let h: Vec<String> = vec!["stem", "prediction", "sepal"].into_iter().map(|s| s.to_string()).collect();
    let cols = column_features(&h, &p);
    let none: Vec<Vec<u16>> = Vec::new();
    assert_eq!(sample_points(&cols, &none, &Vec::new(), &p).err(), Some(SampleError::NoRecords));
    let rows = vec![vec![0, 0, 0], vec![0, 0, 0], vec![0, 0, 0]];
    let preds = vec!["setosa".to_string(), "rose".to_string(), "tulip".to_string()];
    assert_eq!(sample_points(&cols, &rows, &preds, &p).err(), Some(SampleError::UnknownTarget(1)));
}
