use std::collections::HashMap;

use lumberjack::compiler::tree_compiler::orders::{
    breadth_first_placement, collect_branch_indices, depth_first_placement, random_placement,
};
use lumberjack::compiler::tree_compiler::{compile, execution_aware_placement, LinkedNode, PlacementStrategy};
use lumberjack::compiler::tree_partition::PartitionStrategy;
use lumberjack::compiler::checks::{forest_can_predict, forest_is_compilable, paths_end_within, tree_is_compilable};
use lumberjack::compiler::{best_result, forest_votes, predict_tree, BranchNode, InterRep, LeafNode, Node, Tree};
use lumberjack::model::Model;
use lumberjack::problem::ProblemDefinition;

fn bits(x: f32) -> u16 {
    half::bf16::from_f32(x).to_bits()
}

fn br(split_with: u16, split_at: f32, left: usize, right: usize) -> Node {
    Node::Branch(BranchNode { split_with, split_at: bits(split_at), left, right })
}

fn leaf(prediction: u16) -> Node {
    Node::Leaf(LeafNode { prediction })
}

/// f0 <= 2.5 ? 0 : (f1 <= 1.0 ? 1 : 2)
fn small_tree() -> Tree {
    Tree::new(vec![br(0, 2.5, 1, 2), leaf(0), br(1, 1.0, 3, 4), leaf(1), leaf(2)])
}

/// A deeper tree over three features.
fn deep_tree() -> Tree {
    Tree::new(vec![
        br(0, 5.0, 1, 2),
        br(1, 2.0, 3, 4),
        br(2, 1.0, 5, 6),
        leaf(0),
        leaf(1),
        br(0, 7.0, 7, 8),
        leaf(2),
        leaf(1),
        leaf(0),
    ])
}

/// f2 <= 3.0 ? 2 : 0
fn stump() -> Tree {
    Tree::new(vec![br(2, 3.0, 1, 2), leaf(2), leaf(0)])
}

fn problem() -> ProblemDefinition {
    let mut p = ProblemDefinition::new();
    assert!(p.add_feature("sepal".to_string(), 0));
    assert!(p.add_feature("petal".to_string(), 1));
    assert!(p.add_feature("stem".to_string(), 2));
    assert!(p.add_target("setosa".to_string(), 0));
    assert!(p.add_target("versicolor".to_string(), 1));
    assert!(p.add_target("virginica".to_string(), 2));
    p
}

fn grid() -> Vec<Vec<u16>> {
    let values = [0.0f32, 1.0, 2.0, 2.5, 3.0, 4.5, 6.0, 8.0];
    let mut out = Vec::new();
    for a in values.iter() {
        for b in values.iter() {
            for c in values.iter() {
                out.push(vec![bits(*a), bits(*b), bits(*c)]);
            }
        }
    }
    out
}

fn placed_ids(placed: &[LinkedNode]) -> Vec<usize> {
    let mut ids: Vec<usize> = placed
        .iter()
        .filter_map(|n| match n {
            LinkedNode::Branch(b) => Some(b.id),
            LinkedNode::Padding => None,
        })
        .collect();
    ids.sort();
    ids
}

#[test]
fn ir_tree_walks_to_its_leaf() {
    let t = small_tree();
    assert_eq!(predict_tree(&t, &[bits(1.0), bits(0.0)]), 0);
    assert_eq!(predict_tree(&t, &[bits(2.5), bits(9.0)]), 0);
    assert_eq!(predict_tree(&t, &[bits(3.0), bits(1.0)]), 1);
    assert_eq!(predict_tree(&t, &[bits(3.0), bits(1.5)]), 2);
}

#[test]
fn best_result_takes_most_votes_lowest_class_on_tie() {
    let mut votes: HashMap<u16, usize> = HashMap::new();
    votes.insert(2, 5);
    votes.insert(1, 5);
    votes.insert(0, 3);
    assert_eq!(best_result(&votes), (1, 5));
    votes.insert(9, 6);
    assert_eq!(best_result(&votes), (9, 6));
    let mut one: HashMap<u16, usize> = HashMap::new();
    one.insert(4, 1);
    assert_eq!(best_result(&one), (4, 1));
}

#[test]
fn forest_votes_count_each_tree_once() {
    let trees = vec![small_tree(), deep_tree(), stump()];
    let votes = forest_votes(&trees, &[bits(0.0), bits(0.0), bits(0.0)]);
    // small -> 0, deep -> 0 (f1 <= 2.0), stump -> 2.
    assert_eq!(votes.get(&0), Some(&2));
    assert_eq!(votes.get(&2), Some(&1));
    assert_eq!(votes.len(), 2);
}

#[test]
fn inter_rep_predicts_target_name_and_votes() {
    let ir = InterRep::new(vec![small_tree(), deep_tree(), stump()], problem());
    assert_eq!(ir.num_trees(), 3);
    assert_eq!(ir.num_features(), 3);
    assert_eq!(ir.num_targets(), 3);
    assert_eq!(ir.predict(&[bits(0.0), bits(0.0), bits(0.0)]), ("setosa".to_string(), 2));
    // small -> 2, deep -> f0 6.0 > 5: f2 9.0 > 1.0 -> 2, stump -> 0.
    assert_eq!(ir.predict(&[bits(6.0), bits(9.0), bits(9.0)]), ("virginica".to_string(), 2));
    // small -> 1, deep -> f2 0.5 <= 1.0, f0 6.0 <= 7.0 -> 1, stump -> 2.
    assert_eq!(ir.predict(&[bits(6.0), bits(0.5), bits(0.5)]), ("versicolor".to_string(), 2));
}

#[test]
fn branch_indices_are_the_branches() {
    assert_eq!(collect_branch_indices(&deep_tree()), vec![0, 1, 2, 5]);
    assert_eq!(collect_branch_indices(&small_tree()), vec![0, 2]);
}

#[test]
fn every_placement_places_each_branch_once_root_first() {
    let t = deep_tree();
    let placements = vec![
        execution_aware_placement(&t),
        random_placement(&t),
        breadth_first_placement(&t),
        depth_first_placement(&t),
    ];
    for placed in placements.iter() {
        match placed[0] {
            LinkedNode::Branch(b) => assert_eq!(b.id, 0),
            LinkedNode::Padding => panic!("root is not first"),
        }
        assert_eq!(placed_ids(placed), vec![0, 1, 2, 5]);
    }
}

#[test]
fn breadth_and_depth_first_orders() {
    let t = deep_tree();
    let bfs: Vec<usize> = breadth_first_placement(&t)
        .iter()
        .filter_map(|n| match n {
            LinkedNode::Branch(b) => Some(b.id),
            LinkedNode::Padding => None,
        })
        .collect();
    assert_eq!(bfs, vec![0, 1, 2, 5]);
    let dfs: Vec<usize> = depth_first_placement(&t)
        .iter()
        .filter_map(|n| match n {
            LinkedNode::Branch(b) => Some(b.id),
            LinkedNode::Padding => None,
        })
        .collect();
    assert_eq!(dfs, vec![0, 1, 2, 5]);
}

#[test]
fn placement_strategy_names_and_defaults() {
    assert_eq!(PlacementStrategy::default_strategy(), PlacementStrategy::ExecutionAware);
    assert_eq!(PlacementStrategy::ExecutionAware.name(), "execution-aware");
    assert_eq!(PlacementStrategy::Random.name(), "random");
    assert_eq!(PlacementStrategy::BreadthFirst.name(), "breadth-first");
    assert_eq!(PlacementStrategy::DepthFirst.name(), "depth-first");
    assert_eq!(PartitionStrategy::default_strategy(), PartitionStrategy::Greedy);
    assert_eq!(PartitionStrategy::Greedy.name(), "greedy");
    assert_eq!(PartitionStrategy::EqualRandom.name(), "equal-random");
    assert_eq!(PartitionStrategy::EqualSorted.name(), "equal-sorted");
}

#[test]
fn compiled_tree_predicts_as_the_ir_tree_for_every_placement() {
    let strategies = [
        PlacementStrategy::ExecutionAware,
        PlacementStrategy::Random,
        PlacementStrategy::BreadthFirst,
        PlacementStrategy::DepthFirst,
    ];
    for t in [small_tree(), deep_tree(), stump()].iter() {
        for s in strategies.iter() {
            let nodes = compile(t, *s).unwrap();
            let header = nodes[0].as_header();
            assert_eq!(header.tree_len() as usize, nodes.len());
            let model = Model::new(1, 0, nodes, 3, 3).unwrap();
            assert!(model.layout_ok());
            if *s != PlacementStrategy::Random {
                // Every placement but the random one puts parents before children.
                assert_eq!(model.verify(), Ok(()), "{:?}", s);
            }
            assert_eq!(model.verify_acyclic(), Ok(()));
            for f in grid().iter() {
                assert_eq!(model.predict(f), predict_tree(t, f));
            }
        }
    }
}

#[test]
fn compiled_forest_predicts_as_the_ir_for_every_strategy() {
    let ir = InterRep::new(vec![small_tree(), deep_tree(), stump(), deep_tree(), small_tree()], problem());
    let placements = [
        PlacementStrategy::ExecutionAware,
        PlacementStrategy::Random,
        PlacementStrategy::BreadthFirst,
        PlacementStrategy::DepthFirst,
    ];
    let partitions = [PartitionStrategy::Greedy, PartitionStrategy::EqualRandom, PartitionStrategy::EqualSorted];
    for cells in 0u8..4 {
        for pl in placements.iter() {
            for pa in partitions.iter() {
                let nodes = ir.compile(cells, *pl, *pa).unwrap();
                let model = Model::new(5, cells, nodes, 3, 3).unwrap();
                assert!(model.layout_ok());
                if *pl != PlacementStrategy::Random {
                    assert_eq!(model.verify(), Ok(()), "{:?}", pl);
                }
                assert_eq!(model.verify_acyclic(), Ok(()));
                let mut marked = 0usize;
                let mut it = model.cache_headers();
                while let Some(_) = it.next() {
                    marked += 1;
                }
                let wanted = if cells <= 1 { 1 } else { cells as usize };
                if *pa == PartitionStrategy::Greedy {
                    assert!(marked >= 1 && marked <= wanted);
                } else {
                    assert_eq!(marked, wanted);
                }
                for f in grid().iter() {
                    let class = model.predict(f);
                    let (name, _) = ir.predict(f);
                    assert_eq!(ir.problem().target_name(class), Some(name));
                }
            }
        }
    }
}

#[test]
fn serialized_then_deserialized_classification_tree_is_accurate() {
    let ir = InterRep::new(vec![small_tree(), deep_tree(), stump(), deep_tree(), small_tree()], problem());
    let nodes = ir.compile(0, PlacementStrategy::ExecutionAware, PartitionStrategy::EqualRandom).unwrap();
    let compiled = Model::new(5, 0, nodes, 3, 3).unwrap();
    assert_eq!(compiled.verify_acyclic(), Ok(()));
    let serialized = compiled.serialize();
    let optimized = Model::deserialize(&serialized).unwrap();
    for f in grid().iter() {
        let (name, _) = ir.predict(f);
        assert_eq!(ir.problem().target_name(optimized.predict(f)), Some(name));
    }
}

#[test]
fn classification_static_storage_deserializes_correctly() {
    let ir = InterRep::new(vec![small_tree(), deep_tree(), stump()], problem());
    let nodes = ir.compile(2, PlacementStrategy::ExecutionAware, PartitionStrategy::Greedy).unwrap();
    let bytes = Model::new(3, 2, nodes, 3, 3).unwrap().serialize();
    let mut buf = [0u8; 512];
    buf[..bytes.len()].copy_from_slice(&bytes);
    let storage = lumberjack::model::storage::BackingStorage::new(buf);
    let deserialized = Model::deserialize(&storage.to_slice()[..bytes.len()]).unwrap();
    assert_eq!(deserialized.verify_acyclic(), Ok(()));
    for f in grid().iter() {
        let (name, _) = ir.predict(f);
        assert_eq!(ir.problem().target_name(deserialized.predict(f)), Some(name));
    }
}

#[test]
fn compilable_check_accepts_trees_and_refuses_broken_ones() {
    assert!(forest_is_compilable(&vec![small_tree(), deep_tree(), stump()]));
    assert!(tree_is_compilable(&deep_tree()));
    // A child beyond the tree.
    assert!(!tree_is_compilable(&Tree::new(vec![br(0, 1.0, 1, 5), leaf(0)])));
    // A leaf at the root.
    assert!(!tree_is_compilable(&Tree::new(vec![leaf(0)])));
    // A branch that points to itself.
    assert!(!tree_is_compilable(&Tree::new(vec![br(0, 1.0, 0, 1), leaf(1)])));
    // A split variable beyond what the flags hold.
    assert!(!tree_is_compilable(&Tree::new(vec![br(0x4000, 1.0, 1, 2), leaf(0), leaf(1)])));
    assert!(!tree_is_compilable(&Tree::new(vec![])));
    assert!(!forest_is_compilable(&vec![small_tree(), Tree::new(vec![leaf(0)])]));
}

#[test]
fn prediction_check_needs_features_and_named_leaves() {
    let trees = vec![small_tree(), deep_tree(), stump()];
    let p = problem();
    assert!(forest_can_predict(&trees, &p, 3));
    assert!(!forest_can_predict(&trees, &p, 2));
    assert!(!forest_can_predict(&vec![], &p, 3));
    assert!(!forest_can_predict(&vec![Tree::new(vec![br(0, 1.0, 1, 2), leaf(0), leaf(7)])], &p, 1));
    assert!(paths_end_within(&small_tree().nodes, 0, 2, 3));
    assert!(!paths_end_within(&small_tree().nodes, 0, 2, 2));
}

fn slots(placed: &[LinkedNode]) -> Vec<Option<(usize, Option<usize>)>> {
    placed
        .iter()
        .map(|n| match n {
            LinkedNode::Branch(b) => Some((b.id, b.parent_id)),
            LinkedNode::Padding => None,
        })
        .collect()
}

#[test]
fn execution_aware_pairs_branches_with_children() {
    // Root, then the one-leaf branch 2 with its branch child 5, then the
    // two-leaf branch 1; 5 is placed already.
    assert_eq!(
        slots(&execution_aware_placement(&deep_tree())),
        vec![Some((0, None)), Some((2, None)), Some((5, Some(2))), Some((1, None))]
    );
    // A two-pointer branch whose children were both placed gets padding.
    let t = Tree::new(vec![
        br(0, 1.0, 1, 2),
        br(1, 1.0, 3, 4),
        leaf(0),
        br(2, 1.0, 5, 6),
        br(0, 2.0, 7, 8),
        br(1, 2.0, 9, 10),
        leaf(1),
        leaf(2),
        br(2, 2.0, 11, 12),
        leaf(0),
        leaf(1),
        leaf(2),
        leaf(0),
    ]);
    assert_eq!(
        slots(&execution_aware_placement(&t)),
        vec![
            Some((0, None)),
            Some((3, None)),
            Some((5, Some(3))),
            Some((4, None)),
            Some((8, Some(4))),
            Some((1, None)),
            None
        ]
    );
}

#[test]
fn depth_first_records_parents() {
    assert_eq!(
        slots(&depth_first_placement(&deep_tree())),
        vec![Some((0, None)), Some((1, Some(0))), Some((2, Some(0))), Some((5, Some(2)))]
    );
}

#[test]
fn traversal_orders_place_a_shared_branch_once_per_path() {
    // Both children of the root are branch 1.
    let t = Tree::new(vec![br(0, 1.0, 1, 1), br(1, 2.0, 2, 3), leaf(0), leaf(1)]);
    assert_eq!(
        slots(&breadth_first_placement(&t)),
        vec![Some((0, None)), Some((1, None)), Some((1, None))]
    );
    assert_eq!(
        slots(&depth_first_placement(&t)),
        vec![Some((0, None)), Some((1, Some(0))), Some((1, Some(0)))]
    );
    assert_eq!(slots(&execution_aware_placement(&t)), vec![Some((0, None)), Some((1, None))]);
}

#[test]
fn compiled_model_accuracy_iris_800_trees() {
    // A small forest stands for the CSV forest of the original test.
    let ir = InterRep::new(vec![small_tree(), deep_tree(), stump(), deep_tree(), small_tree()], problem());
    let nodes = ir.compile(0, PlacementStrategy::ExecutionAware, PartitionStrategy::EqualSorted).unwrap();
    let compiled = Model::new(ir.num_trees() as u32, 0, nodes, 3, 3).unwrap();
    assert_eq!(compiled.verify_acyclic(), Ok(()));
    for f in grid().iter() {
        let (name, _) = ir.predict(f);
        let idx = ir.problem().target_index(&name).expect("target not found");
        assert_eq!(compiled.predict(f), idx);
    }
}
