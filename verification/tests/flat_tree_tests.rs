use flat_tree::flat_tree::FlatTree;
use flat_tree::flat_tree_error::FlatTreeError;
use flat_tree::helpers::get_nodes_from_sorted_raw_nodes;
use flat_tree::helpers::get_sorted_raw_nodes_from_payloads;
use flat_tree::helpers::PayloadWithLevel;
use flat_tree::traits::{DirectChildrenGetter, OverNodesCallback, UsizeUnaryOperations};
use flat_tree::tree_nodes::{RawTreeNode, TreeNode};

/// The example hierarchy: roots ["A", "B"], children("A") = ["A1", "A2"],
/// children("A2") = ["A2x"], everything else childless.
struct ExampleChildren;

impl DirectChildrenGetter<String> for ExampleChildren {
    fn get_direct_children(&self, parent: &String) -> Vec<String> {
        match parent.as_str() {
            "A" => vec!["A1".to_string(), "A2".to_string()],
            "A2" => vec!["A2x".to_string()],
            _ => Vec::new(),
        }
    }
}

/// Two roots where only the second has a child.
struct TwoRootsChildren;

impl DirectChildrenGetter<String> for TwoRootsChildren {
    fn get_direct_children(&self, parent: &String) -> Vec<String> {
        match parent.as_str() {
            "R2" => vec!["C".to_string()],
            _ => Vec::new(),
        }
    }
}

struct Recorder {
    visited: Vec<(String, usize)>,
}

impl Recorder {
    fn new() -> Self {
        Recorder { visited: Vec::new() }
    }
}

impl OverNodesCallback<String> for Recorder {
    fn on_node(&mut self, node: &TreeNode<String>, index: usize) {
        self.visited.push((node.payload.clone(), index));
    }
}

fn example_tree() -> FlatTree<String> {
    FlatTree::new(vec!["A".to_string(), "B".to_string()], ExampleChildren)
}

fn assert_node(
    node: &TreeNode<String>,
    payload: &str,
    level: usize,
    has_children: bool,
    last_child_index: usize,
) {
    assert_eq!(node.payload, payload);
    assert_eq!(node.level, level);
    assert_eq!(node.has_children, has_children);
    assert_eq!(node.last_child_index, last_child_index);
}

#[test]
fn round_trip_flattening() {
    let tree = example_tree();
    let nodes = tree.get_nodes();
    assert_eq!(nodes.len(), 5);
    assert_node(&nodes[0], "A", 0, true, 3);
    assert_node(&nodes[1], "A1", 1, false, 1);
    assert_node(&nodes[2], "A2", 1, true, 3);
    assert_node(&nodes[3], "A2x", 2, false, 3);
    assert_node(&nodes[4], "B", 0, false, 4);
}

#[test]
fn empty_tree_has_no_nodes() {
    let tree: FlatTree<String> = FlatTree::new(Vec::new(), ExampleChildren);
    assert_eq!(tree.get_nodes().len(), 0);
    let mut recorder = Recorder::new();
    tree.for_each(&mut recorder);
    assert!(recorder.visited.is_empty());
}

#[test]
fn get_returns_node() {
    let tree = example_tree();
    let node = tree.get(2).unwrap();
    assert_node(node, "A2", 1, true, 3);
}

#[test]
fn get_out_of_range() {
    let tree = example_tree();
    assert_eq!(
        tree.get(5).unwrap_err(),
        FlatTreeError::NodeWithSpecifiedIndexIsMissing { index: 5 }
    );
}

#[test]
fn find_index_first_match() {
    let tree = example_tree();
    assert_eq!(tree.find_index(|node| node.level == 1), Some(1));
    assert_eq!(tree.find_index(|node| node.payload == "A2x"), Some(3));
    assert_eq!(tree.find_index(|node| node.payload == "missing"), None);
}

#[test]
fn for_each_visits_every_index() {
    let tree = example_tree();
    let mut recorder = Recorder::new();
    tree.for_each(&mut recorder);
    let expected: Vec<(String, usize)> = vec![
        ("A".to_string(), 0),
        ("A1".to_string(), 1),
        ("A2".to_string(), 2),
        ("A2x".to_string(), 3),
        ("B".to_string(), 4),
    ];
    assert_eq!(recorder.visited, expected);
}

#[test]
fn for_each_child_visits_subtree_range() {
    let tree = example_tree();
    let mut recorder = Recorder::new();
    tree.for_each_child(2, &mut recorder).unwrap();
    let expected: Vec<(String, usize)> =
        vec![("A2".to_string(), 2), ("A2x".to_string(), 3)];
    assert_eq!(recorder.visited, expected);

    let mut whole = Recorder::new();
    tree.for_each_child(0, &mut whole).unwrap();
    let indices: Vec<usize> = whole.visited.iter().map(|entry| entry.1).collect();
    assert_eq!(indices, vec![0, 1, 2, 3]);
}

#[test]
fn for_each_child_out_of_range() {
    let tree = example_tree();
    let mut recorder = Recorder::new();
    assert_eq!(
        tree.for_each_child(9, &mut recorder).unwrap_err(),
        FlatTreeError::NodeWithSpecifiedIndexIsMissing { index: 9 }
    );
    assert!(recorder.visited.is_empty());
}

#[test]
fn for_each_parent_visits_ancestors() {
    let tree = example_tree();
    let mut recorder = Recorder::new();
    tree.for_each_parent(3, &mut recorder).unwrap();
    let expected: Vec<(String, usize)> = vec![("A2".to_string(), 2), ("A".to_string(), 0)];
    assert_eq!(recorder.visited, expected);
}

#[test]
fn for_each_parent_saturates_at_root_level() {
    let tree = FlatTree::new(vec!["R1".to_string(), "R2".to_string()], TwoRootsChildren);
    let mut recorder = Recorder::new();
    tree.for_each_parent(2, &mut recorder).unwrap();
    // the expected level saturates at 0, so every earlier root is visited too
    let expected: Vec<(String, usize)> = vec![("R2".to_string(), 1), ("R1".to_string(), 0)];
    assert_eq!(recorder.visited, expected);
}

#[test]
fn for_each_parent_out_of_range() {
    let tree = example_tree();
    let mut recorder = Recorder::new();
    assert_eq!(
        tree.for_each_parent(7, &mut recorder).unwrap_err(),
        FlatTreeError::NodeWithSpecifiedIndexIsMissing { index: 7 }
    );
    assert!(recorder.visited.is_empty());
}

#[test]
fn subtree_extraction_with_level_overwrite() {
    let tree = example_tree();
    let sub = tree.get_sub_tree_by_parent_index(2, Some(0)).unwrap();
    assert_eq!(sub.len(), 2);
    assert_node(&sub[0], "A2", 0, true, 3);
    assert_node(&sub[1], "A2x", 1, false, 3);
}

#[test]
fn subtree_extraction_without_overwrite() {
    let tree = example_tree();
    let sub = tree.get_sub_tree_by_parent_index(0, None).unwrap();
    assert_eq!(sub.len(), 4);
    assert_node(&sub[0], "A", 0, true, 3);
    assert_node(&sub[1], "A1", 1, false, 1);
    assert_node(&sub[2], "A2", 1, true, 3);
    assert_node(&sub[3], "A2x", 2, false, 3);
}

#[test]
fn subtree_extraction_out_of_range() {
    let tree = example_tree();
    assert_eq!(
        tree.get_sub_tree_by_parent_index(5, None).unwrap_err(),
        FlatTreeError::NodeWithSpecifiedIndexIsMissing { index: 5 }
    );
}

#[test]
fn replace_payload_isolation() {
    let mut tree = example_tree();
    tree.replace_payload(1, "A1-renamed".to_string()).unwrap();
    let nodes = tree.get_nodes();
    assert_node(&nodes[0], "A", 0, true, 3);
    assert_node(&nodes[1], "A1-renamed", 1, false, 1);
    assert_node(&nodes[2], "A2", 1, true, 3);
    assert_node(&nodes[3], "A2x", 2, false, 3);
    assert_node(&nodes[4], "B", 0, false, 4);
}

#[test]
fn replace_payload_out_of_range() {
    let mut tree = example_tree();
    assert_eq!(
        tree.replace_payload(5, "X".to_string()).unwrap_err(),
        FlatTreeError::NodeWithSpecifiedIndexIsMissing { index: 5 }
    );
    assert_eq!(tree.get_nodes().len(), 5);
}

#[test]
fn delete_keeps_last_node_of_range() {
    let mut tree = example_tree();
    // the removed range is half-open, so A2x (the last node of A2's
    // subtree) stays while A2 goes
    tree.delete(2).unwrap();
    let nodes = tree.get_nodes();
    assert_eq!(nodes.len(), 4);
    assert_node(&nodes[0], "A", 0, true, 2);
    assert_node(&nodes[1], "A1", 1, false, 2);
    assert_node(&nodes[2], "A2x", 2, false, 2);
    assert_node(&nodes[3], "B", 0, false, 3);
}

#[test]
fn delete_leaf_removes_nothing() {
    let mut tree = example_tree();
    tree.delete(1).unwrap();
    let nodes = tree.get_nodes();
    assert_eq!(nodes.len(), 5);
    assert_node(&nodes[1], "A1", 1, false, 1);
}

#[test]
fn delete_out_of_range() {
    let mut tree = example_tree();
    assert_eq!(
        tree.delete(5).unwrap_err(),
        FlatTreeError::NodeWithSpecifiedIndexIsMissing { index: 5 }
    );
    assert_eq!(tree.get_nodes().len(), 5);
}

#[test]
fn expander_produces_pre_order() {
    let raw = get_sorted_raw_nodes_from_payloads(
        vec!["A".to_string(), "B".to_string()],
        ExampleChildren,
    );
    let payloads: Vec<String> = raw.iter().map(|node| node.payload.clone()).collect();
    assert_eq!(payloads, vec!["A", "A1", "A2", "A2x", "B"]);
    let levels: Vec<usize> = raw.iter().map(|node| node.level).collect();
    assert_eq!(levels, vec![0, 1, 1, 2, 0]);
    let marks: Vec<bool> = raw.iter().map(|node| node.has_children).collect();
    assert_eq!(marks, vec![true, false, true, false, false]);
}

#[test]
fn resolver_annotates_last_descendants() {
    let raw = vec![
        RawTreeNode::new("A".to_string(), 0, true),
        RawTreeNode::new("A1".to_string(), 1, false),
        RawTreeNode::new("A2".to_string(), 1, true),
        RawTreeNode::new("A2x".to_string(), 2, false),
        RawTreeNode::new("B".to_string(), 0, false),
    ];
    let nodes = get_nodes_from_sorted_raw_nodes(raw);
    let ends: Vec<usize> = nodes.iter().map(|node| node.last_child_index).collect();
    assert_eq!(ends, vec![3, 1, 3, 3, 4]);
}

#[test]
fn payload_with_level_builder() {
    let item = PayloadWithLevel::new("X".to_string());
    assert_eq!(item.payload, "X");
    assert_eq!(item.level, 0);
    let deeper = item.with_level(4);
    assert_eq!(deeper.payload, "X");
    assert_eq!(deeper.level, 4);
}

#[test]
fn raw_tree_node_builder() {
    let raw = RawTreeNode::new(7u32, 2, true);
    assert_eq!(raw.payload, 7);
    assert_eq!(raw.level, 2);
    assert!(raw.has_children);
}

#[test]
fn tree_node_builder_and_get_raw() {
    let node = TreeNode::new(9u32, 1, false, 5);
    assert_eq!(node.payload, 9);
    assert_eq!(node.level, 1);
    assert!(!node.has_children);
    assert_eq!(node.last_child_index, 5);
    let raw = node.get_raw();
    assert_eq!(raw.payload, 9);
    assert_eq!(raw.level, 1);
    assert!(!raw.has_children);
}

#[test]
fn usize_unary_operations_saturate() {
    assert_eq!(3usize.increment(), 4);
    assert_eq!(usize::MAX.increment(), usize::MAX);
    assert_eq!(3usize.decrement(), 2);
    assert_eq!(0usize.decrement(), 0);
    let mut value: usize = 0;
    value.increment_mut();
    assert_eq!(value, 1);
    value.decrement_mut();
    value.decrement_mut();
    assert_eq!(value, 0);
}
