use graph_node::builders::{DirectedGraphBuilder, UndirectedGraphBuilder};
use graph_node::node::Node;
use graph_node::types::{Directed, Undirected};

#[derive(Clone)]
struct Record {
    name: String,
    children: Vec<String>,
    parents: Vec<String>,
}

impl DirectedGraphBuilder for Record {
    fn build_child_key(&self) -> Vec<String> {
        self.children.clone()
    }
    fn build_node_key(&self) -> String {
        self.name.clone()
    }
    fn build_parent_key(&self) -> Vec<String> {
        self.parents.clone()
    }
}

impl UndirectedGraphBuilder for Record {
    fn build_neighbour_keys(&self) -> Vec<String> {
        self.children.clone()
    }
    fn build_node_key(&self) -> String {
        self.name.clone()
    }
}

fn s(text: &str) -> String {
    text.to_string()
}

fn record(name: &str, children: Vec<&str>, parents: Vec<&str>) -> Record {
    Record {
        name: s(name),
        children: children.into_iter().map(s).collect(),
        parents: parents.into_iter().map(s).collect(),
    }
}

#[test]
fn directed_node_keeps_key_and_links() {
    let node = Node::<Directed, Record>::new(record("a", vec!["c", "d"], vec!["p"]));
    assert_eq!(node.key, "a");
    assert_eq!(node.data.name, "a");
    assert!(!node.is_in_circular_ref);
    assert_eq!(node.get_parent_keys(), vec![s("p")]);
    assert_eq!(node.get_child_keys(), vec![s("c"), s("d")]);
    assert!(node.has_parents());
    assert!(node.has_children());
}

#[test]
fn node_without_links_has_neither_parents_nor_children() {
    let node = Node::<Directed, Record>::new(record("a", vec![], vec![]));
    assert!(!node.has_parents());
    assert!(!node.has_children());
    assert_eq!(node.get_parent_keys().len(), 0);
    assert_eq!(node.get_child_keys().len(), 0);
}

#[test]
fn key_declared_both_ways_is_a_child() {
    let node = Node::<Directed, Record>::new(record("a", vec!["x"], vec!["x", "y"]));
    assert_eq!(node.get_parent_keys(), vec![s("y")]);
    assert_eq!(node.get_child_keys(), vec![s("x")]);
}

#[test]
fn repeated_keys_are_linked_once() {
    let node = Node::<Directed, Record>::new(record("a", vec!["x", "x"], vec!["y", "y"]));
    assert_eq!(node.get_parent_keys(), vec![s("y")]);
    assert_eq!(node.get_child_keys(), vec![s("x")]);
}

#[test]
fn add_parent_and_add_child_overwrite() {
    let mut node = Node::<Directed, Record>::new(record("a", vec!["x"], vec!["y"]));
    node.add_parent(s("x"));
    assert_eq!(node.get_parent_keys(), vec![s("y"), s("x")]);
    assert_eq!(node.get_child_keys().len(), 0);
    assert!(!node.has_children());
    node.add_parent(s("x"));
    assert_eq!(node.get_parent_keys(), vec![s("y"), s("x")]);
    node.add_child(s("y"));
    assert_eq!(node.get_child_keys(), vec![s("y")]);
    assert_eq!(node.get_parent_keys(), vec![s("x")]);
    node.add_child(s("z"));
    assert_eq!(node.get_child_keys(), vec![s("y"), s("z")]);
}

#[test]
fn undirected_node_lists_its_neighbours() {
    let node = Node::<Undirected, Record>::new(record("a", vec!["b", "c", "b"], vec![]));
    assert_eq!(node.key, "a");
    assert_eq!(node.get_neighbour_keys(), vec![s("b"), s("c")]);
}

#[test]
fn copy_of_a_node_has_the_same_links() {
    let node = Node::<Directed, Record>::new(record("a", vec!["x"], vec!["y"]));
    let copy = node.clone();
    assert_eq!(copy.key, "a");
    assert_eq!(copy.get_parent_keys(), vec![s("y")]);
    assert_eq!(copy.get_child_keys(), vec![s("x")]);
    assert_eq!(copy.data.name, "a");
}
