use graph_node::builders::UndirectedGraphBuilder;
use graph_node::graph::Graph;
use graph_node::node::Node;
use graph_node::types::Undirected;

#[derive(Clone)]
struct TestModel {
    name: String,
    friends: Vec<String>,
}

impl TestModel {
    pub fn new(name: String, friends: Vec<String>) -> TestModel {
        TestModel { name, friends }
    }
}

impl UndirectedGraphBuilder for TestModel {
    fn build_neighbour_keys(&self) -> Vec<String> {
        self.friends.clone()
    }
    fn build_node_key(&self) -> String {
        self.name.clone()
    }
}

fn s(text: &str) -> String {
    text.to_string()
}

fn model(name: &str, friends: Vec<&str>) -> TestModel {
    TestModel::new(s(name), friends.into_iter().map(s).collect())
}

fn test_collection() -> Vec<TestModel> {
    vec![
        TestModel::new(s("name1"), vec![s("name2"), s("name3")]),
        TestModel::new(s("name2"), vec![s("name1"), s("name4")]),
        TestModel::new(s("name3"), vec![s("name1")]),
        TestModel::new(s("name4"), vec![s("name2")]),
    ]
}

fn test_collection_with_duplicated_key() -> Vec<TestModel> {
    vec![
        TestModel::new(s("name1"), vec![s("name2"), s("name3")]),
        TestModel::new(s("name1"), vec![s("name3")]),
    ]
}

#[test]
fn undirected_graph_basic_graph() {
    let data = test_collection();
    let graph = Graph::<Undirected, TestModel>::new(data);
    assert_eq!(graph.nodes.len(), 4, "should have nodes");
    let node = graph.nodes[0].clone();
    assert_eq!(node.data.name, "name1", "data is accessible");
}

#[test]
fn undirected_graph_duplicated_nodes() {
    let data = test_collection_with_duplicated_key();
    let graph = Graph::<Undirected, TestModel>::new(data);
    assert_eq!(graph.nodes.len(), 1, "should have only one nodes");
}

#[test]
fn tree_has_no_cycle() {
    let graph = Graph::<Undirected, TestModel>::new(test_collection());
    assert!(!graph.has_circular_ref);
    assert_eq!(graph.get_circular_nodes().len(), 0);
}

#[test]
fn triangle_is_a_cycle() {
    let data = vec![
        model("a", vec!["b", "c"]),
        model("b", vec!["a", "c"]),
        model("c", vec!["a", "b"]),
    ];
    let graph = Graph::<Undirected, TestModel>::new(data);
    assert!(graph.has_circular_ref);
    assert_eq!(graph.get_circular_nodes().len(), 0);
}

#[test]
fn single_link_and_link_to_itself_are_no_cycle() {
    let pair = Graph::<Undirected, TestModel>::new(vec![model("a", vec!["b"]), model("b", vec!["a"])]);
    assert!(!pair.has_circular_ref);
    let alone = Graph::<Undirected, TestModel>::new(vec![model("a", vec!["a"])]);
    assert!(!alone.has_circular_ref);
    let empty = Graph::<Undirected, TestModel>::new(vec![]);
    assert!(!empty.has_circular_ref);
}

#[test]
fn cycle_out_of_reach_of_the_first_node_is_not_seen() {
    let data = vec![
        model("z", vec![]),
        model("a", vec!["b", "c"]),
        model("b", vec!["a", "c"]),
        model("c", vec!["a", "b"]),
    ];
    let graph = Graph::<Undirected, TestModel>::new(data);
    assert!(!graph.has_circular_ref);
}

#[test]
fn neighbours_are_the_linked_nodes() {
    let graph = Graph::<Undirected, TestModel>::new(test_collection());
    let first = graph.get_node_by_key(s("name1")).unwrap();
    let found: Vec<String> =
        graph.get_neighbour_nodes(first).iter().map(|node| node.key.clone()).collect();
    assert_eq!(found, vec![s("name2"), s("name3")]);
}

#[test]
fn undirected_graph_from_nodes() {
    let nodes = vec![
        Node::<Undirected, TestModel>::with_keys(model("x", vec![]), s("a"), vec![s("b")]),
        Node::<Undirected, TestModel>::with_keys(model("y", vec![]), s("a"), vec![s("c")]),
    ];
    let graph = Graph::<Undirected, TestModel>::from_nodes(nodes);
    assert_eq!(graph.nodes.len(), 1);
    assert_eq!(graph.nodes[0].data.name, "x");
    assert_eq!(graph.nodes[0].get_neighbour_keys(), vec![s("b")]);
}
