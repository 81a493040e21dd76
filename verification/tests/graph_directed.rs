use graph_node::builders::DirectedGraphBuilder;
use graph_node::construction::duplicate_keys;
use graph_node::graph::Graph;
use graph_node::node::Node;
use graph_node::types::Directed;

#[derive(Clone)]
struct TestModel {
    name: String,
    children: Vec<String>,
    parents: Vec<String>,
}

impl TestModel {
    pub fn new(name: String, children: Vec<String>, parents: Vec<String>) -> TestModel {
        TestModel { name, children, parents }
    }
}

impl DirectedGraphBuilder for TestModel {
    fn build_child_key(&self) -> Vec<String> {
        self.children.clone()
    }
    fn build_node_key(&self) -> String {
        self.name.clone()
    }
    fn build_parent_key(&self) -> Vec<String> {
        self.parents.clone()
    }
}

fn s(text: &str) -> String {
    text.to_string()
}

fn test_collection() -> Vec<TestModel> {
    vec![
        TestModel::new(s("name1"), vec![s("name2"), s("name3")], vec![]),
        TestModel::new(s("name2"), vec![s("name3")], vec![s("name1")]),
        TestModel::new(s("name3"), vec![s("name4")], vec![s("name2"), s("name1")]),
        TestModel::new(s("name4"), vec![], vec![s("name3")]),
    ]
}

fn test_collection_with_duplicated_key() -> Vec<TestModel> {
    vec![
        TestModel::new(s("name1"), vec![s("name2"), s("name3")], vec![]),
        TestModel::new(s("name1"), vec![s("name3")], vec![]),
    ]
}

fn test_collection_without_parent_key() -> Vec<TestModel> {
    vec![
        TestModel::new(s("name1"), vec![s("name2"), s("name3")], vec![]),
        TestModel::new(s("name2"), vec![s("name3")], vec![]),
        TestModel::new(s("name3"), vec![s("name4")], vec![]),
        TestModel::new(s("name4"), vec![], vec![]),
    ]
}

fn test_collection_without_child_key() -> Vec<TestModel> {
    vec![
        TestModel::new(s("name1"), vec![], vec![]),
        TestModel::new(s("name2"), vec![], vec![s("name1")]),
        TestModel::new(s("name3"), vec![], vec![s("name2"), s("name1")]),
        TestModel::new(s("name4"), vec![], vec![s("name3")]),
    ]
}

fn test_collection_with_circular_references_without_root_nodes() -> Vec<TestModel> {
    vec![
        TestModel::new(s("name1"), vec![s("name2"), s("name3")], vec![]),
        TestModel::new(s("name2"), vec![s("name3")], vec![]),
        TestModel::new(s("name3"), vec![s("name4")], vec![]),
        TestModel::new(s("name4"), vec![s("name1")], vec![]),
    ]
}

fn test_collection_with_circular_references_with_root_nodes() -> Vec<TestModel> {
    vec![
        TestModel::new(s("name1"), vec![s("name2"), s("name3")], vec![]),
        TestModel::new(s("name2"), vec![s("name3")], vec![]),
        TestModel::new(s("name3"), vec![s("name4")], vec![]),
        TestModel::new(s("name4"), vec![s("name2")], vec![]),
    ]
}

fn keys(nodes: &Vec<&Node<Directed, TestModel>>) -> Vec<String> {
    nodes.iter().map(|node| node.key.clone()).collect()
}

#[test]
fn basic_graph() {
    let data = test_collection();
    let graph = Graph::<Directed, TestModel>::new(data);
    assert_eq!(graph.nodes.len(), 4, "should have nodes");
    assert_eq!(graph.get_root_nodes().len(), 1, "should have root nodes");
    assert_eq!(graph.get_leaf_nodes().len(), 1, "should have leaf nodes");
    let root_node = graph.get_root_nodes()[0].clone();
    assert_eq!(graph.get_child_nodes(&root_node).len(), 2, "root node should have children");
    let leaf_node = graph.get_leaf_nodes()[0].clone();
    assert_eq!(graph.get_parent_nodes(&leaf_node).len(), 1, "leaf node should have parents");
    let node = graph.nodes[0].clone();
    assert_eq!(node.data.name, "name1", "data is accessible");
}

#[test]
fn duplicated_nodes() {
    let data = test_collection_with_duplicated_key();
    let graph = Graph::<Directed, TestModel>::new(data);
    assert_eq!(graph.nodes.len(), 1, "should have only one nodes");
}

#[test]
fn without_parents() {
    let data = test_collection_without_parent_key();
    let graph = Graph::<Directed, TestModel>::new(data);
    let data2 = test_collection();
    let graph2 = Graph::<Directed, TestModel>::new(data2);
    assert_eq!(graph.nodes.len(), graph2.nodes.len(), "should have same number of nodes");
    assert_eq!(
        graph.get_leaf_nodes().len(),
        graph2.get_leaf_nodes().len(),
        "should have same number of leaf nodes"
    );
    assert_eq!(
        graph.get_root_nodes().len(),
        graph2.get_root_nodes().len(),
        "should have same number of root nodes"
    );
}

#[test]
fn without_children() {
    let data = test_collection_without_child_key();
    let graph = Graph::<Directed, TestModel>::new(data);
    let data2 = test_collection();
    let graph2 = Graph::<Directed, TestModel>::new(data2);
    assert_eq!(graph.nodes.len(), graph2.nodes.len(), "should have same number of nodes");
    assert_eq!(
        graph.get_leaf_nodes().len(),
        graph2.get_leaf_nodes().len(),
        "should have same number of leaf nodes"
    );
    assert_eq!(
        graph.get_root_nodes().len(),
        graph2.get_root_nodes().len(),
        "should have same number of root nodes"
    );
}

#[test]
fn circular_references() {
    let data_without_root_nodes = test_collection_with_circular_references_without_root_nodes();
    let data_with_root_nodes = test_collection_with_circular_references_with_root_nodes();
    let graph_without_root_nodes = Graph::<Directed, TestModel>::new(data_without_root_nodes);
    let graph_with_root_nodes = Graph::<Directed, TestModel>::new(data_with_root_nodes);
    assert_eq!(graph_without_root_nodes.nodes.len(), 4, "graph_without_root_nodes should have nodes");
    assert_eq!(graph_with_root_nodes.nodes.len(), 4, "graph_with_root_nodes should have nodes");
    assert_eq!(
        graph_without_root_nodes.has_circular_ref, true,
        "should have circular refs without root nodes"
    );
    assert_eq!(
        graph_without_root_nodes.get_circular_nodes().len(),
        0,
        "should not have circular nodes without root nodes"
    );
    assert_eq!(
        graph_with_root_nodes.has_circular_ref, true,
        "should have circular refs with root nodes"
    );
    assert_eq!(
        graph_with_root_nodes.get_circular_nodes().len(),
        2,
        "should have circular nodes with root nodes"
    );
}

#[test]
fn circular_nodes_are_those_that_close_a_cycle() {
    let graph =
        Graph::<Directed, TestModel>::new(test_collection_with_circular_references_with_root_nodes());
    assert_eq!(keys(&graph.get_circular_nodes()), vec![s("name2"), s("name3")]);
}

#[test]
fn graph_without_cycle_is_not_circular() {
    let graph = Graph::<Directed, TestModel>::new(test_collection());
    assert!(!graph.has_circular_ref);
    assert_eq!(graph.get_circular_nodes().len(), 0);
}

#[test]
fn empty_graph_is_not_circular() {
    let graph = Graph::<Directed, TestModel>::new(vec![]);
    assert_eq!(graph.nodes.len(), 0);
    assert!(!graph.has_circular_ref);
    assert_eq!(graph.get_root_nodes().len(), 0);
}

#[test]
fn node_that_is_its_own_child_closes_a_cycle() {
    let data = vec![TestModel::new(s("b"), vec![], vec![s("b")])];
    let graph = Graph::<Directed, TestModel>::new(data);
    assert_eq!(graph.nodes[0].get_child_keys(), vec![s("b")]);
    assert_eq!(keys(&graph.get_root_nodes()), vec![s("b")]);
    assert!(graph.has_circular_ref);
    assert_eq!(keys(&graph.get_circular_nodes()), vec![s("b")]);
}

#[test]
fn node_that_declares_itself_a_child_becomes_its_own_parent() {
    let data = vec![
        TestModel::new(s("a"), vec![s("b")], vec![]),
        TestModel::new(s("b"), vec![s("b")], vec![]),
    ];
    let graph = Graph::<Directed, TestModel>::new(data);
    assert_eq!(graph.nodes[1].get_parent_keys(), vec![s("b"), s("a")]);
    assert_eq!(graph.nodes[1].get_child_keys().len(), 0);
    assert!(!graph.has_circular_ref);
}

#[test]
fn first_record_of_a_key_is_kept() {
    let data = vec![
        TestModel::new(s("a"), vec![s("b")], vec![]),
        TestModel::new(s("b"), vec![], vec![]),
        TestModel::new(s("a"), vec![s("c")], vec![]),
        TestModel::new(s("c"), vec![], vec![]),
    ];
    let graph = Graph::<Directed, TestModel>::new(data);
    assert_eq!(graph.nodes.len(), 3);
    let order: Vec<String> = graph.nodes.iter().map(|node| node.key.clone()).collect();
    assert_eq!(order, vec![s("a"), s("b"), s("c")]);
    assert_eq!(graph.nodes[0].data.children, vec![s("b")]);
    assert_eq!(graph.nodes[0].get_child_keys(), vec![s("b")]);
}

#[test]
fn declared_child_gets_its_parent() {
    let data = vec![
        TestModel::new(s("b"), vec![s("a")], vec![]),
        TestModel::new(s("a"), vec![], vec![]),
    ];
    let graph = Graph::<Directed, TestModel>::new(data);
    let a = graph.get_node_by_key(s("a")).unwrap();
    assert_eq!(a.get_parent_keys(), vec![s("b")]);
    assert!(a.has_parents());
    let b = graph.get_node_by_key(s("b")).unwrap();
    assert_eq!(b.get_child_keys(), vec![s("a")]);
    assert!(!b.has_parents());
}

#[test]
fn declared_parent_gets_its_child() {
    let data = vec![
        TestModel::new(s("a"), vec![], vec![s("b")]),
        TestModel::new(s("b"), vec![], vec![]),
    ];
    let graph = Graph::<Directed, TestModel>::new(data);
    let b = graph.get_node_by_key(s("b")).unwrap();
    assert_eq!(b.get_child_keys(), vec![s("a")]);
}

#[test]
fn rebuilding_gives_the_same_graph() {
    let first = Graph::<Directed, TestModel>::new(test_collection());
    let second = Graph::<Directed, TestModel>::new(test_collection());
    assert_eq!(first.nodes.len(), second.nodes.len());
    for i in 0..first.nodes.len() {
        assert_eq!(first.nodes[i].key, second.nodes[i].key);
        assert_eq!(first.nodes[i].get_parent_keys(), second.nodes[i].get_parent_keys());
        assert_eq!(first.nodes[i].get_child_keys(), second.nodes[i].get_child_keys());
        assert_eq!(first.nodes[i].is_in_circular_ref, second.nodes[i].is_in_circular_ref);
    }
    assert_eq!(first.has_circular_ref, second.has_circular_ref);
}

#[test]
fn siblings_share_a_parent() {
    let graph = Graph::<Directed, TestModel>::new(test_collection());
    let name2 = graph.get_node_by_key(s("name2")).unwrap();
    assert_eq!(keys(&graph.get_sibling_nodes(name2)), vec![s("name3")]);
    let name4 = graph.get_node_by_key(s("name4")).unwrap();
    assert_eq!(graph.get_sibling_nodes(name4).len(), 0);
}

#[test]
fn missing_key_gives_no_node() {
    let graph = Graph::<Directed, TestModel>::new(test_collection());
    assert!(graph.get_node_by_key(s("nowhere")).is_none());
}

#[test]
fn nodes_can_be_added_updated_and_deleted() {
    let mut graph = Graph::<Directed, TestModel>::new(test_collection());
    let extra = Node::<Directed, TestModel>::new(TestModel::new(s("name5"), vec![], vec![]));
    graph.add_node(extra);
    assert_eq!(graph.nodes.len(), 5);
    let other = Node::<Directed, TestModel>::new(TestModel::new(s("name6"), vec![], vec![]));
    graph.update_node_by_key(s("name2"), other);
    assert_eq!(graph.nodes[1].key, "name6");
    graph.update_node_by_key(s("nowhere"), Node::<Directed, TestModel>::new(TestModel::new(s("x"), vec![], vec![])));
    assert_eq!(graph.nodes.len(), 5);
    graph.delete_node_by_key(s("name1"));
    assert_eq!(graph.nodes.len(), 4);
    assert_eq!(graph.nodes[0].key, "name5");
    graph.delete_node_by_key(s("nowhere"));
    assert_eq!(graph.nodes.len(), 4);
}

#[test]
fn graph_from_nodes_made_by_hand() {
    let nodes = vec![
        Node::<Directed, TestModel>::with_keys(
            TestModel::new(s("x"), vec![], vec![]),
            s("a"),
            vec![],
            vec![s("b")],
        ),
        Node::<Directed, TestModel>::with_keys(
            TestModel::new(s("y"), vec![], vec![]),
            s("b"),
            vec![],
            vec![],
        ),
    ];
    let graph = Graph::<Directed, TestModel>::from_nodes(nodes);
    assert_eq!(keys(&graph.get_root_nodes()), vec![s("a")]);
    assert_eq!(keys(&graph.get_leaf_nodes()), vec![s("b")]);
    assert_eq!(graph.nodes[1].get_parent_keys(), vec![s("a")]);
}

#[test]
fn duplicate_keys_are_listed_in_order() {
    let records = vec![
        TestModel::new(s("name1"), vec![], vec![]),
        TestModel::new(s("name2"), vec![], vec![]),
        TestModel::new(s("name1"), vec![], vec![]),
        TestModel::new(s("name3"), vec![], vec![]),
        TestModel::new(s("name2"), vec![], vec![]),
        TestModel::new(s("name1"), vec![], vec![]),
    ];
    let nodes: Vec<Node<Directed, TestModel>> = records.into_iter().map(Node::<Directed, TestModel>::new).collect();
    assert_eq!(duplicate_keys(&nodes), vec![s("name1"), s("name2"), s("name1")]);
    let graph = Graph::<Directed, TestModel>::from_nodes(nodes);
    assert_eq!(keys(&graph.nodes.iter().collect()), vec![s("name1"), s("name2"), s("name3")]);
}

#[test]
fn input_without_repeated_key_has_no_duplicate() {
    let nodes: Vec<Node<Directed, TestModel>> =
        test_collection().into_iter().map(Node::<Directed, TestModel>::new).collect();
    assert_eq!(duplicate_keys(&nodes), Vec::<String>::new());
}

#[test]
fn graph_without_root_is_told_apart() {
    let rootless =
        Graph::<Directed, TestModel>::new(test_collection_with_circular_references_without_root_nodes());
    assert!(rootless.has_no_root());
    assert!(rootless.has_circular_ref);
    let rooted =
        Graph::<Directed, TestModel>::new(test_collection_with_circular_references_with_root_nodes());
    assert!(!rooted.has_no_root());
    let empty = Graph::<Directed, TestModel>::new(vec![]);
    assert!(!empty.has_no_root());
}

#[test]
fn children_alone_give_the_roots_and_leaves_of_both_declarations() {
    let both = Graph::<Directed, TestModel>::new(test_collection());
    let children_only = Graph::<Directed, TestModel>::new(test_collection_without_parent_key());
    assert_eq!(children_only.nodes.len(), both.nodes.len());
    assert_eq!(keys(&children_only.get_root_nodes()), keys(&both.get_root_nodes()));
    assert_eq!(keys(&children_only.get_leaf_nodes()), keys(&both.get_leaf_nodes()));
    assert_eq!(keys(&both.get_root_nodes()), vec![s("name1")]);
    assert_eq!(keys(&both.get_leaf_nodes()), vec![s("name4")]);
    for (one, other) in children_only.nodes.iter().zip(both.nodes.iter()) {
        let mut parents = one.get_parent_keys();
        let mut expected = other.get_parent_keys();
        parents.sort();
        expected.sort();
        assert_eq!(parents, expected);
    }
}

#[test]
fn cycle_reached_from_a_root_is_marked_where_the_walk_meets_it() {
    let graph = Graph::<Directed, TestModel>::new(vec![
        TestModel::new(s("root"), vec![s("a")], vec![]),
        TestModel::new(s("a"), vec![s("b")], vec![]),
        TestModel::new(s("b"), vec![s("c")], vec![]),
        TestModel::new(s("c"), vec![s("a")], vec![]),
    ]);
    assert!(graph.has_circular_ref);
    assert_eq!(keys(&graph.get_circular_nodes()), vec![s("a")]);
}
