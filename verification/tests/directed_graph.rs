use graph_node::builders::DirectedGraphBuilder;
use graph_node::directed_graph::DirectedGraph;

#[derive(Clone)]
struct TestModel {
    name: String,
    children: Vec<String>,
    parents: Vec<String>,
}

impl TestModel {
    pub fn new(name: String, children: Vec<String>, parents: Vec<String>) -> TestModel {
        TestModel { name, children, parents }
    }
}

impl DirectedGraphBuilder for TestModel {
    fn build_child_key(&self) -> Vec<String> {
        self.children.clone()
    }
    fn build_node_key(&self) -> String {
        self.name.clone()
    }
    fn build_parent_key(&self) -> Vec<String> {
        self.parents.clone()
    }
}

fn test_collection() -> Vec<TestModel> {
    vec![
        TestModel::new("name1".to_string(), vec!["name2".to_string(), "name3".to_string()], vec![]),
        TestModel::new("name2".to_string(), vec!["name3".to_string()], vec!["name1".to_string()]),
        TestModel::new(
            "name3".to_string(),
            vec!["name4".to_string()],
            vec!["name2".to_string(), "name1".to_string()],
        ),
        TestModel::new("name4".to_string(), vec![], vec!["name3".to_string()]),
    ]
}

fn test_collection_with_duplicated_key() -> Vec<TestModel> {
    vec![
        TestModel::new("name1".to_string(), vec!["name2".to_string(), "name3".to_string()], vec![]),
        TestModel::new("name1".to_string(), vec!["name3".to_string()], vec![]),
    ]
}

fn test_collection_without_parent_key() -> Vec<TestModel> {
    vec![
        TestModel::new("name1".to_string(), vec!["name2".to_string(), "name3".to_string()], vec![]),
        TestModel::new("name2".to_string(), vec!["name3".to_string()], vec![]),
        TestModel::new("name3".to_string(), vec!["name4".to_string()], vec![]),
        TestModel::new("name4".to_string(), vec![], vec![]),
    ]
}

fn test_collection_without_child_key() -> Vec<TestModel> {
    vec![
        TestModel::new("name1".to_string(), vec![], vec![]),
        TestModel::new("name2".to_string(), vec![], vec!["name1".to_string()]),
        TestModel::new("name3".to_string(), vec![], vec!["name2".to_string(), "name1".to_string()]),
        TestModel::new("name4".to_string(), vec![], vec!["name3".to_string()]),
    ]
}

#[test]
fn directed_graph_basic_graph() {
    let data = test_collection();
    let graph: DirectedGraph<TestModel> = DirectedGraph::new(data);
    assert_eq!(graph.nodes.len(), 4, "should have nodes");
    assert_eq!(graph.get_root_nodes().len(), 1, "should have root nodes");
    assert_eq!(graph.get_leaf_nodes().len(), 1, "should have leaf nodes");
    let root_node = graph.get_root_nodes()[0].clone();
    assert_eq!(graph.get_child_nodes(root_node).len(), 2, "root node should have children");
    let leaf_node = graph.get_leaf_nodes()[0].clone();
    assert_eq!(graph.get_parent_nodes(leaf_node).len(), 1, "leaf node should have parents");
    let node = graph.nodes[0].clone();
    assert_eq!(node.data.name, "name1", "data is accessible");
}

#[test]
fn directed_graph_duplicated_nodes() {
    let data = test_collection_with_duplicated_key();
    let graph: DirectedGraph<TestModel> = DirectedGraph::new(data);
    assert_eq!(graph.nodes.len(), 1, "should have only one nodes");
}

#[test]
fn directed_graph_without_parents() {
    let data = test_collection_without_parent_key();
    let graph: DirectedGraph<TestModel> = DirectedGraph::new(data);
    let data2 = test_collection();
    let graph2: DirectedGraph<TestModel> = DirectedGraph::new(data2);
    assert_eq!(graph.nodes.len(), graph2.nodes.len(), "should have same number of nodes");
    assert_eq!(
        graph.get_leaf_nodes().len(),
        graph2.get_leaf_nodes().len(),
        "should have same number of leaf nodes"
    );
    assert_eq!(
        graph.get_root_nodes().len(),
        graph2.get_root_nodes().len(),
        "should have same number of root nodes"
    );
}

#[test]
fn directed_graph_without_children() {
    let data = test_collection_without_child_key();
    let graph: DirectedGraph<TestModel> = DirectedGraph::new(data);
    let data2 = test_collection();
    let graph2: DirectedGraph<TestModel> = DirectedGraph::new(data2);
    assert_eq!(graph.nodes.len(), graph2.nodes.len(), "should have same number of nodes");
    assert_eq!(
        graph.get_leaf_nodes().len(),
        graph2.get_leaf_nodes().len(),
        "should have same number of leaf nodes"
    );
    assert_eq!(
        graph.get_root_nodes().len(),
        graph2.get_root_nodes().len(),
        "should have same number of root nodes"
    );
}

#[test]
fn basic_tree() {
    let tree: DirectedGraph<TestModel> = DirectedGraph::new(test_collection());
    assert_eq!(tree.nodes.len(), 4, "should have nodes");
    assert_eq!(tree.get_root_nodes().len(), 1, "should have root nodes");
    assert_eq!(tree.get_leaf_nodes().len(), 1, "should have leaf nodes");
    let root_node = tree.get_root_nodes()[0].clone();
    assert_eq!(tree.get_child_nodes(root_node).len(), 2, "root node should have children");
    let leaf_node = tree.get_leaf_nodes()[0].clone();
    assert_eq!(tree.get_parent_nodes(leaf_node).len(), 1, "leaf node should have parents");
    let node = tree.nodes[0].clone();
    assert_eq!(node.data.name, "name1", "data is accessible");
}
