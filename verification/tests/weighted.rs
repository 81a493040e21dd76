use graph_node::builders::{DirectedGraphBuilder, UndirectedGraphBuilder};
use graph_node::edge::Edges;
use graph_node::graph::Graph;
use graph_node::node::Node;
use graph_node::types::weighted_graph::Weighted;
use graph_node::types::{Directed, Undirected};

#[derive(Clone)]
struct UndirectedTestModel {
    city_name: String,
    connected_cities: Vec<(String, f64)>,
}

impl UndirectedTestModel {
    pub fn new(city_name: String, connected_cities: Vec<(String, f64)>) -> UndirectedTestModel {
        UndirectedTestModel { city_name, connected_cities }
    }
}

impl UndirectedGraphBuilder for UndirectedTestModel {
    fn build_neighbour_keys(&self) -> Vec<String> {
        self.connected_cities.clone().into_iter().map(|city| city.0).collect()
    }
    fn build_node_key(&self) -> String {
        self.city_name.clone()
    }
}

impl Weighted<Undirected, UndirectedTestModel> for Graph<Undirected, UndirectedTestModel> {
    fn build_edge(
        &self,
        node: Node<Undirected, UndirectedTestModel>,
        other_node_key: String,
    ) -> (String, (String, u64)) {
        match node.data.connected_cities.into_iter().find(|city| city.0 == other_node_key) {
            Some(connection) => (node.key, (other_node_key, connection.1 as u64)),
            None => (node.key, (other_node_key, 0)),
        }
    }
}

#[derive(Clone)]
struct Step {
    name: String,
    next: Vec<String>,
}

impl DirectedGraphBuilder for Step {
    fn build_child_key(&self) -> Vec<String> {
        self.next.clone()
    }
    fn build_node_key(&self) -> String {
        self.name.clone()
    }
    fn build_parent_key(&self) -> Vec<String> {
        Vec::new()
    }
}

impl Weighted<Directed, Step> for Graph<Directed, Step> {}

fn s(text: &str) -> String {
    text.to_string()
}

fn undirected_test_collection() -> Vec<UndirectedTestModel> {
    vec![
        UndirectedTestModel::new(s("Paris"), vec![(s("Berlin"), 1054.3), (s("Brest"), 591.2)]),
        UndirectedTestModel::new(s("Berlin"), vec![(s("Paris"), 1054.3), (s("Roma"), 1502.1)]),
        UndirectedTestModel::new(s("Brest"), vec![(s("Paris"), 591.2)]),
        UndirectedTestModel::new(s("Roma"), vec![(s("Berlin"), 1502.1)]),
    ]
}

#[test]
fn basic_undirected_graph() {
    let data = undirected_test_collection();
    let mut graph = Graph::<Undirected, UndirectedTestModel>::new(data);
    graph.build_edges();
    assert_eq!(graph.nodes.len(), 4, "should have nodes");
    assert_eq!(graph.edges.targets(&s("Paris")).len(), 2, "first node should have 2 connection");
    let node = graph.nodes[0].clone();
    assert_eq!(node.data.city_name, "Paris", "data is accessible");
}

#[test]
fn edge_weight_is_the_weight_given() {
    let mut graph = Graph::<Undirected, UndirectedTestModel>::new(undirected_test_collection());
    assert_eq!(graph.get_edge_weight(s("Paris"), s("Berlin")), None);
    graph.build_edges();
    assert_eq!(graph.get_edge_weight(s("Paris"), s("Berlin")), Some(1054));
    assert_eq!(graph.get_edge_weight(s("Berlin"), s("Paris")), Some(1054));
    assert_eq!(graph.get_edge_weight(s("Roma"), s("Berlin")), Some(1502));
    assert_eq!(graph.get_edge_weight(s("Paris"), s("Roma")), None);
    assert_eq!(graph.get_edge_weight(s("Praha"), s("Paris")), None);
}

#[test]
fn edges_can_be_built_again() {
    let mut graph = Graph::<Undirected, UndirectedTestModel>::new(undirected_test_collection());
    graph.build_edges();
    graph.build_edges();
    assert_eq!(graph.edges.len(), 4);
    assert_eq!(graph.edges.targets(&s("Paris")).len(), 2);
    assert_eq!(graph.edges.targets(&s("Berlin")), vec![(s("Paris"), 1054), (s("Roma"), 1502)]);
}

#[test]
fn links_weigh_one_where_nothing_else_is_said() {
    let data = vec![
        Step { name: s("a"), next: vec![s("b"), s("c")] },
        Step { name: s("b"), next: vec![s("c")] },
        Step { name: s("c"), next: vec![] },
    ];
    let mut graph = Graph::<Directed, Step>::new(data);
    graph.build_edges();
    assert_eq!(graph.get_edge_weight(s("a"), s("b")), Some(1));
    assert_eq!(graph.get_edge_weight(s("a"), s("c")), Some(1));
    assert_eq!(graph.get_edge_weight(s("b"), s("c")), Some(1));
    assert_eq!(graph.get_edge_weight(s("b"), s("a")), None);
    assert_eq!(graph.get_edge_weight(s("c"), s("a")), None);
    assert_eq!(graph.edges.len(), 2);
}

#[test]
fn index_overwrites_and_keeps_order() {
    let mut edges = Edges::new();
    assert!(edges.is_empty());
    edges.insert(s("a"), s("b"), 3);
    edges.insert(s("a"), s("c"), 4);
    edges.insert(s("b"), s("a"), 5);
    edges.insert(s("a"), s("b"), 7);
    assert_eq!(edges.len(), 2);
    assert!(!edges.is_empty());
    assert_eq!(edges.weight(&s("a"), &s("b")), Some(7));
    assert_eq!(edges.weight(&s("a"), &s("c")), Some(4));
    assert_eq!(edges.weight(&s("b"), &s("a")), Some(5));
    assert_eq!(edges.weight(&s("b"), &s("c")), None);
    assert_eq!(edges.weight(&s("c"), &s("a")), None);
    assert_eq!(edges.targets(&s("a")), vec![(s("b"), 7), (s("c"), 4)]);
    assert_eq!(edges.targets(&s("c")).len(), 0);
    edges.insert_all(vec![(s("c"), (s("a"), 1)), (s("c"), (s("a"), 2))]);
    assert_eq!(edges.weight(&s("c"), &s("a")), Some(2));
}
