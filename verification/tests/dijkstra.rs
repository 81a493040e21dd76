use graph_node::builders::UndirectedGraphBuilder;
use graph_node::edge::Edges;
use graph_node::graph::Graph;
use graph_node::node::Node;
use graph_node::types::weighted_graph::Weighted;
use graph_node::types::Undirected;
use graph_node::utils::dijkstra::{Dijkstra, Path};

#[derive(Clone)]
struct UndirectedTestModel {
    city_name: String,
    connected_cities: Vec<(String, f64)>,
}

impl UndirectedTestModel {
    pub fn new(city_name: String, connected_cities: Vec<(String, f64)>) -> UndirectedTestModel {
        UndirectedTestModel { city_name, connected_cities }
    }
}

impl UndirectedGraphBuilder for UndirectedTestModel {
    fn build_neighbour_keys(&self) -> Vec<String> {
        self.connected_cities.clone().into_iter().map(|city| city.0).collect()
    }
    fn build_node_key(&self) -> String {
        self.city_name.clone()
    }
}

impl Weighted<Undirected, UndirectedTestModel> for Graph<Undirected, UndirectedTestModel> {
    fn build_edge(
        &self,
        node: Node<Undirected, UndirectedTestModel>,
        other_node_key: String,
    ) -> (String, (String, u64)) {
        match node.data.connected_cities.into_iter().find(|city| city.0 == other_node_key) {
            Some(connection) => (node.key, (other_node_key, connection.1 as u64)),
            None => (node.key, (other_node_key, 0)),
        }
    }
}

fn s(text: &str) -> String {
    text.to_string()
}

fn undirected_test_collection() -> Vec<UndirectedTestModel> {
    let mut collection = Vec::new();
    collection.push(UndirectedTestModel::new(
        s("Paris"),
        vec![(s("Berlin"), 1054.0), (s("Brest"), 591.0), (s("Berne"), 572.0), (s("Bruxelles"), 312.0)],
    ));
    collection.push(UndirectedTestModel::new(
        s("Berlin"),
        vec![(s("Paris"), 1054.0), (s("Roma"), 1502.0)],
    ));
    collection.push(UndirectedTestModel::new(s("Brest"), vec![(s("Paris"), 591.0)]));
    collection.push(UndirectedTestModel::new(
        s("Roma"),
        vec![(s("Berlin"), 1502.0), (s("Berne"), 924.0), (s("Wien"), 1122.0)],
    ));
    collection.push(UndirectedTestModel::new(
        s("Berne"),
        vec![(s("Paris"), 572.0), (s("Wien"), 840.0), (s("Roma"), 924.0)],
    ));
    collection.push(UndirectedTestModel::new(
        s("Wien"),
        vec![(s("Berne"), 840.0), (s("Praha"), 333.0), (s("Roma"), 1122.0)],
    ));
    collection.push(UndirectedTestModel::new(
        s("Bruxelles"),
        vec![(s("Praha"), 897.0), (s("Paris"), 312.0)],
    ));
    collection.push(UndirectedTestModel::new(
        s("Praha"),
        vec![(s("Bruxelles"), 897.0), (s("Wien"), 333.0)],
    ));
    collection
}

fn index(edges: Vec<(&str, &str, u64)>) -> Edges {
    let mut built = Edges::new();
    for (from, to, weight) in edges {
        built.insert(s(from), s(to), weight);
    }
    built
}

#[test]
fn complete_undirected_graph() {
    let data = undirected_test_collection();
    let mut graph = Graph::<Undirected, UndirectedTestModel>::new(data);
    graph.build_edges();
    assert_eq!(graph.nodes.len(), 8, "should have nodes");
    assert_eq!(graph.edges.targets(&s("Paris")).len(), 4, "first node should have 4 connection");
    let node = graph.nodes[0].clone();
    assert_eq!(node.data.city_name, "Paris", "data is accessible");
    let path: Path = Dijkstra::search(graph, "Paris".to_owned(), "Praha".to_owned()).unwrap();
    assert_eq!(path.nodes[0], "Paris", "checking first node of the path");
    assert_eq!(path.nodes[1], "Bruxelles", "checking second node of the path");
    assert_eq!(path.nodes[2], "Praha", "checking last node of the path");
    assert_eq!(path.weight as f64, 1209.0, "checking last node of the path");
}

#[test]
fn path_of_the_complete_graph_has_three_nodes() {
    let mut graph = Graph::<Undirected, UndirectedTestModel>::new(undirected_test_collection());
    graph.build_edges();
    let path = Dijkstra::search(graph, s("Paris"), s("Praha")).unwrap();
    assert_eq!(path.nodes, vec![s("Paris"), s("Bruxelles"), s("Praha")]);
    assert_eq!(path.weight, 1209);
}

#[test]
fn no_path_between_keys_that_are_not_connected() {
    let edges = index(vec![("a", "b", 1), ("c", "d", 1)]);
    assert!(Dijkstra::search_edges(&edges, s("a"), s("d")).is_none());
    assert!(Dijkstra::search_edges(&edges, s("b"), s("a")).is_none());
    assert!(Dijkstra::search_edges(&edges, s("x"), s("a")).is_none());
    assert!(Dijkstra::search_edges(&edges, s("a"), s("x")).is_none());
    assert!(Dijkstra::search_edges(&Edges::new(), s("a"), s("b")).is_none());
}

#[test]
fn no_path_without_edges_built() {
    let graph = Graph::<Undirected, UndirectedTestModel>::new(undirected_test_collection());
    assert!(Dijkstra::search(graph, s("Paris"), s("Praha")).is_none());
}

#[test]
fn path_from_a_key_to_itself_is_that_key() {
    let edges = index(vec![("a", "b", 1), ("b", "a", 1), ("a", "a", 5)]);
    let path = Dijkstra::search_edges(&edges, s("a"), s("a")).unwrap();
    assert_eq!(path.nodes, vec![s("a")]);
    assert_eq!(path.weight, 0);
    let unknown = Dijkstra::search_edges(&Edges::new(), s("z"), s("z")).unwrap();
    assert_eq!(unknown.nodes, vec![s("z")]);
    assert_eq!(unknown.weight, 0);
}

#[test]
fn lightest_path_is_followed_first() {
    let edges = index(vec![
        ("a", "b", 10),
        ("a", "c", 1),
        ("b", "d", 1),
        ("c", "e", 1),
        ("e", "d", 1),
    ]);
    let path = Dijkstra::search_edges(&edges, s("a"), s("d")).unwrap();
    assert_eq!(path.nodes, vec![s("a"), s("c"), s("e"), s("d")]);
    assert_eq!(path.weight, 3);
}

#[test]
fn first_edge_to_the_destination_ends_the_search() {
    let edges = index(vec![("a", "b", 1), ("a", "d", 100), ("b", "d", 1)]);
    let path = Dijkstra::search_edges(&edges, s("a"), s("d")).unwrap();
    assert_eq!(path.nodes, vec![s("a"), s("d")]);
    assert_eq!(path.weight, 100);
}

#[test]
fn search_ends_in_a_graph_with_cycles() {
    let edges = index(vec![("a", "b", 1), ("b", "c", 1), ("c", "a", 1), ("c", "b", 1)]);
    assert!(Dijkstra::search_edges(&edges, s("a"), s("z")).is_none());
    let path = Dijkstra::search_edges(&edges, s("a"), s("c")).unwrap();
    assert_eq!(path.nodes, vec![s("a"), s("b"), s("c")]);
    assert_eq!(path.weight, 2);
}

#[test]
fn weights_add_up_beyond_sixty_four_bits() {
    let edges = index(vec![("a", "b", u64::MAX), ("b", "c", u64::MAX)]);
    let path = Dijkstra::search_edges(&edges, s("a"), s("c")).unwrap();
    assert_eq!(path.weight, 2 * (u64::MAX as u128));
}

#[test]
fn path_goes_on_with_a_key() {
    let path = Path { nodes: vec![s("a")], weight: 2 };
    let longer = path.new_path_with(&s("b"), 5);
    assert_eq!(longer.nodes, vec![s("a"), s("b")]);
    assert_eq!(longer.weight, 7);
    let copy = longer.clone();
    assert_eq!(copy.nodes, longer.nodes);
    assert_eq!(copy.weight, 7);
}
