pub mod dijkstra;
pub mod frontier;
pub mod route;
pub mod search;
