pub mod building;
pub mod cycles;
pub mod edges;
pub mod links;
pub mod routes;
