pub mod bidirectional;
pub mod community;
pub mod cores;
pub mod dijkstra;
pub mod events;
pub mod kruskal;
pub mod links;
pub mod paths;
pub mod projection;
pub mod shortest;
pub mod signed;
pub mod steiner;
pub mod terminal_tree;
pub mod structure;
pub mod reach;
pub mod rounds;
pub mod routes;
pub mod traversal;
pub mod undirected_rows;
pub mod walk;

pub use reach::Direction;
