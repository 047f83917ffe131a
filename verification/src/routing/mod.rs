pub mod astar;
pub mod graph;
pub mod paths;
