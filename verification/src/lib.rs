pub mod capability;
pub mod point;
mod search;
mod table;

pub use search::astar;

pub use capability::{confined, is_path, lemma_path_implies_reachable, reachable, AStarPoint};
