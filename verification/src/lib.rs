pub mod graph;
pub mod types;
pub mod detector;
pub mod ranker;
pub mod loader;
pub mod scc;
