pub mod config;
pub mod dep;
pub mod doc;
pub mod error;
pub mod graph;
pub mod project;
pub mod render;
pub mod resolve;
pub mod sort;
pub mod util;
