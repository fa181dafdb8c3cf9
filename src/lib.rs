pub mod chain;
pub mod graph;
pub mod interval;
pub mod selection;

pub use graph::{build_graph, Graph};
pub use interval::{Interval, Relation};
pub use selection::{decode_mask, encode_mask, remove_overlapping};
