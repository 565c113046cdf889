//! A directed graph whose vertices and edges carry values, with a
//! breadth-first walk and a line-oriented text format.

pub mod digraph;
pub mod laws;
pub mod round_trip;
pub mod text;
pub mod tgf;

pub use digraph::{Graph, OrientedEdge, VertexId};
pub use text::TextValue;
pub use tgf::TgfError;
