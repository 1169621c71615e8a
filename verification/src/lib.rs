//! Force-directed graph layout over fixed-point coordinates.
//!
//! Every quantity is a signed fixed-point number with sixteen fractional
//! bits, held in an `i64`. All arithmetic saturates, so a simulation step
//! is total: it never overflows and never divides by zero.

pub mod fixed;
pub mod force;
pub mod geometry;
pub mod graph;
pub mod model;
pub mod node;
pub mod params;
pub mod step;
pub mod vec2;

pub use crate::graph::{EdgeId, ForceGraph};
pub use crate::model::IntersectionInfo;
pub use crate::node::{Body, Node, NodeData, NodeId};
pub use crate::params::Parameters;
pub use crate::vec2::Vec2;
