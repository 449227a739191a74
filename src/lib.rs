//! Layered (Sugiyama-style) layout of directed acyclic graphs.
//!
//! The structural phase ([`LayeredLayout::compute_layers`]) assigns nodes to
//! layers and reorders each layer to reduce edge crossings; its result can be
//! cached. The geometric phase ([`LayeredLayout::compute_positions`]) turns
//! the layers and the current node sizes into positions.
//!
//! Beside the engine, [`timeline`] keeps the recorded command history that
//! the laid-out topology comes from, and [`command`] the kinds of component
//! a command can remove.
use vstd::prelude::*;

pub mod geometry;
pub mod graph;
pub mod sizes;
pub mod layers;
pub mod crossings;
pub mod positions;
pub mod layered;
pub mod command;
pub mod timeline;

pub use geometry::{Point, Vec2};
pub use layered::{LayeredLayout, LayeredLayoutError, Layers};
pub use sizes::NodeSizes;
