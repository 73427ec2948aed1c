//! Hierarchical (layered) drawing of directed acyclic graphs.
//!
//! The layout runs three stages: nodes are grouped into layers by their depth
//! below the sources, each layer is reordered by a barycenter sweep to cut
//! edge crossings, and every node gets a point from its layer and slot.

use vstd::prelude::*;

pub mod graph;
pub mod layering;
pub mod ordering;
pub mod layout;

pub use graph::Digraph;
pub use layering::assign_layers;
pub use layout::{DagreLayout, LayoutOptions, LayoutResult, Point, RankDir};
pub use ordering::order_by_barycenter;
