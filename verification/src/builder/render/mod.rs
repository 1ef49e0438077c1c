//! Renderers by diagram family.

pub mod directed;
pub mod er;
pub mod gitgraph;

use vstd::prelude::*;

verus! {

/// Renderer of the grid family (class, ER).
pub struct GridRenderer;

/// Renderer of the linear family (sequence, timeline).
pub struct LinearRenderer;

/// Renderer of the simple family (pie, git graph).
pub struct SimpleRenderer;

} // verus!
