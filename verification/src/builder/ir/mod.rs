//! Intermediate representations shared by the pipeline stages.

pub mod common;
pub mod shape;
pub mod unigraph;
