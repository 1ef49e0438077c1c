//! Verified layout core of a Mermaid diagram renderer: graph layering,
//! crossing reduction and the small classification rules of the layout and
//! rendering pipeline.

pub mod ast;
pub mod builder;
