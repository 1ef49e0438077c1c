//! From a parsed diagram to what is drawn: layout, materialisation, rendering.

pub mod ir;
pub mod layout;
pub mod materialize;
pub mod render;
pub mod sequence;
pub mod state;
pub mod timeline;
