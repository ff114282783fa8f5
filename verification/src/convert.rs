//! The two ways from a document to chunks of text with their position
//! maps, and the position map itself, under one roof.

pub use crate::layout::document;
pub use crate::mapping::Mapping;
pub use crate::walker::convert;
