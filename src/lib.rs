//! Lazy anchor-aware flattening of YAML-style parse events into JSON text.

pub mod json;
pub mod template;
pub mod builder;
pub mod folded;
pub mod eager;

pub use builder::{Editing, EditingError, Event};
pub use folded::{build, Folded, FoldedIter};
pub use json::quote;
pub use template::{Anchor, Hole};
