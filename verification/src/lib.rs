//! Directory trees as text: classification of entries, ordering of
//! listings, tree drawing, and the state of the interactive view.

pub mod classify;
pub mod cli;
pub mod entry;
pub mod flatten;
pub mod hiding;
pub mod indent;
pub mod paint;
pub mod reading;
pub mod render;
pub mod scan;
pub mod session;
pub mod text;
pub mod tree;
