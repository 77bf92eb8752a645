//! Documents: texts with what is known of where they come from, and the
//! splitting of long texts into pieces of bounded length.

pub mod loader;
pub mod splitter;
