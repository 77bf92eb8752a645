//! Composable prompt pipelines: templates, text splitting, conversation
//! memory and the decision logic of chained model calls.

pub mod chain;
pub mod client;
pub mod document;
pub mod parser;
pub mod prompt_template;
pub mod schema;
pub mod str_map;
pub mod text;
