//! The tree-construction side: the sink that turns builder events into DOM edits.
pub mod parser;
