//! Inference against endpoints that users bring themselves.

pub mod auto_context;
pub mod circuit;
pub mod completion;
pub mod durations;
pub mod endpoint;
pub mod json;
pub mod json_grammar;
pub mod lists;
pub mod local_search;
pub mod next_command;
pub mod startup;
pub mod text;
pub mod words;
