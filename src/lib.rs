//! A small line-oriented text search: a resolver that turns command-line
//! arguments into a search configuration, and a search engine that picks the
//! lines of a text that contain a query.

pub mod search;
pub mod config;

pub use config::{Argument, Config, ConfigError, find_matches};
pub use search::{contains_text, search, search_case_insensitive, split_lines};
