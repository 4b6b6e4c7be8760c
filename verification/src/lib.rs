//! A line-oriented text search: the lines of a text that hold a query, with
//! or without regard to case.

pub mod config;
pub mod encoding;
pub mod folding;
pub mod lines;
pub mod matching;
pub mod runner;
pub mod search;
pub mod subsequence;

pub use config::Config;
pub use runner::run;
pub use search::{search_strategy_factory, CaseInsensitiveSearch, CaseSensitiveSearch, SearchStrategy};
