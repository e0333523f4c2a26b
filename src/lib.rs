//! Finds the lines of a text that contain a query, with their 1-based line
//! numbers, optionally ignoring letter case.
pub mod config;
pub mod lines;
pub mod report;
pub mod search;
mod slices;

pub use config::{ArgumentError, Config};
pub use report::{format_match, run_on_text};
pub use search::{contains, search};
