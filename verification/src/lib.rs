//! A line-oriented substring search library.
//!
//! Given a text buffer and a query string, the scanner reports which lines
//! contain the query as a contiguous substring (or, in inverted mode, which
//! lines do not), with 1-based line numbers in document order. Matching can
//! be made case-insensitive, in which case both line and query are folded
//! to ASCII lowercase before comparison.

pub mod config;
pub mod laws;
pub mod matcher;
pub mod scanner;

pub use config::Config;
pub use scanner::SearchResult;
pub use scanner::scan;
pub use scanner::search;
pub use scanner::search_insensitive;
pub use scanner::search_inverted;
pub use scanner::search_inverted_insensitive;
