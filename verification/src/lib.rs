//! A frecency directory jumper's core: glob matching of remembered paths,
//! query patterns, shell quoting, datafile rows and `z` command options.
pub mod clock;
pub mod command;
pub mod datafile;
pub mod glob;
pub mod matching;
pub mod pattern;
pub mod record;
pub mod text;

pub use clock::now;
pub use glob::glob_match;
pub use pattern::{make_pattern, shquote};
