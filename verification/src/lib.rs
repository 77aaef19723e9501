//! A line-oriented preprocessor for plain text. Blocks between `@@start`
//! and `@@end` markers are replaced by ASCII art, a row of bordered boxes
//! or a tree diagram; every other line goes through unchanged.

pub mod directive;
pub mod parser;
pub mod text;
pub mod textbox;
pub mod tree;
pub mod utils;
