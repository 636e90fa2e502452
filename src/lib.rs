//! Reflows free-form text into fully justified lines of a fixed width.
//!
//! Text is split into words at runs of Unicode white space; the words are set greedily
//! into lines, a word longer than a line is broken after every `line_width`
//! characters, and the spare width of each line is spread over the gaps between its
//! words, the leftmost gaps taking one space more where the spaces do not divide
//! evenly.

pub mod layout;
pub mod text;
pub mod theorems;

pub use layout::{finalize_current_line, justify};
pub use text::split_words;
