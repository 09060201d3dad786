//! Verified core of a word-count utility.
//!
//! The library covers the three pure components of the tool: parsing the
//! command-line tokens into a request (`args`), counting lines, words,
//! characters and bytes of a text (`counts`), and laying the results out as
//! aligned columnar text (`render`). Reading files and standard input, and
//! writing the output, stay outside the library.

pub mod args;
pub mod counts;
pub mod render;
