//! A minimalist library for parsing command line arguments.
//!
//! * Long-form boolean flags with single-character shortcuts: `--flag`, `-f`.
//! * Long-form string-valued options with single-character shortcuts:
//!   `--option <arg>`, `-o <arg>`, `--option=<arg>`.
//! * Condensed short-form options: `-abc <arg> <arg>`.
//! * `--help` and `--version`, once a text was set for them.
//! * Multivalued options.
//! * Git-style command interfaces with arbitrarily nested commands.
//!
//! A parser is set up with the builder methods of [`ArgParser`], parses a
//! vector of arguments once, and is then asked what it found.
//!
//! What parsing does is defined in [`model`], as a function from a parser
//! and the tokens to the parser afterwards, and the functions of [`parser`]
//! are proved to compute it. What follows from that definition for every
//! input is proved in [`laws`]. The one thing taken on trust is the call of
//! a callback, which is the caller's own code.
//!
//! The library neither prints nor ends the process: where the input asks
//! for the help or version text, parsing stops and hands the text back.

pub mod error;
pub mod laws;
pub mod model;
pub mod parser;
pub mod stream;
pub mod text;

pub use crate::error::{Error, Outcome};
pub use crate::parser::ArgParser;
pub use crate::stream::ArgStream;
