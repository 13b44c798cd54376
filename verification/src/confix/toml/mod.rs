//! Reading TOML: positions in a source, and parsers for the tokens of the
//! grammar.

pub mod input;
pub mod parse;
