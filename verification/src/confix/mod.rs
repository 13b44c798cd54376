//! Configuration files: telling whether their contents changed, and reading
//! the TOML they hold.

pub mod file;
pub mod signal;
pub mod toml;
