//! Shortens a shell command line by binding repeated path-like fragments to
//! shell variables.

pub mod text;
pub mod names;
pub mod table;
pub mod compact;
