//! Extraction of test declarations from build-description files written in a
//! small macro dialect: a tag scanner, one parser per construct, a table of
//! deferred bindings and a loop expander, with the command-line helpers
//! around them.

pub mod assoc;
pub mod cc_source;
pub mod commands;
pub mod config;
pub mod env_file;
pub mod lazy_binding;
pub mod parsers;
pub mod scanner;
pub mod structures;
pub mod suite;
pub mod text;
