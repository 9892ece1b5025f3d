//! Bootstrap configuration for a multi-protocol mail server.
//!
//! The crate turns a parsed main configuration file plus zero or more parsed
//! included files into a single flat, macro-expanded key-value namespace, and
//! offers a reusable typed-template mechanism (`DynValue`/`KeyLookup`) that
//! other subsystems use at runtime to build per-connection strings.

pub mod cli;
pub mod config;
pub mod dynvalue;
pub mod errors;
pub mod keymap;
pub mod macros;
pub mod server;
pub mod text;
