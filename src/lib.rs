//! Discovers test definitions laid out as files in a directory tree, compiles the
//! tree into a module structure, parses each file's test blocks and derives the
//! jobs and shell scripts that run them.
pub mod collect;
pub mod config;
pub mod generate;
pub mod job;
pub mod parser;
pub mod text;
