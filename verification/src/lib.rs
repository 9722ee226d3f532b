//! Selection of the files of a directory tree that belong in a source archive.
//!
//! A version-control tool decides which paths are ignored. This crate holds the
//! parts of that pipeline that compute, each with a contract that Verus
//! proves:
//!
//! - [`batches`] cuts the file list into batches of bounded size;
//! - [`pool`] sizes the worker pool that runs one ignore check per batch;
//! - [`invoker`] builds the tool's command line and reads what it prints;
//! - [`chars`] decodes the quoted, escaped paths of that output, and
//!   [`chars_laws`] states what the decoder does on text of a known shape;
//! - [`collector`] receives the answers of the workers in any order;
//! - [`aggregate`] merges the answers and selects the files to archive;
//! - [`paths`] holds the rules on paths of either platform, [`text`] those on
//!   characters;
//! - [`archive`] names the archive's entries and states its size;
//! - [`settings`] turns the program's arguments into the settings of a run.
//!
//! Starting processes, walking directories and writing the archive are left to
//! the program that uses the crate.

pub mod aggregate;
pub mod archive;
pub mod batches;
pub mod chars;
pub mod chars_laws;
pub mod collector;
pub mod invoker;
pub mod paths;
pub mod pool;
pub mod settings;
pub mod text;
