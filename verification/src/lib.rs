//! Builds a description-to-emoji catalog from Unicode emoji-sequence data
//! tables.
//!
//! The library has three layers: a line scanner that reads the data-file
//! grammar (`scanner`), a resolver that turns a hexadecimal code-point spec
//! into concrete character sequences (`hex` and `scanner`), and a catalog
//! that accumulates the resulting entries with last-write-wins keys
//! (`catalog`). Reading the data files and driving the interactive picker
//! are left to the surrounding program; the library works on plain text.

pub mod catalog;
pub mod datadir;
pub mod hex;
pub mod scanner;
pub mod text;
