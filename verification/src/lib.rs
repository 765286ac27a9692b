//! Integrity checking for archived directory trees.
//!
//! A directory is archived together with a `.checksums` file that records
//! the MD5 checksum of every file under it. This library holds the logic:
//! the format of that file (`checksum_file`), the map it describes
//! (`checksum_map`), which files are recorded (`filter`), how checksums are
//! computed (`digest`), how a directory is compared with its record and how
//! the record is brought up to date (`reconcile`), and the decisions of the
//! `prepare`, `verify` and `copy` commands (`archive`, `cli`).

pub mod archive;
pub mod checksum_file;
pub mod checksum_map;
pub mod cli;
pub mod digest;
pub mod error;
pub mod filter;
pub mod order;
pub mod reconcile;
pub mod text;
