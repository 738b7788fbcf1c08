//! Duplicate-file detection over a listing of files.
//!
//! The library works on plain values and leaves the reading of directories
//! and files to its caller. A scan runs in these steps:
//!
//! 1. [`entry::list_entries`] keeps the regular files of a directory walk.
//! 2. [`scan::scan_entries`] sets the empty files aside, drops the files
//!    under the size threshold and groups the rest by name, or by name and
//!    size.
//! 3. [`pipeline::second_pass`] names the files to hash; the caller reads
//!    each and hands its content to the [`hashing::HashPass`], which takes
//!    the SHA-1 digest and groups the files by it.
//! 4. [`pipeline::final_report`] renders the groups with more than one
//!    file, for the console or as CSV.
//!
//! [`laws`] and [`order`] state what holds of every scan.

pub mod digest;
pub mod entry;
pub mod error;
pub mod hashing;
pub mod laws;
pub mod order;
pub mod path;
pub mod pipeline;
pub mod report;
pub mod scan;
pub mod table;
pub mod text;
