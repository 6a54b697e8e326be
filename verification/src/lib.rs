//! Finds files with the same content and plans their safe removal.
//!
//! The library holds the index of observed files, the queries over it and
//! the deletion planner. Walking directories, reading files and printing
//! are left to the program that uses it.

pub mod check;
pub mod codec;
pub mod db;
pub mod dbpath;
pub mod delete;
pub mod dupe_groups;
pub mod dupes;
pub mod file_meta;
pub mod first_scan;
pub mod hashing;
pub mod invariants;
pub mod kv;
pub mod lex;
pub mod listing;
pub mod model;
pub mod path_filter;
pub mod path_utils;
pub mod potential;
pub mod scan;
pub mod schema;
pub mod sort;
pub mod stats;
pub mod util;
