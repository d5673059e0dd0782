//! Change detection and sync planning for a pair of directory trees.
//!
//! The crate holds the decisions of a directory synchroniser: which files of a
//! base tree differ from a target tree, how the journal of a tree is framed on
//! disk, and how the files to copy are batched by destination directory.
//! Walking directories, reading files and copying them is left to the caller,
//! who hands in plain values.

pub mod dir_tracker;
pub mod equality;
pub mod fields;
pub mod file_tracker;
pub mod hash;
pub mod journal;
pub mod logger;
pub mod mapper;
pub mod paths;
pub mod pattern;
pub mod session;
pub mod text;
pub mod transaction;
