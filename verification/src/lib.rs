//! A batch file-rename engine: recursive scanning of directory snapshots with
//! depth, extension and directory-inclusion filters, duplicate and collision
//! detection over a batch of rename requests, and a two-pass conflict
//! resolution scheme that reorders colliding renames through temporary names
//! so that every step is collision-free.
//!
//! The library works on plain values: directory trees are handed in as
//! [`scanner::FsEntry`] snapshots and rename plans are handed back as
//! [`resolver::RenamePlan`] values, so every rule of the engine is stated in
//! contracts and proved. The thin shell that talks to the real file system
//! lives outside the library and only mirrors the plans produced here.

pub mod config;
pub mod plugins;
pub mod protocol;
pub mod text;
pub mod scanner;
pub mod resolver;
pub mod renamer;
