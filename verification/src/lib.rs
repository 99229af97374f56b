//! Core logic of a mod manager: a chunked package-catalog cache with an
//! in-memory queryable store, and an idempotent deployment synchronizer that
//! mirrors a profile directory into a game installation.
//!
//! The surrounding application performs the network and file-system work;
//! every decision about bytes, names, trees and store contents is made here,
//! behind contracts.
pub mod assoc;
pub mod chunk;
pub mod deploy;
pub mod entry;
pub mod fstree;
pub mod loader;
pub mod mirror;
pub mod query;
pub mod store;
pub mod text;
