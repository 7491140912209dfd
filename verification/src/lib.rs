//! An in-memory, path-addressed hierarchical store that emulates a minimal
//! filesystem: named files holding string content, organized into nested
//! directories, addressed by slash-delimited paths.
//!
//! Paths use `/` as the segment separator. A single leading slash is
//! optional and stripped; empty segments (from `//`, a trailing slash, or an
//! empty path) are rejected as invalid. The store is modeled abstractly as a
//! map from segment names to entries (files with their content, or
//! directories with their own child map), and every operation's contract is
//! stated over that model.

pub mod model;
pub mod path;
pub mod tree;
pub mod fs;
pub mod laws;

pub use fs::FileSystem;
pub use fs::FsError;
pub use tree::Node;
