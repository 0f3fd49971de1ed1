//! The plumbing of a small version-control tool: a content-addressed object
//! store, the tree builder, commits and the lock-protected HEAD update.

pub mod author;
pub mod builder;
pub mod bytes;
pub mod commit;
pub mod database;
pub mod entry;
pub mod error;
pub mod hex;
pub mod lockfile;
pub mod path;
pub mod refs;
pub mod tree;
pub mod workspace;
