//! Content-addressed synchronisation of a directory tree: snapshots as maps
//! from path to digest, differences between two snapshots as typed change
//! lists, and archives that carry a change list together with the bytes it
//! needs.

pub mod hash;
pub mod digest;
pub mod pathmap;
pub mod patch;
pub mod archive;
pub mod snapshot;
pub mod container;
