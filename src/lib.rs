//! An in-memory directory tree held in an arena of nodes, with path parsing,
//! plus the early-boot bump allocator, a small bucketed hash map and the
//! decisions of the kernel's trap handlers.

pub mod path;
pub mod ramfs;
pub mod laws;
pub mod bump;
pub mod hashmap;
pub mod trap;
