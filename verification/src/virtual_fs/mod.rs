//! The virtual file system: one namespace over any number of mounted volumes.
//!
//! Inodes, directory wrappers and open-file records live in tables and refer
//! to one another by index. Every volume is served by a driver; what a driver
//! answered is kept in its history, and the contracts speak of it there.

pub mod driver;
pub mod inode;
pub mod lookup;
pub mod types;
pub mod directory;
pub mod file;
pub mod path;
pub mod namespace;
pub mod resolver;
pub mod mount;
pub mod vfs;
pub mod operations;
pub mod creation;
pub mod removal;
pub mod renaming;
pub mod effects;
pub mod outcomes;
pub mod steps;
pub mod bookkeeping;
pub mod mount_paths;
pub mod mounting;
