//! The core of a small operating system kernel for x86-64.
//!
//! - [`virtual_fs`] is the namespace over all mounted volumes: path
//!   resolution, open files, and the operations on them.
//! - [`kernel_hashmap`] is the hash map that the kernel keeps its tables in.
//! - [`crypto`] holds hash functions, password hashing, authenticated
//!   encryption and the random number generator.
//! - [`hardware_manager`] reads the firmware's tables and decides what is
//!   written to the devices; [`idt`] does so for the interrupt descriptors.
//! - [`boot`], [`system`], [`globals`], [`helper_functions`], [`base64`] and
//!   [`bytes`] are what the others share.
//!
//! Nothing here touches a device. What was read from one is an argument, and
//! what is to be written to one is a result.

pub mod base64;
pub mod boot;
pub mod bytes;
pub mod crypto;
pub mod globals;
pub mod hardware_manager;
pub mod helper_functions;
pub mod idt;
pub mod kernel_hashmap;
pub mod system;
pub mod virtual_fs;
