//! Hash functions.

pub mod padding;
pub mod sha1;
pub mod sha256;
pub mod sha3;
pub mod argon2;
pub mod blake2b;
