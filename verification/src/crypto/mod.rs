//! Cryptography: hashes, message authentication, ciphers and random numbers.

pub mod cipher;
pub mod hash;
pub mod hmac;
pub mod rng;
