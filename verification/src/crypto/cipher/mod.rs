//! Ciphers.

pub mod aes;
