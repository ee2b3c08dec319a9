//! AES-256 and its modes.

pub mod aes;
pub mod aes_gcm;
