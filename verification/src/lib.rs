//! Chunked authenticated encryption of byte streams with XChaCha20-Poly1305,
//! together with the plain data types of the surrounding tool.

pub mod args;
pub mod config;
pub mod cryptography;
