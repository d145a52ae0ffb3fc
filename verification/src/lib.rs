//! Reversible, integrity-checked, opaque identifiers.
//!
//! A small numeric payload is packed into one 16-byte block together with a
//! CRC-32 of its first twelve bytes, encrypted with a per-namespace AES-128
//! key, and rendered as `<namespace>_<base62 digits>`.

pub mod block;
pub mod cipher;
pub mod error;
pub mod generator;
pub mod hashing;
pub mod keystore;
pub mod text;
pub mod token;

pub use error::FormatFault;
pub use error::IdError;
pub use generator::WasmIdGenerator;
pub use hashing::hmac_sha256_128;
pub use keystore::KeyStore;
