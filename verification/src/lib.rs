//! Encrypted note persistence engine: title sanitization, storage path
//! resolution, a repeating-key XOR cipher with hashed key derivation, a
//! printable text codec, and the note store orchestration built from them.

pub mod cipher;
pub mod codec;
pub mod order;
pub mod paths;
pub mod sanitize;
pub mod store;
pub mod strutil;
pub mod text;
