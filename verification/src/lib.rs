//! A verified editor for the metadata block of GGUF model files.
//!
//! A GGUF file starts with a fixed header (magic, version, tensor count)
//! followed by a length-prefixed array of typed key/value records, all
//! little-endian. This crate decodes that layout into an ordered record
//! store, supports add-or-replace, remove, search and bulk-replace on the
//! store, and re-encodes the store back to bytes. File handling and the
//! JSON import/export representation are left to the calling program,
//! which hands the library plain bytes and records.

pub mod codec;
pub mod meta;
pub mod store;

pub use meta::GGUFMetadata;
pub use meta::GgufError;
pub use meta::MetaValue;
pub use store::GGUFFile;
