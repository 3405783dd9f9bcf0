//! Key/value backends.
pub mod named;
pub mod kv;
pub mod memory;
pub mod tests;
