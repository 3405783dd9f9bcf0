//! Typed collections, indexes and scans over ordered key/value stores.
pub mod lex;
pub mod big_endian;
pub mod key;
pub mod integer_keys;
pub mod bounds;
pub mod prefix;
pub mod scan;
pub mod error;
pub mod store;
pub mod backend;
pub mod entity;
pub mod index;
pub mod index_registry;
pub mod iter;
pub mod collection;
