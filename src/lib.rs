//! A small durable key-value store: an in-memory map of strings that is
//! loaded from, and written back to, one line-oriented data file.
pub mod codec;
pub mod error;
pub mod store;
