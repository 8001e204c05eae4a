//! A persistent mapping from short user-chosen identifiers ("marks") to
//! filesystem paths, kept as an ordered list of records.
//!
//! The library holds the verified core: the store of records, the four
//! operations on it (`add`, `remove`, `open`, `list`), and the textual
//! serialization with a proved round trip. Reading and writing the backing
//! file, resolving the configuration directory, and launching the platform
//! file opener are left to the surrounding binary.

pub mod store;

pub mod ops;

pub mod codec;
