//! An embeddable, persistent key-value store in the Bitcask style: an
//! append-only on-disk log of encoded entries paired with an in-memory
//! key directory that maps each live key to the disk location of its most
//! recent value.
//!
//! The store is verified against a mathematical model: every segment is a
//! sequence of bytes, every entry a record of its fields, and the engine's
//! key/value state is defined as a deterministic replay of the log. File
//! handles reach the library only through the `fio::IOManager` capability.

pub mod btree;
pub mod datafile;
pub mod entry;
pub mod entry_with_meta_data;
pub mod db;
pub mod error;
pub mod fio;
pub mod index;
pub mod keydir;
pub mod meta_data;
pub mod options;
pub mod wire;

pub use error::{E, R};
pub use options::Options;
