//! An append-only, monotonically keyed, multi-table record store.
//!
//! This crate holds the store's rules: the on-disk encoding, recovery,
//! the resolution of keys to byte extents, range iteration, and the ordered
//! commit protocol of an append. It performs no I/O itself; the caller runs
//! the file operations that the library asks for and hands back their results.

pub mod codec;
pub mod commit;
pub mod config;
pub mod direct;
pub mod error;
pub mod iter;
pub mod layout;
pub mod model;
pub mod open;
pub mod params;
pub mod reader;
pub mod seq;
pub mod writer;

pub use config::{Config, ConfigBuilder};
pub use iter::Iter;
pub use open::open;
pub use params::{IterParams, IterParamsBuilder};
pub use reader::{ReaderFactory, Reader};
pub use writer::{Writer, WriterFactory};
