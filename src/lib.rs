//! An embeddable single-file vector record store.
//!
//! A store keeps fixed-dimension embeddings (each component held as the bit
//! pattern of a 32-bit float), opaque metadata and 16-byte identifiers. It
//! encodes to and decodes from one binary layout, supports soft deletion with
//! explicit compaction, and ranks live records by a distance supplied per record.
use vstd::prelude::*;

pub mod error;
pub mod format;
pub mod store;
pub mod rank;

pub use error::YAVSError;
pub use store::{Record, YAVS};
