//! Source-map decoding and lookup: a VLQ decoder, a segment parser that
//! accumulates deltas into mappings, an index ordered by generated position
//! with nearest-match lookup, and a loader for source-map documents.
pub mod document;
pub mod error;
pub mod index;
pub mod mapping;
pub mod vlq;

pub use document::{consume, load};
pub use error::SourceMapError;
pub use index::Cache;
pub use mapping::{Mapping, Position, parse_mappings};
pub use vlq::{decode_value, encode_value};
