//! StratoDB's verified core: byte codecs, scalar storage and index encodings,
//! path and pattern parsing, and document export.

pub mod bytes;
pub mod codec;
pub mod error;
pub mod path;
pub mod temporal;
pub mod scalar;
pub mod ordered;
pub mod key;
pub mod text;
pub mod engine;
pub mod index;
pub mod value;
pub mod export;
pub mod access;
pub mod cache;
pub mod db;
pub mod data;
pub mod list_edit;
pub mod bignum;
pub mod decimal;
pub mod fraction_order;

pub use crate::data::{Bytes, SData, SValue};
pub use crate::error::{SdbError, SdbResult};
pub use crate::export::exporter::{JsonExporter, YamlExporter};
pub use crate::index::definitions::column::IndexColumn;
pub use crate::index::definitions::direction::Direction;
pub use crate::index::definitions::index::IndexDef;
pub use crate::index::indexed::SIndexed;
pub use crate::key::Skey;
pub use crate::path::{SPath, Segment};
pub use crate::scalar::Scalar;
pub use crate::value::Value;
