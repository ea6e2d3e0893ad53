//! snapconfig - a canonical tree for structured configuration data, a
//! position-independent binary archive of that tree, and a freshness-aware
//! cache layer.
//!
//! Source text is normalized (by format adapters) into one flat, arena-based
//! [`value::FlatValue`] tree and serialized into a single position-independent
//! byte buffer. Opening a buffer runs one validation-and-decode pass; after
//! it, lookups, path resolution and materialization run over the validated
//! arena with exact contracts.

pub mod adapters;
pub mod cache;
pub mod codec;
pub mod config;
pub mod error;
pub mod order;
pub mod parsers;
pub mod project;
pub mod reader;
pub mod value;

pub use config::SnapConfig;
pub use error::SnapconfigError;
pub use parsers::Format;
pub use value::FlatValue;
pub use value::ValueNode;
