//! Error types for snapconfig.

use vstd::prelude::*;

verus! {

/// Errors of the loading, parsing and encoding layers.
///
/// Traversal of an already opened archive has its own error type,
/// [`TraversalError`]: those errors are local to a single call and never
/// invalidate the handle.
#[derive(Debug, Clone)]
pub enum SnapconfigError {
    /// An operating-system level I/O failure, with its message.
    Io(String),
    /// The JSON parser rejected the source text.
    JsonParse(String),
    /// The YAML parser rejected the source text.
    YamlParse(String),
    /// The TOML parser rejected the source text.
    TomlParse(String),
    /// The INI parser rejected the source text.
    IniParse(String),
    /// The tree could not be serialized (too large to index).
    Serialize(String),
    /// The named source file does not exist.
    FileNotFound(String),
    /// The format name handed to `loads` is not recognized.
    UnknownFormat(String),
    /// The cache file failed structural validation, is empty, or has a
    /// missing or out-of-range root.
    InvalidCache(String),
}

/// Errors of a single traversal call over an opened archive.
#[derive(Debug, Clone)]
pub enum TraversalError {
    /// The named key is absent from the object node.
    KeyNotFound(String),
    /// The numeric segment exceeds the array length.
    IndexOutOfBounds(String),
    /// The node kind does not support the requested operation; carries the
    /// offending segment or operation and the kind encountered.
    TypeMismatch(String),
}

} // verus!
