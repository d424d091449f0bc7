//! A library for hierarchical key-value documents: deep merge of mapping
//! trees, dotted-path lookup, and round-trip text conversion.

pub mod codec;
pub mod hash;
pub mod laws;
pub mod maps;
pub mod merge;
pub mod resolve;
pub mod value;

pub use hash::MergeStrError;
pub use hash::YamlHash;
pub use resolve::LookupError;
pub use value::Value;
