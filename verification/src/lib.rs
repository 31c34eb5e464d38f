//! `star_toml`: loading, layering, validating and admitting TOML configuration.
//!
//! The verified core of the library: a TOML value tree with a mathematical
//! model, layered merging with field provenance, environment overrides,
//! path policies, a validation engine with conformance analytics, a
//! declarative schema, and the admission typestate pipeline.

pub mod text;
pub mod value;
pub mod lexical;
pub mod merge;
pub mod merge_laws;
pub mod validation;
pub mod order;
pub mod digest;
pub mod reports;
pub mod env;
pub mod path;
pub mod toml_io;
pub mod error;
pub mod loader;
pub mod canonical;
pub mod ratio;
pub mod witness;
pub mod admission;
pub mod events;
pub mod ocel;
pub mod schema;
pub mod scan;
pub mod lsp;
pub mod laws;
pub mod load_laws;
