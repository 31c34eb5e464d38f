//! The editor-side analysis of TOML documents: diagnostics, hover,
//! completion, symbols, the ANDON signal and telemetry records. It is advisory
//! only: it never admits a configuration.

pub mod protocol;
pub mod diagnostics;
pub mod gate;
pub mod telemetry;
pub mod analyzer;
pub mod symbols;
pub mod state;
pub mod actions;
