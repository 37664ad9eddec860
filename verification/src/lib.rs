//! Build-performance experiment library.
//!
//! Drives repeatable build experiments against a large `make`-based source
//! tree: parses build-option files into canonical configurations, diffs
//! them, encodes each build attempt's identity (parent, configuration,
//! kind) into a branch label and decodes it back, and sequences
//! checkout / configure / build / snapshot steps against a version-controlled
//! working tree used as an append-only experiment log.

pub mod bytes;
pub mod codec;
pub mod config;
pub mod diff;
pub mod fetch;
pub mod lineage;
pub mod orch;
pub mod report;
pub mod trace;

