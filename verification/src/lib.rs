//! Translation key lifecycle engine.
//!
//! The library keeps per-language JSON key/value files in sync with the
//! translation keys used by a source tree: it merges freshly scanned keys
//! into existing files (`collect`), prunes keys that are no longer used
//! (`clean`), and compiles the per-language files into one
//! inheritance-aware dictionary artifact (`generate`).  A restricted
//! static evaluator turns a configuration script into the typed
//! configuration model without executing code.

pub mod clean;
pub mod cli;
pub mod collect;
pub mod config;
pub mod error;
pub mod expr_to_value;
pub mod is_target_file;
pub mod json;
pub mod scan_order;
pub mod tgen;
pub mod tmap;
