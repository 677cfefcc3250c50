//! Verified core of a row-triage workbench for tabular log data.
//!
//! The crate models the query side of the workbench: a boolean search
//! mini-language (tokenizer, postfix conversion, mask evaluation), a flag
//! taxonomy with severity ranks, an indicator-of-compromise (IOC) overlay,
//! per-project caches, an in-memory flag store, and the paginated row-query
//! engine that ties them together.

pub mod cache;
pub mod codec;
pub mod engine;
pub mod error;
pub mod flags;
pub mod ioc;
pub mod laws;
pub mod mask;
pub mod search;
pub mod sort;
pub mod store;
pub mod table;
pub mod text;
pub mod value;
