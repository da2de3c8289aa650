//! A journal that keeps its entries as dated Markdown, indexes them for
//! retrieval, and consults a language model about them.
//!
//! This crate holds the verified logic: the journal format parser, the
//! ordering of entries, the edit-lock rule, the prompts and the handling of
//! model replies, the identifiers of indexed entries, ranking of search
//! matches, and the text that exports are made of.

pub mod dates;
pub mod export;
pub mod journal;
pub mod oracle;
pub mod sorting;
pub mod tags;
pub mod text;
pub mod vectors;

pub use journal::RawEntry;
