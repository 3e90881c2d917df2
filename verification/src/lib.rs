//! Sorting and deduplication of the entries of a key-value store before they
//! are written to a sorted table, the classification of values by size, and the
//! tokenizer of `format!`-style strings used by the formatting macros.
pub mod order;
pub mod sortable;
pub mod stable_sort;
pub mod runs;
pub mod sort_dedup;
pub mod constants;
pub mod entry;
pub mod collector_entry;
pub mod lookup_entry;
pub mod format_parts;

pub use sort_dedup::FamilyKind;
