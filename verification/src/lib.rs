//! Compares a tree of documents with its translation: which lines of the
//! source the translation lacks, which it holds in an earlier state, and
//! which lines it holds that are no longer in the source. The findings can
//! be laid out as a report or applied to the translation.

pub mod align;
pub mod align_laws;
pub mod check;
pub mod check_laws;
pub mod config;
pub mod differ;
pub mod diffs;
pub mod diffs_laws;
pub mod fixer;
pub mod fixer_laws;
pub mod linter;
pub mod matcher;
pub mod normalize;
pub mod normalize_laws;
pub mod printer;
pub mod similar;
pub mod similar_laws;
pub mod text;
pub mod util;
