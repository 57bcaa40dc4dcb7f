//! Consolidation of tabular exports whose headers differ from file to file:
//! grouping of files by name and header fingerprint, column statistics,
//! the rule that tells empty rows from data, and the union of columns.

pub mod columns;
pub mod consolidate;
pub mod dialogs;
pub mod driver;
pub mod fingerprint;
pub mod groups;
pub mod headers;
pub mod names;
pub mod natural;
pub mod sheets;
pub mod signature;
pub mod text;
pub mod token;
