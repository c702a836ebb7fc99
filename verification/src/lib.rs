//! Verified core of the forge editor: snippet expansion, the line/selection
//! document model with its undo records, text search and replacement, and tab
//! layout arithmetic.

pub mod tabs;
pub mod snippet;
pub mod doc;
pub mod record;
pub mod edit;
pub mod search;
pub mod undo;
pub mod tokenizer;
