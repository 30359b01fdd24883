//! A metadata index for a corpus of design proposals: the records kept for
//! each document, the dictionary of tags, and the rules by which records are
//! made and updated from the documents' text and their pull requests' labels.
pub mod commands;
pub mod errors;
pub mod generate;
pub mod github;
pub mod header;
pub mod metadata;
pub mod numbers;
pub mod order;
pub mod query;
pub mod store;
pub mod text;
pub mod tokens;

pub use crate::commands::{
    add_metadata, scan_merged, set_metadata, tag, tag_init, AddFlags, SetFlags, TagScanFlags,
};
pub use crate::tokens::parse_multiple;
