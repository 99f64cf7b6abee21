//! Parsing of Ensembl GTF genome annotations into columnar tables, one per
//! feature type, with dictionary-encoded columns for repetitive strings.
//!
//! - `text`: character-level helpers (splitting, trimming, decimal numbers).
//! - `attributes`: the rules that turn a GTF attributes field into key/value pairs.
//! - `categorical`: the dictionary-encoded string column.
//! - `table`: the per-feature table and how a row is added to it.
//! - `parser`: the line-by-line parse into one table per feature.
//! - `key_index`: the hash index behind the lookups by name.

pub mod attributes;
pub mod categorical;
pub mod error;
pub mod key_index;
pub mod parser;
pub mod table;
pub mod text;
