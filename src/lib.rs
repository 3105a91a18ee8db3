//! Builds the cross-reference index of a source-code search engine: per-symbol
//! occurrence tables, a go-to-definition table and an identifier index.

pub mod text;
pub mod table;
pub mod intern;
pub mod scopes;
pub mod lines;
pub mod records;
pub mod index;
pub mod json;
pub mod output;
pub mod laws;
