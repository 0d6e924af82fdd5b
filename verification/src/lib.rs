//! Code-intelligence backend for a Julia language server: per-document
//! parse caching with debounce, symbol outline extraction, workspace
//! indexing decisions, and ranked fuzzy symbol search.
pub mod fuzzy;
pub mod index;
pub mod outline;
pub mod parse;
pub mod select;
pub mod state;
pub mod symbols;
pub mod text;
pub mod tree;
pub mod types;
pub mod uri;
pub mod workspace;
