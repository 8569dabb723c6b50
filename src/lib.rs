//! A fuzzy full-text search engine over short text records.

pub mod text;
pub mod word;
pub mod document;
pub mod trie;
pub mod cache;
pub mod aggregate;
pub mod record;
pub mod rank;
pub mod index;
