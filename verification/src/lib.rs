//! A document-indexing and ranked free-text search library.
//!
//! The library tokenizes document text into normalized terms, maintains
//! per-document and corpus-wide term statistics, and answers ranked queries
//! through interchangeable storage backends.

pub mod backend;
pub mod chars;
pub mod corpus;
pub mod counts;
pub mod errors;
pub mod extract;
pub mod indexer;
pub mod lexer;
pub mod model;
pub mod relational;
pub mod score;
