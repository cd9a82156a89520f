//! Fuzzy name-indexing and price-reconciliation core for a trading-card
//! corpus.
//!
//! The crate derives the index projections (exact name, prefixes, character
//! n-grams, a phonetic code, and tokenized words) that an inverted index is
//! built from, ranks free-text queries against a snapshot of those postings,
//! and reconciles marketplace SKU and price records into a single best price
//! per card and an aggregate valuation per deck.  All store and file I/O
//! stays outside this crate; the functions here are pure over plain values.

pub mod api;
pub mod deck;
pub mod index;
pub mod metaphone;
pub mod postings;
pub mod pricing;
pub mod records;
pub mod resolve;
pub mod text;
