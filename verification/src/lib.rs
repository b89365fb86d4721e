//! An in-memory n-gram inverted index with weighted relevance scoring.
//!
//! `TextIndex` maintains posting lists for one text field: it slides a
//! fixed-length byte window over inserted texts and records, per gram and
//! per document, how often the gram occurred. `SearchEngine` composes three
//! such indexes (title, authors, keywords, all trigrams) into one ranked,
//! multi-field search surface.
//!
//! Scores are integers in fixed-point form (see the `score` module), so every
//! score is finite and ranking is a total, deterministic order.
#![verifier::loop_isolation(false)]

pub mod assoc;
pub mod engine;
pub mod index;
pub mod norm;
pub mod posting;
pub mod score;

pub use engine::Doc;
pub use engine::SearchEngine;
pub use index::DocId;
pub use index::TextIndex;
