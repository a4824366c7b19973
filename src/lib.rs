//! A fuzzy, phrase-aware lookup engine over tokenized strings.
//!
//! Words are indexed in an FST together with their deletion variants
//! (`fuzzy`), phrases of word ids are indexed as an FST over three-byte word
//! keys (`phrase`), and an inverted index from word ids to phrase ids is
//! built by `inverted`.
pub mod codec;
pub mod fst_store;
pub mod query;
pub mod phrase;
pub mod variants;
pub mod fuzzy;
pub mod inverted;
