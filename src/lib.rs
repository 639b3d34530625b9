//! A double-array trie: a compact, build-once map from byte-string keys to
//! non-negative `i32` values, with exact lookup, common-prefix enumeration and
//! resumable traversal over a flat array of packed units.
pub mod builder;
pub mod checker;
pub mod codec;
pub mod direct;
pub mod error;
pub mod laws;
pub mod model;
pub mod trie;
pub mod units;
