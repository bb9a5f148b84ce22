//! A record store for daily lunar-calendar facts with boolean tag search.
//!
//! Records are inserted one per calendar date under a year key; each record
//! carries whitespace-tokenized tag strings.  Queries combine inclusion and
//! exclusion predicates over those tags and return the matching date keys.
//! The engine is an inverted index: a growable bit set per (year, field, tag)
//! records which rows of the year carry the tag, and the evaluator folds
//! predicate bit sets into a result set.

pub mod bindings;
pub mod bitmap;
pub mod engine;
pub mod index;
pub mod ledger;
pub mod msg;
pub mod text;
pub mod types;
