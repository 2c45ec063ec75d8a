//! Query execution and relevance scoring over immutable index segments.
//!
//! Given a parsed query over an already-built segment, this library walks
//! the matching document identifiers in ascending order and attaches a
//! relevance score to each.  Scores are exact fixed-point rationals so that
//! the same query over the same segment always yields the same results.

pub mod term;

pub mod postings;

pub mod segment;

pub mod score;

pub mod term_scorer;

pub mod phrase_scorer;

pub mod scorer;

pub mod query;

pub mod properties;

pub mod directory;
