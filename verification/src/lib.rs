//! A license identification engine: normalizes free-form text into a
//! canonical line sequence, stores a corpus of named reference licenses,
//! and scores a query against every entry to report the best match with
//! a rational confidence score.

pub mod canon;
pub mod corpus;
pub mod engine;
pub mod laws;
pub mod matcher;
