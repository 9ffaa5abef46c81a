//! An embedded vector database: named collections of fixed-dimension vectors,
//! searched exactly for the `k` best-scoring members.
//!
//! Every number of a vector, and every score, is an IEEE 754 binary32 value
//! held by its bit pattern in a `u32`. The library stores, orders and selects
//! such values; it does no arithmetic on them.

pub mod db;
pub mod heap;
pub mod listing;
pub mod search;
pub mod similarity;
pub mod storage;
