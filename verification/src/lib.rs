//! Duplicate-file detection: the grouping, clustering, bookkeeping and
//! formatting logic of a desktop duplicate finder, with its contracts.

pub mod calendar;
pub mod digest;
pub mod grouping;
pub mod hashing;
pub mod media;
pub mod model;
pub mod numbers;
pub mod present;
pub mod scan;
pub mod scanner;
pub mod sums;
pub mod text;

pub use vstd::hash_set::StringHashSet;
pub use vstd::hash_map::StringHashMap;
