//! Stream filters.

pub mod png;
