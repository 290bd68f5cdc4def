//! The sample sources the checks are exercised on, for those samples that are
//! themselves valid Rust. Each is also kept as text in the tests, where the
//! checks read it.
pub mod clean;
pub mod same_name_distinct_impls;
