//! Verified core of an MTR-dialect test runner: the test-script parser,
//! the result comparison, the result rendering helpers, and the skip list.

pub mod order;
pub mod text;
pub mod mtr_parser;
pub mod result_diff;
pub mod runner;
pub mod skip_list;
pub mod session;
pub mod suite;
