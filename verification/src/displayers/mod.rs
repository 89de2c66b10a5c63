//! What is shown of a query's result.

pub mod ascii_table;
pub mod chart;
