//! Transformations of tables: grouping, aggregation, joins and pivots.

pub mod aggregation;
pub mod group_by;
pub mod inner_join;
pub mod join;
pub mod pivot;
