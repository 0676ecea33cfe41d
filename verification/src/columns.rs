//! Typed columns: the unit of storage of a table.

pub mod column;
pub mod column_trait;
pub mod datetime_column;
pub mod float_column;
pub mod int_column;
pub mod string_column;
