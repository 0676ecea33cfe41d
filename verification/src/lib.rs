//! An in-memory columnar table engine.
//!
//! A [`table::Table`] is an ordered collection of uniquely named, equally long
//! typed columns. On top of it stand grouping indexes, aggregation, joins and
//! pivot tables. Every value is observed through its text form, so the
//! contracts of this crate speak of sequences of characters.
//!
//! The crate holds no floating-point number. A column of floating-point
//! numbers holds each number as a literal in normal form, and which literal
//! that is, a function of the caller says: it takes a literal and gives the
//! normal form of its number. Every way into such a column goes through that
//! function. A sum is made by a second function of the caller, from the
//! literals of the addends to the literal of their sum.
//!
//! Beside the contracts of its functions the crate proves what holds across
//! them:
//!
//! - after any sequence of row appends every column is as long as the table
//!   has rows: [`table::lemma_row_count_after_pushes`];
//! - a value that a row does not supply never makes the row fail:
//!   [`table::lemma_missing_values_are_filled`];
//! - a literal that is appended reads back in canonical form, which for a
//!   floating-point number is what the caller's function gave:
//!   [`columns::column_trait::lemma_append_then_read`], and the canonical
//!   text of an integer reads back as that integer:
//!   [`text::lemma_parse_int_text`];
//! - every row stands in exactly one bucket of a grouping index, under its
//!   own key: [`grouping::lemma_group_by_complete`];
//! - a join has as many rows as there are matching pairs, and one more for
//!   each unmatched row of the side that it keeps:
//!   [`methods::join::lemma_join_cardinality`];
//! - a copy of a table answers every read as the table does:
//!   [`table::lemma_copy_reads_alike`].

pub mod cell_value;
pub mod columns;
pub mod error;
pub mod group_index;
pub mod grouping;
pub mod markdown;
pub mod methods;
pub mod order;
pub mod row;
pub mod table;
pub mod text;
