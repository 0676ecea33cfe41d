//! Grouping the rows of a table by the values of one column.

use crate::error::TableError;
use crate::group_index::GroupIndex;
use crate::grouping::index_of_table;
use crate::table::{names_of, Table};
use vstd::prelude::*;

verus! {

/// Groups the rows of a table by their value in the column called `on`: each
/// distinct value, as a key of one text and in the order of first
/// appearance, with the positions of the rows that hold it, ascending.
/// `ColumnNotFound` where the table has no such column.
pub fn group_by(table: &Table, on: &str) -> (r: Result<GroupIndex, TableError>)
    requires
        table.wf(),
    ensures
        names_of(table@).contains(on@) ==> r is Ok && r->Ok_0.wf() && r->Ok_0@ == index_of_table(
            table@,
            seq![on@],
        ),
        !names_of(table@).contains(on@) ==> r == Err::<GroupIndex, TableError>(
            TableError::ColumnNotFound,
        ),
{
    table.create_index(on)
}

} // verus!
