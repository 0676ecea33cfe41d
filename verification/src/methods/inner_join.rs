//! The inner join of two tables on one key column.

use crate::error::TableError;
use crate::grouping::strs_view;
use crate::methods::join::{join, join_model, JoinType};
use crate::table::{names_of, Table};
use vstd::prelude::*;

verus! {

/// Joins two tables on the column called `on`, keeping only pairs of rows
/// with equal values in that column: [`join`] on one key column under
/// `Inner`. `ColumnNotFound` where either table has no such column.
pub fn inner_join(left: &Table, right: &Table, on: &str) -> (r: Result<Table, TableError>)
    requires
        left.wf(),
        right.wf(),
    ensures
        names_of(left@).contains(on@) && names_of(right@).contains(on@) ==> r is Ok && r->Ok_0.wf()
            && r->Ok_0@ == join_model(left@, right@, seq![on@], JoinType::Inner),
        !(names_of(left@).contains(on@) && names_of(right@).contains(on@)) ==> r == Err::<
            Table,
            TableError,
        >(TableError::ColumnNotFound),
{
    let mut names: Vec<&str> = Vec::new();
    names.push(on);
    proof {
        assert(strs_view(names@) =~= seq![on@]);
        assert(seq![on@][0] == on@);
    }
    join(left, right, names.as_slice(), JoinType::Inner)
}

} // verus!
