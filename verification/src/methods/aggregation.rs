//! Aggregation: reducing the rows of a group to one number.
//!
//! A number is handed out as the text of its literal. Counting needs no
//! arithmetic on floating-point numbers; summing does, and that arithmetic is
//! the caller's: a function that takes the literals of the addends and gives
//! the literal of their sum.

use crate::columns::column_trait::ColumnTrait;
use crate::error::TableError;
use crate::group_index::GroupIndex;
use crate::grouping::{column_of, lemma_column_of};
use crate::order::texts_of;
use crate::table::{names_of, Table};
use crate::text::{check_float_literal, format_u64, is_float_literal, nat_text};
use vstd::prelude::*;
use vstd::string::*;

verus! {

/// The function that reduces a group to one number.
#[derive(Debug, Clone, Copy, PartialEq, Eq, Structural)]
pub enum AggregationType {
    /// The arithmetic sum of the group's values.
    Sum,
    /// The number of rows in the group.
    Count,
}

/// The name of an aggregation function, as it shows in column names.
pub open spec fn agg_name(agg_type: AggregationType) -> Seq<char> {
    match agg_type {
        AggregationType::Sum => seq!['S', 'u', 'm'],
        AggregationType::Count => seq!['C', 'o', 'u', 'n', 't'],
    }
}

impl AggregationType {
    /// The name of the function: `Sum` or `Count`.
    pub fn name(&self) -> (r: &'static str)
        ensures
            r@ == agg_name(*self),
    {
        proof {
            reveal_strlit("Sum");
            reveal_strlit("Count");
        }
        let r = match self {
            AggregationType::Sum => "Sum",
            AggregationType::Count => "Count",
        };
        assert(r@ =~= agg_name(*self));
        r
    }
}

/// The texts of a column at the given row positions, in their order.
pub open spec fn texts_at(texts: Seq<Seq<char>>, rows: Seq<usize>) -> Seq<Seq<char>> {
    Seq::new(rows.len(), |i: int| texts[rows[i] as int])
}

/// Whether every one of the row positions is below `n`.
pub open spec fn rows_in_range(rows: Seq<usize>, n: nat) -> bool {
    forall|i: int| 0 <= i < rows.len() ==> (#[trigger] rows[i]) < n
}

/// Whether every one of the texts is a floating-point literal.
pub open spec fn all_float_literals(texts: Seq<Seq<char>>) -> bool {
    forall|i: int| 0 <= i < texts.len() ==> is_float_literal(#[trigger] texts[i])
}

/// Why the values of a column at the given rows cannot be summed, if they
/// cannot: `IndexError` where a row position is past the end of the column,
/// and else `NonNumericValue` where one of the values is no number.
pub open spec fn sum_failure(texts: Seq<Seq<char>>, rows: Seq<usize>) -> Option<TableError> {
    if !rows_in_range(rows, texts.len()) {
        Some(TableError::IndexError)
    } else if !all_float_literals(texts_at(texts, rows)) {
        Some(TableError::NonNumericValue)
    } else {
        None
    }
}

/// Whether every value of the column at `value_idx`, in its text form, is a
/// floating-point literal.
pub fn column_is_numeric(table: &Table, value_idx: usize) -> (r: bool)
    requires
        value_idx < table@.len(),
    ensures
        r == all_float_literals(table@[value_idx as int].texts),
{
    let column = &table.columns[value_idx];
    let ghost texts = table@[value_idx as int].texts;
    assert(column@.texts == texts);
    let n = column.len();
    let mut i: usize = 0;
    while i < n
        invariant
            value_idx < table@.len(),
            texts == table@[value_idx as int].texts,
            column@.texts == texts,
            n == texts.len(),
            i <= n,
            forall|k: int| 0 <= k < i ==> is_float_literal(#[trigger] texts[k]),
        decreases n - i,
    {
        let text = column.get_as_string(i).unwrap();
        if !check_float_literal(text.as_str()) {
            assert(!is_float_literal(texts[i as int]));
            return false;
        }
        i += 1;
    }
    true
}

/// Whether `sum` can be called on any sequence of floating-point literals
/// that is not empty.
pub open spec fn sums_literals<F: Fn(&Vec<String>) -> String>(sum: F) -> bool {
    forall|xs: Vec<String>|
        xs@.len() > 0 && all_float_literals(#[trigger] texts_of(xs@)) ==> call_requires(
            sum,
            (&xs,),
        )
}

/// Whether `total` is what `sum` gave for the addends with the given texts.
pub open spec fn is_sum_of<F: Fn(&Vec<String>) -> String>(
    sum: F,
    addends: Seq<Seq<char>>,
    total: String,
) -> bool {
    exists|xs: Vec<String>| texts_of(xs@) == addends && #[trigger] call_ensures(sum, (&xs,), total)
}

/// The text of the number zero: what a sum of nothing is, and what stands in
/// a pivot table where no row is aggregated.
pub open spec fn zero_text() -> Seq<char> {
    seq!['0']
}

/// Whether `total` is the sum of the addends with the given texts: zero
/// where there is none, and else what `sum` gave for them.
pub open spec fn is_total_of<F: Fn(&Vec<String>) -> String>(
    sum: F,
    addends: Seq<Seq<char>>,
    total: String,
) -> bool {
    if addends.len() == 0 {
        total@ == zero_text()
    } else {
        is_sum_of(sum, addends, total)
    }
}

/// Reduces the rows at the given positions to one number, handed out as the
/// text of its literal.
///
/// `Count` gives the number of positions, whatever they are. `Sum` reads the
/// value of each row in the column at `value_idx` and gives what `sum` makes of
/// their texts, in the order of the positions, and `0` where there is no
/// position; it fails with `IndexError` where a position is past the end,
/// and else with `NonNumericValue` where a value is no number. `sum` is
/// called on floating-point literals only, and on one at least.
pub fn aggregate_rows<F: Fn(&Vec<String>) -> String>(
    table: &Table,
    rows: &[usize],
    value_idx: usize,
    agg_type: AggregationType,
    sum: &F,
) -> (r: Result<String, TableError>)
    requires
        table.wf(),
        value_idx < table@.len(),
        agg_type == AggregationType::Sum ==> sums_literals(*sum),
    ensures
        agg_type == AggregationType::Count ==> r is Ok && r->Ok_0@ == nat_text(rows@.len()),
        agg_type == AggregationType::Sum ==> match sum_failure(
            table@[value_idx as int].texts,
            rows@,
        ) {
            Some(e) => r == Err::<String, TableError>(e),
            None => r is Ok && is_total_of(
                *sum,
                texts_at(table@[value_idx as int].texts, rows@),
                r->Ok_0,
            ),
        },
{
    match agg_type {
        AggregationType::Count => Ok(format_u64(rows.len() as u64)),
        AggregationType::Sum => {
            let column = &table.columns[value_idx];
            let ghost texts = table@[value_idx as int].texts;
            assert(column@ == table@[value_idx as int]);
            let n = column.len();
            let mut i: usize = 0;
            while i < rows.len()
                invariant
                    agg_type == AggregationType::Sum,
                    value_idx < table@.len(),
                    texts == table@[value_idx as int].texts,
                    i <= rows@.len(),
                    n == texts.len(),
                    forall|k: int| 0 <= k < i ==> (#[trigger] rows@[k]) < n,
                decreases rows@.len() - i,
            {
                if rows[i] >= n {
                    return Err(TableError::IndexError);
                }
                i += 1;
            }
            let mut addends: Vec<String> = Vec::new();
            i = 0;
            while i < rows.len()
                invariant
                    agg_type == AggregationType::Sum,
                    value_idx < table@.len(),
                    texts == table@[value_idx as int].texts,
                    i <= rows@.len(),
                    column@.texts == texts,
                    rows_in_range(rows@, texts.len()),
                    addends@.len() == i,
                    forall|k: int|
                        0 <= k < i ==> (#[trigger] addends@[k])@ == texts[rows@[k] as int],
                    forall|k: int|
                        0 <= k < i ==> is_float_literal(#[trigger] texts_at(texts, rows@)[k]),
                decreases rows@.len() - i,
            {
                let text = column.get_as_string(rows[i]).unwrap();
                if !check_float_literal(text.as_str()) {
                    assert(!is_float_literal(texts_at(texts, rows@)[i as int]));
                    return Err(TableError::NonNumericValue);
                }
                addends.push(text);
                i += 1;
            }
            assert(texts_of(addends@) =~= texts_at(texts, rows@));
            if addends.len() == 0 {
                proof {
                    reveal_strlit("0");
                    assert("0"@ =~= zero_text());
                }
                return Ok(String::from_str("0"));
            }
            let total = sum(&addends);
            Ok(total)
        },
    }
}

/// Whether `value` is what a group of rows reduces to: their number under
/// `Count`, and under `Sum` what `sum` gave for the texts of their values.
pub open spec fn is_aggregate_of<F: Fn(&Vec<String>) -> String>(
    sum: F,
    agg_type: AggregationType,
    texts: Seq<Seq<char>>,
    rows: Seq<usize>,
    value: String,
) -> bool {
    match agg_type {
        AggregationType::Count => value@ == nat_text(rows.len()),
        AggregationType::Sum => is_total_of(sum, texts_at(texts, rows), value),
    }
}

/// Why the first `n` groups cannot all be reduced, if they cannot: the
/// failure of the first group that fails. Counting never fails.
pub open spec fn groups_failure(
    agg_type: AggregationType,
    texts: Seq<Seq<char>>,
    buckets: Seq<Seq<usize>>,
    n: nat,
) -> Option<TableError>
    decreases n,
{
    if n == 0 {
        None
    } else {
        match groups_failure(agg_type, texts, buckets, (n - 1) as nat) {
            Some(e) => Some(e),
            None => if agg_type == AggregationType::Sum {
                sum_failure(texts, buckets[n - 1])
            } else {
                None
            },
        }
    }
}

/// Reduces each group of an index to one number over the column called
/// `column`. The numbers come in the order of the index's keys, each as the
/// text of its literal; see [`aggregate_rows`] for what each is.
///
/// The result is `ColumnNotFound` where the table has no such column, and
/// else the failure of the first group that cannot be reduced.
pub fn aggregate<F: Fn(&Vec<String>) -> String>(
    table: &Table,
    groups: &GroupIndex,
    column: &str,
    agg_type: AggregationType,
    sum: &F,
) -> (r: Result<Vec<String>, TableError>)
    requires
        table.wf(),
        agg_type == AggregationType::Sum ==> sums_literals(*sum),
    ensures
        !names_of(table@).contains(column@) ==> r == Err::<Vec<String>, TableError>(
            TableError::ColumnNotFound,
        ),
        names_of(table@).contains(column@) ==> match groups_failure(
            agg_type,
            column_of(table@, column@).texts,
            groups@.buckets,
            groups@.buckets.len(),
        ) {
            Some(e) => r == Err::<Vec<String>, TableError>(e),
            None => r is Ok && r->Ok_0@.len() == groups@.buckets.len() && forall|g: int|
                0 <= g < groups@.buckets.len() ==> is_aggregate_of(
                    *sum,
                    agg_type,
                    column_of(table@, column@).texts,
                    groups@.buckets[g],
                    #[trigger] r->Ok_0@[g],
                ),
        },
{
    let value_idx = match table.get_column_index(column) {
        Some(c) => c,
        None => {
            return Err(TableError::ColumnNotFound);
        },
    };
    proof {
        lemma_column_of(table@, value_idx as int);
    }
    let ghost texts = column_of(table@, column@).texts;
    let ghost buckets = groups@.buckets;
    let count = groups.len();
    let mut values: Vec<String> = Vec::new();
    let mut g: usize = 0;
    while g < count
        invariant
            table.wf(),
            names_of(table@).contains(column@),
            texts == column_of(table@, column@).texts,
            count == buckets.len(),
            agg_type == AggregationType::Sum ==> sums_literals(*sum),
            value_idx < table@.len(),
            texts == table@[value_idx as int].texts,
            buckets == groups@.buckets,
            buckets.len() == groups@.keys.len(),
            g <= buckets.len(),
            groups_failure(agg_type, texts, buckets, g as nat) is None,
            values@.len() == g,
            forall|k: int|
                0 <= k < g ==>
                    is_aggregate_of(*sum, agg_type, texts, buckets[k], #[trigger] values@[k]),
        decreases buckets.len() - g,
    {
        let rows = groups.bucket(g);
        match aggregate_rows(table, rows.as_slice(), value_idx, agg_type, sum) {
            Ok(value) => {
                values.push(value);
            },
            Err(e) => {
                proof {
                    lemma_groups_failure_stays(
                        agg_type,
                        texts,
                        buckets,
                        (g + 1) as nat,
                        buckets.len(),
                    );
                }
                return Err(e);
            },
        }
        g += 1;
    }
    Ok(values)
}

/// Once a group has failed, taking more groups in does not change the
/// failure.
proof fn lemma_groups_failure_stays(
    agg_type: AggregationType,
    texts: Seq<Seq<char>>,
    buckets: Seq<Seq<usize>>,
    n: nat,
    m: nat,
)
    requires
        n <= m,
        groups_failure(agg_type, texts, buckets, n) is Some,
    ensures
        groups_failure(agg_type, texts, buckets, m) == groups_failure(agg_type, texts, buckets, n),
    decreases m - n,
{
    if n < m {
        lemma_groups_failure_stays(agg_type, texts, buckets, n, (m - 1) as nat);
    }
}

} // verus!
