//! Pivot tables: reshaping a table from long form to wide form.

use crate::columns::column_trait::{
    gives_normal_literals, is_canonical_form, is_held, is_literal, is_normal_form,
    normalises_literals, ColumnModel, ColumnType,
};
use crate::error::TableError;
use crate::group_index::GroupIndex;
use crate::grouping::{
    column_of, has_columns, index_of_table, key_text, key_to_text, keys_upto, lemma_column_of,
    lemma_index_lookup, lemma_keys_upto, row_key, rows_with_key, strs_view,
};
use crate::methods::aggregation::{
    agg_name, aggregate_rows, all_float_literals, column_is_numeric, is_sum_of, sums_literals,
    texts_at, zero_text, AggregationType,
};
use crate::order::{is_text_order, sort_by_text, text_order, texts_of};
use crate::table::{is_stored_row, names_of, row_count, values_accepted, with_texts, Table};
use crate::text::{is_float_literal, lemma_nat_text_is_float_literal, nat_text};
use vstd::prelude::*;
use vstd::string::*;

verus! {

/// The text forms of a sequence of keys.
pub open spec fn key_texts(keys: Seq<Seq<Seq<char>>>) -> Seq<Seq<char>> {
    Seq::new(keys.len(), |i: int| key_text(keys[i]))
}

/// The distinct keys of a table over the named columns, in ascending order of
/// their text forms. Keys with the same text form, which takes a bar inside a
/// value, stand in the order in which the table first shows them.
pub open spec fn sorted_keys(t: Seq<ColumnModel>, names: Seq<Seq<char>>) -> Seq<Seq<Seq<char>>> {
    Seq::new(
        keys_upto(t, names, row_count(t)).len(),
        |i: int|
            keys_upto(t, names, row_count(t))[text_order(
                key_texts(keys_upto(t, names, row_count(t))),
            )[i] as int],
    )
}

/// The name of the column of a pivot table that stands for a key: the key's
/// text form, an underscore, and the name of the aggregation function.
pub open spec fn pivot_column_name(key: Seq<Seq<char>>, agg_type: AggregationType) -> Seq<char> {
    key_text(key) + seq!['_'] + agg_name(agg_type)
}

/// The column names of a pivot table: the names of the row-group columns,
/// then one name for each distinct key of the column-group columns, in sorted
/// order.
pub open spec fn pivot_names(
    t: Seq<ColumnModel>,
    row_groups: Seq<Seq<char>>,
    col_groups: Seq<Seq<char>>,
    agg_type: AggregationType,
) -> Seq<Seq<char>> {
    row_groups + Seq::new(
        sorted_keys(t, col_groups).len(),
        |j: int| pivot_column_name(sorted_keys(t, col_groups)[j], agg_type),
    )
}

/// The positions, ascending, of the rows that have the key `row_key` over the
/// row-group columns and the key `col_key` over the column-group columns.
pub open spec fn cell_rows(
    t: Seq<ColumnModel>,
    row_groups: Seq<Seq<char>>,
    col_groups: Seq<Seq<char>>,
    row_key: Seq<Seq<char>>,
    col_key: Seq<Seq<char>>,
) -> Seq<usize> {
    rows_with_key(t, row_groups + col_groups, row_key + col_key, row_count(t))
}

/// Whether `text` is a literal of the number that a cell of a pivot table
/// holds for the given rows, as it is before it is brought into normal form:
/// zero where there is no row, and else the number of the rows under `Count`
/// and what `sum` gave for their values under `Sum`.
pub open spec fn is_cell_number<F: Fn(&Vec<String>) -> String>(
    sum: F,
    agg_type: AggregationType,
    values: Seq<Seq<char>>,
    rows: Seq<usize>,
    text: Seq<char>,
) -> bool {
    if rows.len() == 0 {
        text == zero_text()
    } else {
        match agg_type {
            AggregationType::Count => text == nat_text(rows.len()),
            AggregationType::Sum => exists|total: String|
                total@ == text && #[trigger] is_sum_of(sum, texts_at(values, rows), total),
        }
    }
}

/// Whether `text` is what a cell of a pivot table holds for the given rows:
/// the normal form, as `normal` gave it, of a literal of the cell's number;
/// see [`is_cell_number`].
pub open spec fn is_pivot_cell<F: Fn(&Vec<String>) -> String, N: Fn(&str) -> String>(
    sum: F,
    normal: N,
    agg_type: AggregationType,
    values: Seq<Seq<char>>,
    rows: Seq<usize>,
    text: Seq<char>,
) -> bool {
    exists|number: Seq<char>|
        #[trigger] is_cell_number(sum, agg_type, values, rows, number) && is_float_literal(number)
            && is_normal_form(normal, number, text)
}

/// Whether `column` is the column of a pivot table for the row-group column
/// at position `j`: a column of texts that holds, for each of the first `n`
/// row keys, the key's text at `j`.
pub open spec fn is_group_column(
    column: ColumnModel,
    row_keys: Seq<Seq<Seq<char>>>,
    n: int,
    j: int,
) -> bool {
    &&& column.kind == ColumnType::String
    &&& column.texts == Seq::new(n as nat, |i: int| row_keys[i][j])
}

/// Whether `column` is the column of a pivot table for the column key
/// `col_key`: a column of numbers that holds, for each of the first `n` row
/// keys, the aggregate of the rows with that row key and that column key.
pub open spec fn is_value_column<F: Fn(&Vec<String>) -> String, N: Fn(&str) -> String>(
    sum: F,
    normal: N,
    agg_type: AggregationType,
    t: Seq<ColumnModel>,
    row_groups: Seq<Seq<char>>,
    col_groups: Seq<Seq<char>>,
    value_col: Seq<char>,
    column: ColumnModel,
    row_keys: Seq<Seq<Seq<char>>>,
    n: int,
    col_key: Seq<Seq<char>>,
) -> bool {
    &&& column.kind == ColumnType::Float
    &&& column.texts.len() == n
    &&& forall|i: int|
        0 <= i < n ==> is_float_literal(column.texts[i]) && is_pivot_cell(
            sum,
            normal,
            agg_type,
            column_of(t, value_col).texts,
            cell_rows(t, row_groups, col_groups, row_keys[i], col_key),
            #[trigger] column.texts[i],
        )
}

/// Whether `out` holds the first `n` rows of the pivot table of `t`.
pub open spec fn is_pivot_upto<F: Fn(&Vec<String>) -> String, N: Fn(&str) -> String>(
    sum: F,
    normal: N,
    agg_type: AggregationType,
    t: Seq<ColumnModel>,
    row_groups: Seq<Seq<char>>,
    col_groups: Seq<Seq<char>>,
    value_col: Seq<char>,
    out: Seq<ColumnModel>,
    n: int,
) -> bool {
    &&& names_of(out) == pivot_names(t, row_groups, col_groups, agg_type)
    &&& forall|j: int|
        0 <= j < row_groups.len() ==> is_group_column(
            #[trigger] out[j],
            sorted_keys(t, row_groups),
            n,
            j,
        )
    &&& forall|j: int|
        0 <= j < sorted_keys(t, col_groups).len() ==> is_value_column(
            sum,
            normal,
            agg_type,
            t,
            row_groups,
            col_groups,
            value_col,
            out[row_groups.len() + j],
            sorted_keys(t, row_groups),
            n,
            #[trigger] sorted_keys(t, col_groups)[j],
        )
}

/// Whether `out` is the pivot table of `t`: a column of texts for each
/// row-group column and a column of numbers for each distinct column key, in
/// sorted order, with one row for each distinct row key, in sorted order.
pub open spec fn is_pivot_of<F: Fn(&Vec<String>) -> String, N: Fn(&str) -> String>(
    sum: F,
    normal: N,
    agg_type: AggregationType,
    t: Seq<ColumnModel>,
    row_groups: Seq<Seq<char>>,
    col_groups: Seq<Seq<char>>,
    value_col: Seq<char>,
    out: Seq<ColumnModel>,
) -> bool {
    is_pivot_upto(
        sum,
        normal,
        agg_type,
        t,
        row_groups,
        col_groups,
        value_col,
        out,
        sorted_keys(t, row_groups).len() as int,
    )
}

/// Whether whatever `sum` gives is a floating-point literal.
pub open spec fn gives_literals<F: Fn(&Vec<String>) -> String>(sum: F) -> bool {
    forall|xs: Vec<String>, total: String|
        #[trigger] call_ensures(sum, (&xs,), total) ==> is_float_literal(total@)
}

/// The text forms of the keys of an index, and the order in which the keys
/// ascend by text form.
fn key_order(index: &GroupIndex) -> (r: (Vec<String>, Vec<usize>))
    ensures
        texts_of(r.0@) == key_texts(index@.keys),
        is_text_order(key_texts(index@.keys), r.1@),
        r.1@ == text_order(key_texts(index@.keys)),
{
    let n = index.len();
    let mut texts: Vec<String> = Vec::new();
    let mut i: usize = 0;
    while i < n
        invariant
            n == index@.keys.len(),
            i <= n,
            texts@.len() == i,
            forall|k: int| 0 <= k < i ==> (#[trigger] texts@[k])@ == key_text(index@.keys[k]),
        decreases n - i,
    {
        texts.push(key_to_text(index.key(i)));
        i += 1;
    }
    assert(texts_of(texts@) =~= key_texts(index@.keys));
    let order = sort_by_text(&texts);
    (texts, order)
}

/// The names of `first` and then those of `second`.
fn concat_names<'a>(first: &[&'a str], second: &[&'a str]) -> (r: Vec<&'a str>)
    ensures
        strs_view(r@) == strs_view(first@) + strs_view(second@),
{
    let mut all: Vec<&'a str> = Vec::new();
    let mut i: usize = 0;
    while i < first.len()
        invariant
            i <= first@.len(),
            all@.len() == i,
            forall|k: int| 0 <= k < i ==> all@[k]@ == first@[k]@,
        decreases first@.len() - i,
    {
        all.push(first[i]);
        i += 1;
    }
    i = 0;
    while i < second.len()
        invariant
            i <= second@.len(),
            all@.len() == first@.len() + i,
            forall|k: int| 0 <= k < first@.len() ==> all@[k]@ == first@[k]@,
            forall|k: int| 0 <= k < i ==> all@[first@.len() + k]@ == second@[k]@,
        decreases second@.len() - i,
    {
        all.push(second[i]);
        i += 1;
    }
    assert(strs_view(all@) =~= strs_view(first@) + strs_view(second@));
    all
}

/// The texts of `first` and then those of `second`.
fn concat_keys(first: &Vec<String>, second: &Vec<String>) -> (r: Vec<String>)
    ensures
        texts_of(r@) == texts_of(first@) + texts_of(second@),
{
    let mut all: Vec<String> = Vec::new();
    let mut i: usize = 0;
    while i < first.len()
        invariant
            i <= first@.len(),
            all@.len() == i,
            forall|k: int| 0 <= k < i ==> all@[k]@ == first@[k]@,
        decreases first@.len() - i,
    {
        all.push(first[i].clone());
        i += 1;
    }
    i = 0;
    while i < second.len()
        invariant
            i <= second@.len(),
            all@.len() == first@.len() + i,
            forall|k: int| 0 <= k < first@.len() ==> all@[k]@ == first@[k]@,
            forall|k: int| 0 <= k < i ==> all@[first@.len() + k]@ == second@[k]@,
        decreases second@.len() - i,
    {
        all.push(second[i].clone());
        i += 1;
    }
    assert(texts_of(all@) =~= texts_of(first@) + texts_of(second@));
    all
}

/// The column names of a pivot table, from the names of the row-group
/// columns and the text forms of the column keys in the given order.
pub open spec fn header_names(
    row_groups: Seq<Seq<char>>,
    texts: Seq<Seq<char>>,
    order: Seq<usize>,
    agg_type: AggregationType,
) -> Seq<Seq<char>> {
    row_groups + Seq::new(
        order.len(),
        |j: int| texts[order[j] as int] + seq!['_'] + agg_name(agg_type),
    )
}

/// Whether `out` is an empty table with the first `n` of the given column
/// names: columns of texts for the first `groups` of them, columns of numbers
/// for the others.
pub open spec fn is_header(
    out: Seq<ColumnModel>,
    names: Seq<Seq<char>>,
    groups: int,
    n: int,
) -> bool {
    &&& out.len() == n
    &&& forall|c: int|
        0 <= c < n ==> #[trigger] out[c] == (ColumnModel {
            name: names[c],
            kind: if c < groups {
                ColumnType::String
            } else {
                ColumnType::Float
            },
            texts: Seq::empty(),
        })
}

/// An empty table with the columns of a pivot table; `DuplicateColumn` where
/// two of them would have the same name.
fn pivot_columns(
    row_groups: &[&str],
    col_texts: &Vec<String>,
    col_order: &Vec<usize>,
    agg_type: AggregationType,
) -> (r: Result<Table, TableError>)
    requires
        forall|j: int| 0 <= j < col_order@.len() ==> (#[trigger] col_order@[j]) < col_texts@.len(),
    ensures
        header_names(
            strs_view(row_groups@),
            texts_of(col_texts@),
            col_order@,
            agg_type,
        ).no_duplicates() ==> r is Ok && r->Ok_0.wf() && is_header(
            r->Ok_0@,
            header_names(strs_view(row_groups@), texts_of(col_texts@), col_order@, agg_type),
            row_groups@.len() as int,
            (row_groups@.len() + col_order@.len()) as int,
        ),
        !header_names(
            strs_view(row_groups@),
            texts_of(col_texts@),
            col_order@,
            agg_type,
        ).no_duplicates() ==> r == Err::<Table, TableError>(TableError::DuplicateColumn),
{
    let ghost groups_view = strs_view(row_groups@);
    let ghost names = header_names(groups_view, texts_of(col_texts@), col_order@, agg_type);
    let ghost groups = row_groups@.len() as int;
    let mut out = Table::new();
    let mut j: usize = 0;
    while j < row_groups.len()
        invariant
            groups_view == strs_view(row_groups@),
            names == header_names(groups_view, texts_of(col_texts@), col_order@, agg_type),
            groups == row_groups@.len(),
            j <= groups,
            out.wf(),
            is_header(out@, names, groups, j as int),
        decreases groups - j,
    {
        let ghost before = out@;
        assert(names[j as int] == row_groups@[j as int]@);
        match out.add_string_column(row_groups[j]) {
            Ok(()) => {},
            Err(e) => {
                proof {
                    let k = names_of(before).index_of(names[j as int]);
                    assert(before[k].name == names[k]);
                    assert(names[k] == names[j as int]);
                }
                return Err(e);
            },
        }
        j += 1;
    }
    j = 0;
    while j < col_order.len()
        invariant
            groups_view == strs_view(row_groups@),
            names == header_names(groups_view, texts_of(col_texts@), col_order@, agg_type),
            groups == row_groups@.len(),
            forall|k: int|
                0 <= k < col_order@.len() ==> (#[trigger] col_order@[k]) < col_texts@.len(),
            j <= col_order@.len(),
            out.wf(),
            is_header(out@, names, groups, groups + j),
        decreases col_order@.len() - j,
    {
        let ghost before = out@;
        let mut name = col_texts[col_order[j]].clone();
        name.append("_");
        name.append(agg_type.name());
        proof {
            reveal_strlit("_");
            assert(name@ =~= names[groups + j]);
        }
        match out.add_float_column(name.as_str()) {
            Ok(()) => {},
            Err(e) => {
                proof {
                    let k = names_of(before).index_of(names[groups + j]);
                    assert(before[k].name == names[k]);
                    assert(names[k] == names[groups + j]);
                }
                return Err(e);
            },
        }
        j += 1;
    }
    proof {
        assert forall|a: int, b: int| 0 <= a < names.len() && 0 <= b < names.len() && a
            != b implies names[a] != names[b] by {
            if a < b {
                assert(out@[a].name != out@[b].name);
            } else {
                assert(out@[b].name != out@[a].name);
            }
        }
    }
    Ok(out)
}

/// Why a table cannot be pivoted, if it cannot: `ColumnNotFound` where it
/// lacks the value column or a grouping column; else `DuplicateColumn` where
/// two columns of the pivot table would have the same name; else, under
/// `Sum`, `NonNumericValue` where a value of the value column is no number.
pub open spec fn pivot_failure(
    t: Seq<ColumnModel>,
    row_groups: Seq<Seq<char>>,
    col_groups: Seq<Seq<char>>,
    value_col: Seq<char>,
    agg_type: AggregationType,
) -> Option<TableError> {
    if !(names_of(t).contains(value_col) && has_columns(t, row_groups) && has_columns(
        t,
        col_groups,
    )) {
        Some(TableError::ColumnNotFound)
    } else if !pivot_names(t, row_groups, col_groups, agg_type).no_duplicates() {
        Some(TableError::DuplicateColumn)
    } else if agg_type == AggregationType::Sum && !all_float_literals(
        column_of(t, value_col).texts,
    ) {
        Some(TableError::NonNumericValue)
    } else {
        None
    }
}

/// Every distinct key of a table has one text for each of the named columns.
proof fn lemma_key_lengths(t: Seq<ColumnModel>, names: Seq<Seq<char>>, n: nat)
    ensures
        forall|j: int|
            0 <= j < keys_upto(t, names, n).len() ==> (#[trigger] keys_upto(t, names, n)[j]).len()
                == names.len(),
{
    lemma_keys_upto(t, names, n);
    assert forall|j: int| 0 <= j < keys_upto(t, names, n).len() implies (#[trigger] keys_upto(
        t,
        names,
        n,
    )[j]).len() == names.len() by {
        let r = choose|r: int| 0 <= r < n && row_key(t, names, r) == keys_upto(t, names, n)[j];
        assert(row_key(t, names, r).len() == names.len());
    }
}

/// The text of one cell of a pivot table: the aggregate of the rows that
/// have the key `key` over the named columns, or zero where there is none.
fn pivot_cell<F: Fn(&Vec<String>) -> String>(
    table: &Table,
    cell_index: &GroupIndex,
    key: &Vec<String>,
    value_idx: usize,
    agg_type: AggregationType,
    sum: &F,
    Ghost(names): Ghost<Seq<Seq<char>>>,
) -> (text: String)
    requires
        table.wf(),
        row_count(table@) <= usize::MAX,
        agg_type == AggregationType::Sum ==> sums_literals(*sum),
        value_idx < table@.len(),
        agg_type == AggregationType::Sum ==> all_float_literals(table@[value_idx as int].texts),
        cell_index.wf(),
        cell_index@ == index_of_table(table@, names),
    ensures
        is_cell_number(
            *sum,
            agg_type,
            table@[value_idx as int].texts,
            rows_with_key(table@, names, texts_of(key@), row_count(table@)),
            text@,
        ),
{
    let ghost values = table@[value_idx as int].texts;
    let ghost rows = rows_with_key(table@, names, texts_of(key@), row_count(table@));
    proof {
        lemma_index_lookup(table@, names, texts_of(key@));
    }
    match cell_index.get(key) {
        Some(found) => {
            proof {
                assert(values.len() == row_count(table@));
                assert forall|i: int| 0 <= i < rows.len() implies
                    values[(#[trigger] rows[i]) as int] == texts_at(values, rows)[i] by {}
            }
            match aggregate_rows(table, found.as_slice(), value_idx, agg_type, sum) {
                Ok(total) => total,
                Err(_) => String::new(),
            }
        },
        None => {
            proof {
                reveal_strlit("0");
                assert("0"@ =~= zero_text());
            }
            String::from_str("0")
        },
    }
}

/// The texts of one row of a pivot table: the texts of the row key, then for
/// each column key, in the given order, the aggregate of the rows that have
/// both keys.
fn pivot_cells<F: Fn(&Vec<String>) -> String>(
    table: &Table,
    key: &Vec<String>,
    col_index: &GroupIndex,
    col_order: &Vec<usize>,
    cell_index: &GroupIndex,
    value_idx: usize,
    agg_type: AggregationType,
    sum: &F,
    Ghost(row_groups): Ghost<Seq<Seq<char>>>,
    Ghost(col_groups): Ghost<Seq<Seq<char>>>,
) -> (texts: Vec<String>)
    requires
        table.wf(),
        row_count(table@) <= usize::MAX,
        agg_type == AggregationType::Sum ==> sums_literals(*sum),
        value_idx < table@.len(),
        agg_type == AggregationType::Sum ==> all_float_literals(table@[value_idx as int].texts),
        col_index@ == index_of_table(table@, col_groups),
        cell_index.wf(),
        cell_index@ == index_of_table(table@, row_groups + col_groups),
        forall|j: int|
            0 <= j < col_order@.len() ==> (#[trigger] col_order@[j]) < col_index@.keys.len(),
    ensures
        texts@.len() == key@.len() + col_order@.len(),
        forall|j: int| 0 <= j < key@.len() ==> (#[trigger] texts@[j])@ == key@[j]@,
        forall|j: int|
            0 <= j < col_order@.len() ==> is_cell_number(
                *sum,
                agg_type,
                table@[value_idx as int].texts,
                cell_rows(
                    table@,
                    row_groups,
                    col_groups,
                    texts_of(key@),
                    col_index@.keys[col_order@[j] as int],
                ),
                (#[trigger] texts@[key@.len() + j])@,
            ),
{
    let mut texts: Vec<String> = Vec::new();
    let mut j: usize = 0;
    while j < key.len()
        invariant
            j <= key@.len(),
            texts@.len() == j,
            forall|k: int| 0 <= k < j ==> (#[trigger] texts@[k])@ == key@[k]@,
        decreases key@.len() - j,
    {
        texts.push(key[j].clone());
        j += 1;
    }
    j = 0;
    while j < col_order.len()
        invariant
            table.wf(),
            row_count(table@) <= usize::MAX,
            agg_type == AggregationType::Sum ==> sums_literals(*sum),
            value_idx < table@.len(),
            agg_type == AggregationType::Sum ==> all_float_literals(table@[value_idx as int].texts),
            col_index@ == index_of_table(table@, col_groups),
            cell_index.wf(),
            cell_index@ == index_of_table(table@, row_groups + col_groups),
            forall|k: int|
                0 <= k < col_order@.len() ==> (#[trigger] col_order@[k]) < col_index@.keys.len(),
            j <= col_order@.len(),
            texts@.len() == key@.len() + j,
            forall|k: int| 0 <= k < key@.len() ==> (#[trigger] texts@[k])@ == key@[k]@,
            forall|k: int|
                0 <= k < j ==> is_cell_number(
                    *sum,
                    agg_type,
                    table@[value_idx as int].texts,
                    cell_rows(
                        table@,
                        row_groups,
                        col_groups,
                        texts_of(key@),
                        col_index@.keys[col_order@[k] as int],
                    ),
                    (#[trigger] texts@[key@.len() + k])@,
                ),
        decreases col_order@.len() - j,
    {
        let both = concat_keys(key, col_index.key(col_order[j]));
        let text = pivot_cell(
            table,
            cell_index,
            &both,
            value_idx,
            agg_type,
            sum,
            Ghost(row_groups + col_groups),
        );
        let ghost before = texts@;
        texts.push(text);
        assert forall|k: int| 0 <= k < j + 1 implies is_cell_number(
            *sum,
            agg_type,
            table@[value_idx as int].texts,
            cell_rows(
                table@,
                row_groups,
                col_groups,
                texts_of(key@),
                col_index@.keys[col_order@[k] as int],
            ),
            (#[trigger] texts@[key@.len() + k])@,
        ) by {
            if k < j {
                assert(texts@[key@.len() + k] == before[key@.len() + k]);
            }
        }
        j += 1;
    }
    texts
}

/// Pivots a table: one row for each distinct combination of values of the
/// row-group columns, one column for each distinct combination of values of
/// the column-group columns, and in each cell the aggregate, over the value
/// column, of the rows that show both combinations.
///
/// The result has a column of texts for each row-group column, under its
/// name, and behind them a column of numbers for each column key, named by
/// the key's text form, an underscore and the name of the aggregation
/// function. Rows and value columns stand in ascending order of the text
/// forms of their keys. The number of a cell that no row falls in is `0`;
/// that of any other is the number of its rows under `Count`, and under `Sum`
/// what `sum` gave for the values of its rows in the order of the rows. A
/// cell holds its number in the normal form that `normal` gives the literal
/// of the number. `sum` and `normal` are called on floating-point literals
/// only.
///
/// The failures, in this order: `ColumnNotFound` where the table lacks the
/// value column or a grouping column; `DuplicateColumn` where two columns of
/// the result would have the same name; under `Sum`, `NonNumericValue` where
/// a value of the value column is no number; `ParseError` where `sum` or
/// `normal` gave a text that is no number.
pub fn pivot<F: Fn(&Vec<String>) -> String, N: Fn(&str) -> String>(
    table: &Table,
    row_groups: &[&str],
    col_groups: &[&str],
    value_col: &str,
    agg_type: AggregationType,
    sum: &F,
    normal: &N,
) -> (r: Result<Table, TableError>)
    requires
        table.wf(),
        agg_type == AggregationType::Sum ==> sums_literals(*sum),
        row_count(table@) > 0 ==> normalises_literals(*normal),
    ensures
        match pivot_failure(
            table@,
            strs_view(row_groups@),
            strs_view(col_groups@),
            value_col@,
            agg_type,
        ) {
            Some(e) => r == Err::<Table, TableError>(e),
            None => match r {
                Ok(out) => out.wf() && is_pivot_of(
                    *sum,
                    *normal,
                    agg_type,
                    table@,
                    strs_view(row_groups@),
                    strs_view(col_groups@),
                    value_col@,
                    out@,
                ),
                Err(e) => e == TableError::ParseError && ((agg_type == AggregationType::Sum
                    && !gives_literals(*sum)) || !gives_normal_literals(*normal)),
            },
        },
{
    let ghost t = table@;
    let ghost rg = strs_view(row_groups@);
    let ghost cg = strs_view(col_groups@);
    let value_idx = match table.get_column_index(value_col) {
        Some(c) => c,
        None => {
            return Err(TableError::ColumnNotFound);
        },
    };
    let row_index = match table.create_multi_index(row_groups) {
        Ok(index) => index,
        Err(e) => {
            return Err(e);
        },
    };
    let col_index = match table.create_multi_index(col_groups) {
        Ok(index) => index,
        Err(e) => {
            return Err(e);
        },
    };
    let both = concat_names(row_groups, col_groups);
    proof {
        assert forall|j: int| 0 <= j < (rg + cg).len() implies names_of(t).contains(
            #[trigger] (rg + cg)[j],
        ) by {
            if j < rg.len() {
                assert((rg + cg)[j] == rg[j]);
            } else {
                assert((rg + cg)[j] == cg[j - rg.len()]);
            }
        }
    }
    let cell_index = match table.create_multi_index(both.as_slice()) {
        Ok(index) => index,
        Err(e) => {
            return Err(e);
        },
    };
    let n = table.len();
    let (_, row_order) = key_order(&row_index);
    let (col_texts, col_order) = key_order(&col_index);
    let ghost row_keys = sorted_keys(t, rg);
    let ghost col_keys = sorted_keys(t, cg);
    let ghost names = pivot_names(t, rg, cg, agg_type);
    proof {
        lemma_column_of(t, value_idx as int);
        lemma_key_lengths(t, rg, n as nat);
        assert(header_names(rg, texts_of(col_texts@), col_order@, agg_type) =~= names);
    }
    let mut out = match pivot_columns(row_groups, &col_texts, &col_order, agg_type) {
        Ok(out) => out,
        Err(e) => {
            return Err(e);
        },
    };
    match agg_type {
        AggregationType::Sum => {
            if !column_is_numeric(table, value_idx) {
                return Err(TableError::NonNumericValue);
            }
        },
        AggregationType::Count => {},
    }
    let groups = row_groups.len();
    let mut i: usize = 0;
    proof {
        assert(is_pivot_upto(*sum, *normal, agg_type, t, rg, cg, value_col@, out@, 0)) by {
            assert(names_of(out@) =~= names);
            assert forall|j: int| 0 <= j < rg.len() implies is_group_column(
                #[trigger] out@[j],
                row_keys,
                0,
                j,
            ) by {
                assert(out@[j].texts =~= Seq::new(0nat, |i: int| row_keys[i][j]));
            }
        }
    }
    while i < row_order.len()
        invariant
            t == table@,
            table.wf(),
            agg_type == AggregationType::Sum ==> sums_literals(*sum),
            rg == strs_view(row_groups@),
            cg == strs_view(col_groups@),
            groups == rg.len(),
            n == row_count(t),
            n > 0 ==> normalises_literals(*normal),
            value_idx < t.len(),
            t[value_idx as int] == column_of(t, value_col@),
            agg_type == AggregationType::Sum ==> all_float_literals(t[value_idx as int].texts),
            row_index@ == index_of_table(t, rg),
            col_index@ == index_of_table(t, cg),
            cell_index.wf(),
            cell_index@ == index_of_table(t, rg + cg),
            is_text_order(key_texts(row_index@.keys), row_order@),
            row_order@ == text_order(key_texts(row_index@.keys)),
            is_text_order(key_texts(col_index@.keys), col_order@),
            col_order@ == text_order(key_texts(col_index@.keys)),
            row_keys == sorted_keys(t, rg),
            col_keys == sorted_keys(t, cg),
            forall|j: int|
                0 <= j < keys_upto(t, rg, n as nat).len() ==>
                    (#[trigger] keys_upto(t, rg, n as nat)[j]).len()
                    == rg.len(),
            i <= row_order@.len(),
            out.wf(),
            out@.len() == groups + col_order@.len(),
            is_pivot_upto(*sum, *normal, agg_type, t, rg, cg, value_col@, out@, i as int),
            pivot_failure(t, rg, cg, value_col@, agg_type) is None,
        decreases row_order@.len() - i,
    {
        let key = row_index.key(row_order[i]);
        let ghost rk = row_keys[i as int];
        assert(texts_of(key@) == rk);
        assert(key@.len() == texts_of(key@).len());
        let texts = pivot_cells(
            table,
            key,
            &col_index,
            &col_order,
            &cell_index,
            value_idx,
            agg_type,
            sum,
            Ghost(rg),
            Ghost(cg),
        );
        let ghost before = out@;
        let ghost given = texts_of(texts@);
        proof {
            if n == 0 {
                assert(keys_upto(t, rg, 0).len() == 0);
            }
            if agg_type == AggregationType::Count || gives_literals(*sum) {
                assert forall|c: int| 0 <= c < before.len() implies is_literal(
                    (#[trigger] before[c]).kind,
                    given[c],
                ) by {
                    if c < groups {
                        assert(is_group_column(before[c], row_keys, i as int, c));
                    } else {
                        let j = c - groups;
                        let ck = col_keys[j];
                        assert(is_value_column(
                            *sum,
                            *normal,
                            agg_type,
                            t,
                            rg,
                            cg,
                            value_col@,
                            before[groups + j],
                            row_keys,
                            i as int,
                            ck,
                        ));
                        assert(given[c] == texts@[key@.len() + j]@);
                        lemma_cell_number_is_literal(
                            *sum,
                            agg_type,
                            t[value_idx as int].texts,
                            cell_rows(t, rg, cg, rk, ck),
                            given[c],
                        );
                    }
                }
                assert(values_accepted(before, given));
            }
        }
        match out.push_values(&texts, normal) {
            Ok(()) => {},
            Err(e) => {
                return Err(e);
            },
        }
        proof {
            let stored = choose|stored: Seq<Seq<char>>|
                #[trigger] is_stored_row(*normal, before, given, stored) && out@ == with_texts(
                    before,
                    stored,
                );
            assert(names_of(out@) =~= names_of(before));
            assert forall|j: int| 0 <= j < rg.len() implies is_group_column(
                #[trigger] out@[j],
                row_keys,
                i + 1,
                j,
            ) by {
                assert(is_group_column(before[j], row_keys, i as int, j));
                assert(given[j] == texts@[j]@);
                assert(is_canonical_form(*normal, before[j].kind, given[j], stored[j]));
                assert(out@[j].texts =~= Seq::new((i + 1) as nat, |x: int| row_keys[x][j]));
            }
            assert forall|j: int| 0 <= j < col_keys.len() implies is_value_column(
                *sum,
                *normal,
                agg_type,
                t,
                rg,
                cg,
                value_col@,
                out@[rg.len() + j],
                row_keys,
                i + 1,
                #[trigger] col_keys[j],
            ) by {
                let ck = col_keys[j];
                let c = groups + j;
                assert(is_value_column(
                    *sum,
                    *normal,
                    agg_type,
                    t,
                    rg,
                    cg,
                    value_col@,
                    before[rg.len() + j],
                    row_keys,
                    i as int,
                    ck,
                ));
                assert(given[c] == texts@[key@.len() + j]@);
                assert(is_canonical_form(*normal, before[c].kind, given[c], stored[c]));
                assert(is_held(before[c].kind, stored[c]));
                assert(out@[c].texts == before[c].texts.push(stored[c]));
                assert(is_cell_number(
                    *sum,
                    agg_type,
                    column_of(t, value_col@).texts,
                    cell_rows(t, rg, cg, rk, ck),
                    given[c],
                ));
                assert forall|x: int| 0 <= x < i + 1 implies is_float_literal(out@[c].texts[x])
                    && is_pivot_cell(
                    *sum,
                    *normal,
                    agg_type,
                    column_of(t, value_col@).texts,
                    cell_rows(t, rg, cg, row_keys[x], ck),
                    #[trigger] out@[c].texts[x],
                ) by {
                    if x < i {
                        assert(out@[c].texts[x] == before[c].texts[x]);
                    }
                }
            }
        }
        i += 1;
    }
    Ok(out)
}

/// A cell of a pivot table holds a floating-point literal where the rows are
/// counted, and where they are summed by a function that gives such
/// literals only.
proof fn lemma_cell_number_is_literal<F: Fn(&Vec<String>) -> String>(
    sum: F,
    agg_type: AggregationType,
    values: Seq<Seq<char>>,
    rows: Seq<usize>,
    text: Seq<char>,
)
    requires
        is_cell_number(sum, agg_type, values, rows, text),
        agg_type == AggregationType::Count || gives_literals(sum),
    ensures
        is_float_literal(text),
{
    lemma_nat_text_is_float_literal(0);
    assert(nat_text(0) =~= zero_text());
    lemma_nat_text_is_float_literal(rows.len());
}

} // verus!
