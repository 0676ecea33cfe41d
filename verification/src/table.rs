//! Tables: an ordered collection of uniquely named columns of equal length.

use crate::columns::column::Column;
use crate::columns::column_trait::{
    default_text, default_value, gives_normal_literals, is_canonical_form, is_held, is_literal,
    lemma_default_text_is_literal, model_wf, normalises_literals, ColumnModel, ColumnTrait,
    ColumnType,
};
use crate::columns::float_column::FloatColumn;
use crate::columns::string_column::StringColumn;
use crate::error::TableError;
use crate::group_index::GroupIndex;
use crate::grouping::{
    column_of, has_columns, index_of_table, index_upto, lemma_column_of, lemma_index_of_table_wf,
    lemma_index_step, row_key, strs_view,
};
use crate::order::{text_eq, texts_of};
use crate::row::Row;
use crate::text::{check_float_literal, format_i64, lemma_parse_int_text, parse_i64};
use vstd::prelude::*;

verus! {

/// The names of a table's columns, in column order.
pub open spec fn names_of(t: Seq<ColumnModel>) -> Seq<Seq<char>> {
    Seq::new(t.len(), |i: int| t[i].name)
}

/// The number of rows of a table: the length of its first column, and zero
/// where it has no column.
pub open spec fn row_count(t: Seq<ColumnModel>) -> nat {
    if t.len() == 0 {
        0
    } else {
        t[0].texts.len()
    }
}

/// What holds of every table: no two columns share a name, all columns are
/// as long as the table has rows, and each holds texts of its own type only.
pub open spec fn table_wf(t: Seq<ColumnModel>) -> bool {
    &&& forall|i: int, j: int|
        0 <= i < j < t.len() ==> (#[trigger] t[i]).name != (#[trigger] t[j]).name
    &&& forall|i: int| 0 <= i < t.len() ==> (#[trigger] t[i]).texts.len() == row_count(t)
    &&& forall|i: int| 0 <= i < t.len() ==> model_wf(#[trigger] t[i])
}

/// Whether `i` is the position of the first column called `name`.
pub open spec fn is_position_of(names: Seq<Seq<char>>, name: Seq<char>, i: int) -> bool {
    &&& 0 <= i < names.len()
    &&& names[i] == name
    &&& forall|j: int| 0 <= j < i ==> names[j] != name
}

/// The row at position `r` as a record: each column's name bound to the text
/// of its value in that row.
pub open spec fn row_of(t: Seq<ColumnModel>, r: int) -> Map<Seq<char>, Seq<char>> {
    Map::new(
        |name: Seq<char>| names_of(t).contains(name),
        |name: Seq<char>| t[names_of(t).index_of(name)].texts[r],
    )
}

/// The text that a record supplies for a column: what it binds the column's
/// name to, or the default of the column's type where it binds nothing.
pub open spec fn supplied_text(c: ColumnModel, record: Map<Seq<char>, Seq<char>>) -> Seq<char> {
    if record.contains_key(c.name) {
        record[c.name]
    } else {
        default_text(c.kind)
    }
}

/// The texts that a record supplies for the columns of a table, in column
/// order.
pub open spec fn supplied_texts(t: Seq<ColumnModel>, record: Map<Seq<char>, Seq<char>>) -> Seq<
    Seq<char>,
> {
    Seq::new(t.len(), |i: int| supplied_text(t[i], record))
}

/// Whether the text that stands for each column of the table in `values`,
/// which holds one text for each column, is a literal of the column's type.
pub open spec fn values_accepted(t: Seq<ColumnModel>, values: Seq<Seq<char>>) -> bool {
    forall|i: int| 0 <= i < t.len() ==> is_literal((#[trigger] t[i]).kind, values[i])
}

/// Whether what the record supplies for each column of the table is a
/// literal of the column's type.
pub open spec fn row_accepted(t: Seq<ColumnModel>, record: Map<Seq<char>, Seq<char>>) -> bool {
    values_accepted(t, supplied_texts(t, record))
}

/// Whether the record binds the name of every column of the table.
pub open spec fn row_complete(t: Seq<ColumnModel>, record: Map<Seq<char>, Seq<char>>) -> bool {
    forall|i: int| 0 <= i < t.len() ==> record.contains_key((#[trigger] t[i]).name)
}

/// Whether the table has a column of floating-point numbers.
pub open spec fn has_float_column(t: Seq<ColumnModel>) -> bool {
    exists|i: int| 0 <= i < t.len() && (#[trigger] t[i]).kind == ColumnType::Float
}

/// Whether `stored` holds, for each column of the table, the canonical form
/// of the text that `given` holds for the column, and the column holds
/// texts of that form.
pub open spec fn is_stored_row<F: Fn(&str) -> String>(
    normal: F,
    t: Seq<ColumnModel>,
    given: Seq<Seq<char>>,
    stored: Seq<Seq<char>>,
) -> bool {
    &&& stored.len() == t.len()
    &&& forall|i: int|
        0 <= i < t.len() ==> is_canonical_form(normal, (#[trigger] t[i]).kind, given[i], stored[i])
            && is_held(t[i].kind, stored[i])
}

/// The table with one row appended whose texts are given in column order,
/// each as its column is to hold it.
pub open spec fn with_texts(t: Seq<ColumnModel>, stored: Seq<Seq<char>>) -> Seq<ColumnModel> {
    Seq::new(
        t.len(),
        |i: int|
            ColumnModel { name: t[i].name, kind: t[i].kind, texts: t[i].texts.push(stored[i]) },
    )
}

/// Whether `r` and `after` are what an attempt to append a row gives, for a
/// row whose texts `given` holds in column order. Where it succeeds, every
/// text is a literal of its column's type and the table has one row more,
/// which holds the canonical form of each text. Where it fails, the failure
/// is `ParseError` and the table is as it was; it fails where a text is no
/// literal of its column's type, and else only where `normal` gave what is
/// no floating-point literal.
pub open spec fn is_push_outcome<F: Fn(&str) -> String>(
    normal: F,
    before: Seq<ColumnModel>,
    given: Seq<Seq<char>>,
    r: Result<(), TableError>,
    after: Seq<ColumnModel>,
) -> bool {
    match r {
        Ok(()) => values_accepted(before, given) && exists|stored: Seq<Seq<char>>|
            #[trigger] is_stored_row(normal, before, given, stored) && after == with_texts(
                before,
                stored,
            ),
        Err(e) => {
            &&& e == TableError::ParseError
            &&& after == before
            &&& values_accepted(before, given) ==> has_float_column(before)
                && !gives_normal_literals(normal)
        },
    }
}

/// The table with a sequence of rows appended, one after the other, each
/// given by its texts in column order.
pub open spec fn with_rows(t: Seq<ColumnModel>, rows: Seq<Seq<Seq<char>>>) -> Seq<ColumnModel>
    decreases rows.len(),
{
    if rows.len() == 0 {
        t
    } else {
        with_texts(with_rows(t, rows.drop_last()), rows.last())
    }
}

/// Whether a row of texts has one text for each column of the table, which
/// the column holds.
pub open spec fn row_held(t: Seq<ColumnModel>, stored: Seq<Seq<char>>) -> bool {
    &&& stored.len() == t.len()
    &&& forall|i: int| 0 <= i < t.len() ==> is_held((#[trigger] t[i]).kind, stored[i])
}

/// A value that a record does not supply never makes a row fail: the texts
/// of a row are literals of their columns where every value that the record
/// does supply is one, and a column without a supplied value gets the
/// default of its type.
pub proof fn lemma_missing_values_are_filled(
    t: Seq<ColumnModel>,
    record: Map<Seq<char>, Seq<char>>,
)
    ensures
        row_accepted(t, record) <==> forall|i: int|
            0 <= i < t.len() && record.contains_key((#[trigger] t[i]).name) ==> is_literal(
                t[i].kind,
                record[t[i].name],
            ),
        forall|i: int|
            0 <= i < t.len() && !record.contains_key((#[trigger] t[i]).name) ==> supplied_texts(
                t,
                record,
            )[i] == default_text(t[i].kind),
{
    let given = supplied_texts(t, record);
    assert forall|i: int| 0 <= i < t.len() && !record.contains_key(
        (#[trigger] t[i]).name,
    ) implies is_literal(t[i].kind, given[i]) by {
        lemma_default_text_is_literal(t[i].kind);
    }
    if row_accepted(t, record) {
        assert forall|i: int|
            0 <= i < t.len() && record.contains_key((#[trigger] t[i]).name) implies is_literal(
            t[i].kind,
            record[t[i].name],
        ) by {
            assert(is_literal(t[i].kind, given[i]));
        }
    }
    if forall|i: int|
        0 <= i < t.len() && record.contains_key((#[trigger] t[i]).name) ==> is_literal(
            t[i].kind,
            record[t[i].name],
        ) {
        assert forall|i: int| 0 <= i < t.len() implies is_literal(
            (#[trigger] t[i]).kind,
            given[i],
        ) by {}
    }
}

/// Appending a row of texts that the columns hold keeps a table a table and
/// makes every column one longer.
pub proof fn lemma_with_texts(t: Seq<ColumnModel>, stored: Seq<Seq<char>>)
    requires
        table_wf(t),
        row_held(t, stored),
    ensures
        table_wf(with_texts(t, stored)),
        names_of(with_texts(t, stored)) == names_of(t),
        with_texts(t, stored).len() == t.len(),
        forall|i: int|
            0 <= i < t.len() ==> (#[trigger] with_texts(t, stored)[i]).kind == t[i].kind
                && with_texts(t, stored)[i].texts.len() == row_count(t) + 1,
{
    let u = with_texts(t, stored);
    assert(names_of(u) =~= names_of(t));
    assert forall|i: int| 0 <= i < u.len() implies model_wf(#[trigger] u[i]) by {
        let c = t[i];
        assert(model_wf(c));
        assert(is_held(c.kind, stored[i]));
        assert forall|k: int| 0 <= k < u[i].texts.len() implies is_held(
            u[i].kind,
            #[trigger] u[i].texts[k],
        ) by {
            if k < c.texts.len() {
                assert(u[i].texts[k] == c.texts[k]);
            }
        }
    }
    assert forall|i: int| 0 <= i < u.len() implies (#[trigger] u[i]).texts.len() == row_count(
        u,
    ) by {
        assert(t[i].texts.len() == row_count(t));
        assert(t[0].texts.len() == row_count(t));
    }
    assert forall|i: int, j: int| 0 <= i < j < u.len() implies (#[trigger] u[i]).name != (
    #[trigger] u[j]).name by {
        assert(t[i].name != t[j].name);
    }
    assert forall|i: int| 0 <= i < t.len() implies (#[trigger] u[i]).kind == t[i].kind
        && u[i].texts.len() == row_count(t) + 1 by {
        assert(t[i].texts.len() == row_count(t));
    }
}

/// The row that a successful append stores is one that the columns hold.
pub proof fn lemma_stored_row_is_held<F: Fn(&str) -> String>(
    normal: F,
    t: Seq<ColumnModel>,
    given: Seq<Seq<char>>,
    stored: Seq<Seq<char>>,
)
    requires
        is_stored_row(normal, t, given, stored),
    ensures
        row_held(t, stored),
{
}

/// Whether each of a sequence of rows is held by the columns of the table.
pub open spec fn rows_held(t: Seq<ColumnModel>, rows: Seq<Seq<Seq<char>>>) -> bool {
    forall|k: int| 0 <= k < rows.len() ==> row_held(t, #[trigger] rows[k])
}

/// After any sequence of row appends a table is still a table with the same
/// columns, and every column has grown by the number of rows that were
/// appended. In a table that began without rows, every column is as long as
/// the number of appends that succeeded. An append that fails leaves the
/// table as it was, and one that succeeds appends a row that the columns
/// hold; see [`is_push_outcome`].
pub proof fn lemma_row_count_after_pushes(t: Seq<ColumnModel>, rows: Seq<Seq<Seq<char>>>)
    requires
        table_wf(t),
        rows_held(t, rows),
    ensures
        table_wf(with_rows(t, rows)),
        names_of(with_rows(t, rows)) == names_of(t),
        with_rows(t, rows).len() == t.len(),
        forall|i: int|
            0 <= i < t.len() ==> (#[trigger] with_rows(t, rows)[i]).kind == t[i].kind
                && with_rows(t, rows)[i].texts.len() == row_count(t) + rows.len(),
    decreases rows.len(),
{
    if rows.len() > 0 {
        let before = with_rows(t, rows.drop_last());
        assert forall|k: int| 0 <= k < rows.drop_last().len() implies row_held(
            t,
            #[trigger] rows.drop_last()[k],
        ) by {
            assert(row_held(t, rows[k]));
        }
        lemma_row_count_after_pushes(t, rows.drop_last());
        assert(row_held(t, rows[rows.len() - 1]));
        assert(row_held(before, rows.last())) by {
            assert forall|i: int| 0 <= i < before.len() implies is_held(
                (#[trigger] before[i]).kind,
                rows.last()[i],
            ) by {
                assert(before[i].kind == t[i].kind);
                assert(is_held(t[i].kind, rows.last()[i]));
            }
        }
        lemma_with_texts(before, rows.last());
        assert forall|i: int| 0 <= i < t.len() implies (#[trigger] with_rows(t, rows)[i]).kind
            == t[i].kind && with_rows(t, rows)[i].texts.len() == row_count(t) + rows.len() by {
            assert(before[i].texts.len() == row_count(t) + rows.len() - 1);
            assert(before[0].texts.len() == row_count(before));
            assert(before[i].kind == t[i].kind);
        }
    } else {
        assert forall|i: int| 0 <= i < t.len() implies (#[trigger] with_rows(t, rows)[i]).kind
            == t[i].kind && with_rows(t, rows)[i].texts.len() == row_count(t) + rows.len() by {
            assert(t[i].texts.len() == row_count(t));
        }
    }
}

/// An ordered collection of uniquely named columns of equal length.
pub struct Table {
    pub columns: Vec<Column>,
}

impl View for Table {
    type V = Seq<ColumnModel>;

    open spec fn view(&self) -> Seq<ColumnModel> {
        Seq::new(self.columns@.len(), |i: int| self.columns@[i]@)
    }
}

impl Table {
    /// What holds of every table; see [`table_wf`].
    pub open spec fn wf(&self) -> bool {
        table_wf(self@)
    }

    /// Whether the two tables have as many columns, and each column of the
    /// one is of the same of the four types as the column of the other at
    /// its position.
    pub open spec fn same_types(&self, other: &Table) -> bool {
        &&& self.columns@.len() == other.columns@.len()
        &&& forall|i: int|
            0 <= i < self.columns@.len() ==> (#[trigger] self.columns@[i]).same_type(
                &other.columns@[i],
            )
    }

    /// A table without columns.
    pub fn new() -> (r: Self)
        ensures
            r@ == Seq::<ColumnModel>::empty(),
            r.wf(),
    {
        let r = Self { columns: Vec::new() };
        assert(r@ =~= Seq::<ColumnModel>::empty());
        r
    }

    /// Adds `col` behind the columns that are there. Where a column of that
    /// name exists the table stays as it is and the result is
    /// `DuplicateColumn`. A column that is added has to be as long as the
    /// table has rows, unless it is the first.
    pub fn add_column(&mut self, col: Column) -> (r: Result<(), TableError>)
        requires
            old(self).wf(),
            !names_of(old(self)@).contains(col@.name) ==> model_wf(col@) && (old(self)@.len() > 0
                ==> col@.texts.len() == row_count(old(self)@)),
        ensures
            final(self).wf(),
            names_of(old(self)@).contains(col@.name) ==> r == Err::<(), TableError>(
                TableError::DuplicateColumn,
            ) && final(self)@ == old(self)@,
            !names_of(old(self)@).contains(col@.name) ==> r is Ok && final(self)@ == old(
                self,
            )@.push(col@),
    {
        if self.get_column_index(col.name()).is_some() {
            return Err(TableError::DuplicateColumn);
        }
        self.columns.push(col);
        proof {
            let t = old(self)@;
            let u = self@;
            assert(u =~= t.push(col@));
            assert forall|i: int, j: int| 0 <= i < j < u.len() implies (#[trigger] u[i]).name != (
            #[trigger] u[j]).name by {
                if j == t.len() {
                    assert(names_of(t)[i] == t[i].name);
                } else {
                    assert(t[i].name != t[j].name);
                }
            }
            assert forall|i: int| 0 <= i < u.len() implies (#[trigger] u[i]).texts.len()
                == row_count(u) && model_wf(u[i]) by {
                if i < t.len() {
                    assert(t[i].texts.len() == row_count(t));
                    assert(model_wf(t[i]));
                }
            }
        }
        Ok(())
    }

    /// Adds an empty column of texts called `name`. Where a column of that
    /// name exists the table stays as it is and the result is
    /// `DuplicateColumn`; where the column is added, the table has to be
    /// without rows.
    pub fn add_string_column(&mut self, name: &str) -> (r: Result<(), TableError>)
        requires
            old(self).wf(),
            !names_of(old(self)@).contains(name@) ==> row_count(old(self)@) == 0,
        ensures
            final(self).wf(),
            names_of(old(self)@).contains(name@) ==> r == Err::<(), TableError>(
                TableError::DuplicateColumn,
            ) && final(self)@ == old(self)@,
            !names_of(old(self)@).contains(name@) ==> r is Ok && final(self)@ == old(self)@.push(
                ColumnModel {
                    name: name@,
                    kind: ColumnType::String,
                    texts: Seq::empty(),
                },
            ),
    {
        self.add_column(Column::Text(StringColumn::new(name)))
    }

    /// Adds an empty column of floating-point numbers called `name`. Where a
    /// column of that name exists the table stays as it is and the result is
    /// `DuplicateColumn`; where the column is added, the table has to be
    /// without rows.
    pub fn add_float_column(&mut self, name: &str) -> (r: Result<(), TableError>)
        requires
            old(self).wf(),
            !names_of(old(self)@).contains(name@) ==> row_count(old(self)@) == 0,
        ensures
            final(self).wf(),
            names_of(old(self)@).contains(name@) ==> r == Err::<(), TableError>(
                TableError::DuplicateColumn,
            ) && final(self)@ == old(self)@,
            !names_of(old(self)@).contains(name@) ==> r is Ok && final(self)@ == old(self)@.push(
                ColumnModel {
                    name: name@,
                    kind: ColumnType::Float,
                    texts: Seq::empty(),
                },
            ),
    {
        self.add_column(Column::Float(FloatColumn::new(name)))
    }

    /// The names of the columns, in column order.
    pub fn column_names(&self) -> (r: Vec<&str>)
        ensures
            r@.len() == self@.len(),
            forall|i: int| 0 <= i < r@.len() ==> (#[trigger] r@[i])@ == self@[i].name,
    {
        let mut names: Vec<&str> = Vec::new();
        let mut i: usize = 0;
        while i < self.columns.len()
            invariant
                i <= self.columns@.len(),
                names@.len() == i,
                forall|k: int| 0 <= k < i ==> (#[trigger] names@[k])@ == self@[k].name,
            decreases self.columns@.len() - i,
        {
            names.push(self.columns[i].name());
            i += 1;
        }
        names
    }

    /// The position of the column called `name`, if there is one.
    pub fn get_column_index(&self, name: &str) -> (r: Option<usize>)
        ensures
            match r {
                Some(i) => is_position_of(names_of(self@), name@, i as int),
                None => !names_of(self@).contains(name@),
            },
    {
        let mut i: usize = 0;
        while i < self.columns.len()
            invariant
                i <= self.columns@.len(),
                forall|k: int| 0 <= k < i ==> names_of(self@)[k] != name@,
            decreases self.columns@.len() - i,
        {
            if text_eq(self.columns[i].name(), name) {
                return Some(i);
            }
            i += 1;
        }
        None
    }

    /// The number of rows.
    pub fn len(&self) -> (n: usize)
        ensures
            n == row_count(self@),
    {
        if self.columns.len() == 0 {
            0
        } else {
            self.columns[0].len()
        }
    }

    /// Every row as a record, in row order. The records are made from the
    /// table as it is now; a later change of the table is not seen in them.
    pub fn get_rows(&self) -> (r: Vec<Row>)
        requires
            self.wf(),
        ensures
            r@.len() == row_count(self@),
            forall|i: int| 0 <= i < r@.len() ==> (#[trigger] r@[i])@ == row_of(self@, i),
    {
        let n = self.len();
        let mut rows: Vec<Row> = Vec::new();
        let mut i: usize = 0;
        while i < n
            invariant
                self.wf(),
                n == row_count(self@),
                i <= n,
                rows@.len() == i,
                forall|k: int| 0 <= k < i ==> (#[trigger] rows@[k])@ == row_of(self@, k),
            decreases n - i,
        {
            let row = self.get_row(i);
            rows.push(row);
            i += 1;
        }
        rows
    }

    /// The row at position `i` as a record.
    pub fn get_row(&self, i: usize) -> (r: Row)
        requires
            self.wf(),
            i < row_count(self@),
        ensures
            r@ == row_of(self@, i as int),
    {
        let ghost t = self@;
        let mut row = Row::new();
        let mut c: usize = 0;
        while c < self.columns.len()
            invariant
                self.wf(),
                t == self@,
                i < row_count(t),
                c <= self.columns@.len(),
                forall|name: Seq<char>|
                    row@.contains_key(name) <==> names_of(t).take(c as int).contains(name),
                forall|k: int| 0 <= k < c ==> row@[(#[trigger] t[k]).name] == t[k].texts[i as int],
            decreases self.columns@.len() - c,
        {
            let ghost before = row@;
            let col = &self.columns[c];
            assert(col@ == t[c as int]);
            assert(t[c as int].texts.len() == row_count(t));
            let text = match col.get_as_string(i) {
                Ok(text) => text,
                Err(_) => String::new(),
            };
            row.insert(col.name(), text);
            proof {
                let names = names_of(t);
                assert(names.take(c + 1) =~= names.take(c as int).push(names[c as int]));
                assert forall|name: Seq<char>| row@.contains_key(name) <==> names.take(
                    c + 1,
                ).contains(name) by {
                    if names.take(c + 1).contains(name) {
                        let k = names.take(c + 1).index_of(name);
                        if k < c {
                            assert(names.take(c as int)[k] == name);
                        }
                    }
                    if before.contains_key(name) {
                        let k = names.take(c as int).index_of(name);
                        assert(names.take(c + 1)[k] == name);
                    }
                    if name == names[c as int] {
                        assert(names.take(c + 1)[c as int] == name);
                    }
                }
                assert forall|k: int| 0 <= k < c + 1 implies row@[(#[trigger] t[k]).name]
                    == t[k].texts[i as int] by {
                    if k < c {
                        assert(t[k].name != t[c as int].name);
                    }
                }
            }
            c += 1;
        }
        proof {
            let names = names_of(t);
            assert(names.take(c as int) =~= names);
            assert forall|name: Seq<char>| row@.contains_key(name) implies row@[name] == row_of(
                t,
                i as int,
            )[name] by {
                let k = names.index_of(name);
                assert(names[k] == name);
                assert(t[k].name == name);
            }
            assert(row@ =~= row_of(t, i as int));
        }
        row
    }

    /// Appends a row whose values are given in column order, one text for
    /// each column. Each column parses its text and stores it in canonical
    /// form; a floating-point number is stored in the normal form that
    /// `normal` gives its literal. Where some text is no literal of its
    /// column's type, or `normal` gives what is no floating-point literal, no
    /// column is touched and the result is `ParseError`. `normal` is called
    /// on floating-point literals only, for columns of floating-point
    /// numbers.
    pub fn push_values<F: Fn(&str) -> String>(&mut self, values: &Vec<String>, normal: &F) -> (r:
        Result<(), TableError>)
        requires
            old(self).wf(),
            values@.len() == old(self)@.len(),
            has_float_column(old(self)@) ==> normalises_literals(*normal),
        ensures
            final(self).wf(),
            is_push_outcome(*normal, old(self)@, texts_of(values@), r, final(self)@),
    {
        let ghost t = self@;
        let ghost given = texts_of(values@);
        let n = self.columns.len();
        let mut stored: Vec<String> = Vec::new();
        let mut c: usize = 0;
        while c < n
            invariant
                t == self@,
                t == old(self)@,
                table_wf(t),
                given == texts_of(values@),
                values@.len() == n,
                n == t.len(),
                has_float_column(t) ==> normalises_literals(*normal),
                c <= n,
                stored@.len() == c,
                forall|k: int| 0 <= k < c ==> is_literal((#[trigger] t[k]).kind, given[k]),
                forall|k: int|
                    0 <= k < c ==> is_canonical_form(
                        *normal,
                        (#[trigger] t[k]).kind,
                        given[k],
                        texts_of(stored@)[k],
                    ) && is_held(t[k].kind, texts_of(stored@)[k]),
            decreases n - c,
        {
            let col = &self.columns[c];
            assert(col@ == t[c as int]);
            assert(given[c as int] == values@[c as int]@);
            let text = match col.get_type() {
                ColumnType::String => values[c].clone(),
                ColumnType::Int => {
                    match parse_i64(values[c].as_str()) {
                        Some(v) => {
                            proof {
                                lemma_parse_int_text(v);
                            }
                            format_i64(v)
                        },
                        None => {
                            return Err(TableError::ParseError);
                        },
                    }
                },
                ColumnType::Float => {
                    if !check_float_literal(values[c].as_str()) {
                        return Err(TableError::ParseError);
                    }
                    let text = normal(values[c].as_str());
                    if !check_float_literal(text.as_str()) {
                        return Err(TableError::ParseError);
                    }
                    text
                },
            };
            let ghost before = stored@;
            stored.push(text);
            assert forall|k: int| 0 <= k < c + 1 implies is_canonical_form(
                *normal,
                (#[trigger] t[k]).kind,
                given[k],
                texts_of(stored@)[k],
            ) && is_held(t[k].kind, texts_of(stored@)[k]) by {
                if k < c {
                    assert(texts_of(stored@)[k] == texts_of(before)[k]);
                }
            }
            c += 1;
        }
        let ghost texts = texts_of(stored@);
        assert(is_stored_row(*normal, t, given, texts));
        assert(row_held(t, texts));
        c = 0;
        while c < n
            invariant
                table_wf(t),
                texts == texts_of(stored@),
                row_held(t, texts),
                stored@.len() == n,
                n == t.len(),
                self.columns@.len() == n,
                c <= n,
                forall|k: int|
                    0 <= k < c ==> (#[trigger] self.columns@[k])@ == with_texts(t, texts)[k],
                forall|k: int| c <= k < n ==> (#[trigger] self.columns@[k])@ == t[k],
            decreases n - c,
        {
            let ghost before = self.columns@;
            assert(before[c as int]@ == t[c as int]);
            assert(texts[c as int] == stored@[c as int]@);
            assert(is_held(t[c as int].kind, texts[c as int]));
            self.columns[c].push_held(stored[c].clone());
            assert(forall|k: int| 0 <= k < n && k != c ==> self.columns@[k] == before[k]);
            c += 1;
        }
        proof {
            assert(self@ =~= with_texts(t, texts));
            lemma_with_texts(t, texts);
        }
        Ok(())
    }

    /// Appends a row. Each column gets what the record binds its name to, or
    /// the default of its type where the record binds nothing: the empty text,
    /// `0` or `0.0`. It parses the text and stores it in canonical form; a
    /// floating-point number is stored in the normal form that `normal` gives
    /// its literal. Where some column gets what is no literal of its type, or
    /// `normal` gives what is no floating-point literal, no column is touched
    /// and the result is `ParseError`.
    pub fn push_row<F: Fn(&str) -> String>(&mut self, values: &Row, normal: &F) -> (r: Result<
        (),
        TableError,
    >)
        requires
            old(self).wf(),
            has_float_column(old(self)@) ==> normalises_literals(*normal),
        ensures
            final(self).wf(),
            is_push_outcome(
                *normal,
                old(self)@,
                supplied_texts(old(self)@, values@),
                r,
                final(self)@,
            ),
    {
        let ghost t = self@;
        let n = self.columns.len();
        let mut texts: Vec<String> = Vec::new();
        let mut c: usize = 0;
        while c < n
            invariant
                t == self@,
                n == t.len(),
                c <= n,
                texts@.len() == c,
                forall|k: int|
                    0 <= k < c ==> (#[trigger] texts@[k])@ == supplied_text(t[k], values@),
            decreases n - c,
        {
            let col = &self.columns[c];
            assert(col@ == t[c as int]);
            let text = match values.get(col.name()) {
                Some(v) => v.clone(),
                None => default_value(col.get_type()).to_string(),
            };
            texts.push(text);
            c += 1;
        }
        assert(texts_of(texts@) =~= supplied_texts(t, values@));
        self.push_values(&texts, normal)
    }

    /// Appends a row whose record must bind the name of every column. Where
    /// it does not, no column is touched and the result is `MissingColumn`;
    /// otherwise as [`Table::push_row`].
    pub fn push_row_strict<F: Fn(&str) -> String>(&mut self, values: &Row, normal: &F) -> (r:
        Result<(), TableError>)
        requires
            old(self).wf(),
            has_float_column(old(self)@) ==> normalises_literals(*normal),
        ensures
            final(self).wf(),
            !row_complete(old(self)@, values@) ==> r == Err::<(), TableError>(
                TableError::MissingColumn,
            ) && final(self)@ == old(self)@,
            row_complete(old(self)@, values@) ==> is_push_outcome(
                *normal,
                old(self)@,
                supplied_texts(old(self)@, values@),
                r,
                final(self)@,
            ),
    {
        let n = self.columns.len();
        let mut c: usize = 0;
        while c < n
            invariant
                self@ == old(self)@,
                self.wf(),
                n == self@.len(),
                c <= n,
                forall|k: int| 0 <= k < c ==> values@.contains_key((#[trigger] self@[k]).name),
            decreases n - c,
        {
            if !values.contains_key(self.columns[c].name()) {
                assert(!values@.contains_key(self@[c as int].name));
                return Err(TableError::MissingColumn);
            }
            c += 1;
        }
        self.push_row(values, normal)
    }

    /// Appends a row of texts, given in column order, to a table that has
    /// columns of texts only.
    pub(crate) fn push_texts(&mut self, values: &Vec<String>)
        requires
            old(self).wf(),
            values@.len() == old(self)@.len(),
            forall|i: int|
                0 <= i < old(self)@.len() ==> (#[trigger] old(self)@[i]).kind == ColumnType::String,
        ensures
            final(self).wf(),
            final(self)@ == with_texts(old(self)@, texts_of(values@)),
    {
        let ghost t = self@;
        let ghost texts = texts_of(values@);
        let n = self.columns.len();
        let mut c: usize = 0;
        while c < n
            invariant
                table_wf(t),
                texts == texts_of(values@),
                forall|i: int| 0 <= i < t.len() ==> (#[trigger] t[i]).kind == ColumnType::String,
                values@.len() == n,
                n == t.len(),
                self.columns@.len() == n,
                c <= n,
                forall|k: int|
                    0 <= k < c ==> (#[trigger] self.columns@[k])@ == with_texts(t, texts)[k],
                forall|k: int| c <= k < n ==> (#[trigger] self.columns@[k])@ == t[k],
            decreases n - c,
        {
            let ghost before = self.columns@;
            assert(before[c as int]@ == t[c as int]);
            assert(texts[c as int] == values@[c as int]@);
            self.columns[c].push_held(values[c].clone());
            assert(forall|k: int| 0 <= k < n && k != c ==> self.columns@[k] == before[k]);
            c += 1;
        }
        proof {
            assert(self@ =~= with_texts(t, texts));
            assert(row_held(t, texts));
            lemma_with_texts(t, texts);
        }
    }

    /// The positions of the named columns, in the order of the names;
    /// `ColumnNotFound` where the table lacks one of them.
    pub fn resolve_columns(&self, names: &[&str]) -> (r: Result<Vec<usize>, TableError>)
        requires
            self.wf(),
        ensures
            has_columns(self@, strs_view(names@)) ==> r is Ok && r->Ok_0@.len() == names@.len()
                && forall|j: int|
                0 <= j < names@.len() ==>
                    (#[trigger] r->Ok_0@[j]) < self@.len() && self@[r->Ok_0@[j] as int]
                    == column_of(self@, names@[j]@),
            !has_columns(self@, strs_view(names@)) ==> r == Err::<Vec<usize>, TableError>(
                TableError::ColumnNotFound,
            ),
    {
        let mut cols: Vec<usize> = Vec::new();
        let mut j: usize = 0;
        while j < names.len()
            invariant
                self.wf(),
                j <= names@.len(),
                cols@.len() == j,
                forall|k: int|
                    0 <= k < j ==> names_of(self@).contains(#[trigger] strs_view(names@)[k]),
                forall|k: int|
                    0 <= k < j ==> (#[trigger] cols@[k]) < self@.len() && self@[cols@[k] as int]
                        == column_of(self@, names@[k]@),
            decreases names@.len() - j,
        {
            match self.get_column_index(names[j]) {
                Some(c) => {
                    proof {
                        lemma_column_of(self@, c as int);
                        assert(strs_view(names@)[j as int] == names@[j as int]@);
                    }
                    cols.push(c);
                },
                None => {
                    assert(!names_of(self@).contains(strs_view(names@)[j as int]));
                    return Err(TableError::ColumnNotFound);
                },
            }
            j += 1;
        }
        Ok(cols)
    }

    /// The key of row `row` over the columns at the positions `cols`: the
    /// texts of the row's values in those columns.
    pub fn key_of_row(&self, cols: &Vec<usize>, row: usize) -> (r: Vec<String>)
        requires
            self.wf(),
            row < row_count(self@),
            forall|j: int| 0 <= j < cols@.len() ==> (#[trigger] cols@[j]) < self@.len(),
        ensures
            r@.len() == cols@.len(),
            forall|j: int|
                0 <= j < cols@.len() ==> (#[trigger] r@[j])@
                    == self@[cols@[j] as int].texts[row as int],
    {
        let mut key: Vec<String> = Vec::new();
        let mut j: usize = 0;
        while j < cols.len()
            invariant
                self.wf(),
                row < row_count(self@),
                forall|k: int| 0 <= k < cols@.len() ==> (#[trigger] cols@[k]) < self@.len(),
                j <= cols@.len(),
                key@.len() == j,
                forall|k: int|
                    0 <= k < j ==>
                        (#[trigger] key@[k])@ == self@[cols@[k] as int].texts[row as int],
            decreases cols@.len() - j,
        {
            let c = cols[j];
            assert(self@[c as int].texts.len() == row_count(self@));
            assert(self.columns@[c as int]@ == self@[c as int]);
            let text = match self.columns[c].get_as_string(row) {
                Ok(text) => text,
                Err(_) => String::new(),
            };
            key.push(text);
            j += 1;
        }
        key
    }

    /// The grouping index over the column called `column`: each distinct
    /// value of the column, as a key of one text, with the positions of the
    /// rows that hold it. `ColumnNotFound` where there is no such column.
    pub fn create_index(&self, column: &str) -> (r: Result<GroupIndex, TableError>)
        requires
            self.wf(),
        ensures
            names_of(self@).contains(column@) ==> r is Ok && r->Ok_0.wf() && r->Ok_0@
                == index_of_table(self@, seq![column@]),
            !names_of(self@).contains(column@) ==> r == Err::<GroupIndex, TableError>(
                TableError::ColumnNotFound,
            ),
    {
        let mut names: Vec<&str> = Vec::new();
        names.push(column);
        proof {
            assert(strs_view(names@) =~= seq![column@]);
            assert(seq![column@][0] == column@);
        }
        self.create_multi_index(names.as_slice())
    }

    /// The grouping index over the named columns: each distinct combination
    /// of their values, as a key with one text for each name, with the
    /// positions of the rows that hold it. `ColumnNotFound` where the table
    /// lacks one of the columns.
    pub fn create_multi_index(&self, columns: &[&str]) -> (r: Result<GroupIndex, TableError>)
        requires
            self.wf(),
        ensures
            has_columns(self@, strs_view(columns@)) ==> r is Ok && r->Ok_0.wf() && r->Ok_0@
                == index_of_table(self@, strs_view(columns@)),
            !has_columns(self@, strs_view(columns@)) ==> r == Err::<GroupIndex, TableError>(
                TableError::ColumnNotFound,
            ),
    {
        let cols = match self.resolve_columns(columns) {
            Ok(cols) => cols,
            Err(e) => {
                return Err(e);
            },
        };
        let ghost names = strs_view(columns@);
        let n = self.len();
        let mut index = GroupIndex::new();
        let mut i: usize = 0;
        assert(index@ == index_upto(self@, names, 0)) by {
            assert(index_upto(self@, names, 0).buckets =~= Seq::<Seq<usize>>::empty());
        }
        while i < n
            invariant
                self.wf(),
                n == row_count(self@),
                names == strs_view(columns@),
                cols@.len() == columns@.len(),
                forall|j: int|
                    0 <= j < columns@.len() ==>
                        (#[trigger] cols@[j]) < self@.len() && self@[cols@[j] as int]
                        == column_of(self@, columns@[j]@),
                i <= n,
                index.wf(),
                index@ == index_upto(self@, names, i as nat),
            decreases n - i,
        {
            let key = self.key_of_row(&cols, i);
            proof {
                assert(texts_of(key@) =~= row_key(self@, names, i as int));
                lemma_index_step(self@, names, i as nat);
            }
            index.add_row(key, i);
            i += 1;
        }
        proof {
            lemma_index_of_table_wf(self@, names);
        }
        Ok(index)
    }

    /// An independent copy: columns of the same types with the same names
    /// and values, sharing nothing with this table.
    pub fn duplicate(&self) -> (r: Self)
        ensures
            r@ == self@,
            r.same_types(self),
    {
        let mut columns: Vec<Column> = Vec::new();
        let mut i: usize = 0;
        while i < self.columns.len()
            invariant
                i <= self.columns@.len(),
                columns@.len() == i,
                forall|k: int| 0 <= k < i ==> (#[trigger] columns@[k])@ == self.columns@[k]@,
                forall|k: int| 0 <= k < i ==> (#[trigger] columns@[k]).same_type(&self.columns@[k]),
            decreases self.columns@.len() - i,
        {
            columns.push(self.columns[i].duplicate());
            i += 1;
        }
        let r = Self { columns };
        assert(r@ =~= self@);
        r
    }
}

impl Clone for Table {
    /// An independent copy; see [`Table::duplicate`].
    fn clone(&self) -> (r: Self)
        ensures
            r@ == self@,
            r.same_types(self),
    {
        self.duplicate()
    }
}

/// A copy of a table answers every read as the table does: it has the same
/// column names, the same number of rows, the same rows, the same keys and
/// the same grouping indexes.
pub proof fn lemma_copy_reads_alike(table: Table, copy: Table, names: Seq<Seq<char>>, r: int)
    requires
        copy@ == table@,
    ensures
        copy.wf() == table.wf(),
        names_of(copy@) == names_of(table@),
        row_count(copy@) == row_count(table@),
        row_of(copy@, r) == row_of(table@, r),
        row_key(copy@, names, r) == row_key(table@, names, r),
        index_of_table(copy@, names) == index_of_table(table@, names),
{
}

} // verus!
