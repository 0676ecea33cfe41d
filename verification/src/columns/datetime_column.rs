//! A column of timestamps.

use crate::columns::column_trait::{ColumnModel, ColumnTrait, ColumnType};
use crate::error::TableError;
use crate::text::{format_i64, int_text, lemma_parse_int_text, parse_i64};
use vstd::prelude::*;
use vstd::string::*;

verus! {

/// A named column of timestamps: seconds since the epoch, as 64-bit signed
/// integers. Its text forms and its type tag are those of an integer column.
pub struct DateTimeColumn {
    name: String,
    data: Vec<i64>,
}

impl DateTimeColumn {
    /// The column's name, as contracts see it.
    pub closed spec fn spec_name(&self) -> Seq<char> {
        self.name@
    }

    /// The column's values in row order, as contracts see them.
    pub closed spec fn values(&self) -> Seq<i64> {
        self.data@
    }

    /// An empty column called `name`.
    pub fn new(name: &str) -> (r: Self)
        ensures
            r.spec_name() == name@,
            r.values() == Seq::<i64>::empty(),
    {
        Self { name: String::from_str(name), data: Vec::new() }
    }

    /// Appends `val`.
    pub fn push(&mut self, val: i64)
        ensures
            final(self).spec_name() == old(self).spec_name(),
            final(self).values() == old(self).values().push(val),
    {
        self.data.push(val);
    }

    /// The value at `idx`.
    pub fn get(&self, idx: usize) -> (r: i64)
        requires
            idx < self.values().len(),
        ensures
            r == self.values()[idx as int],
    {
        self.data[idx]
    }
}

impl View for DateTimeColumn {
    type V = ColumnModel;

    open spec fn view(&self) -> ColumnModel {
        ColumnModel {
            name: self.spec_name(),
            kind: ColumnType::Int,
            texts: Seq::new(self.values().len(), |i: int| int_text(self.values()[i] as int)),
        }
    }
}

impl Clone for DateTimeColumn {
    /// An independent copy with the same name and values.
    fn clone(&self) -> (r: Self)
        ensures
            r.spec_name() == self.spec_name(),
            r.values() == self.values(),
    {
        let r = Self { name: self.name.clone(), data: self.data.clone() };
        assert(r.values() =~= self.values());
        r
    }
}

impl ColumnTrait for DateTimeColumn {
    fn name(&self) -> (r: &str) {
        self.name.as_str()
    }

    fn len(&self) -> (n: usize) {
        self.data.len()
    }

    fn get_as_string(&self, idx: usize) -> (r: Result<String, TableError>) {
        if idx < self.data.len() {
            Ok(format_i64(self.data[idx]))
        } else {
            Err(TableError::IndexError)
        }
    }

    fn push_str<F: Fn(&str) -> String>(&mut self, val: &str, normal: &F) -> (r: Result<
        (),
        TableError,
    >) {
        match parse_i64(val) {
            Some(v) => {
                self.data.push(v);
                proof {
                    lemma_parse_int_text(v);
                    assert(self@.texts =~= old(self)@.texts.push(int_text(v as int)));
                }
                Ok(())
            },
            None => Err(TableError::ParseError),
        }
    }

    fn duplicate(&self) -> (r: Self) {
        let r = self.clone();
        assert(r@.texts =~= self@.texts);
        r
    }

    fn get_type(&self) -> (r: ColumnType) {
        ColumnType::Int
    }
}

} // verus!
