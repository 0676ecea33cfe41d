//! A column of texts.

use crate::columns::column_trait::{ColumnModel, ColumnTrait, ColumnType};
use crate::error::TableError;
use vstd::prelude::*;
use vstd::string::*;

verus! {

/// A named column of texts.
pub struct StringColumn {
    name: String,
    data: Vec<String>,
}

impl StringColumn {
    /// The column's name, as contracts see it.
    pub closed spec fn spec_name(&self) -> Seq<char> {
        self.name@
    }

    /// The column's values in row order, as contracts see them.
    pub closed spec fn values(&self) -> Seq<Seq<char>> {
        Seq::new(self.data@.len(), |i: int| self.data@[i]@)
    }

    /// An empty column called `name`.
    pub fn new(name: &str) -> (r: Self)
        ensures
            r.spec_name() == name@,
            r.values() == Seq::<Seq<char>>::empty(),
    {
        let r = Self { name: String::from_str(name), data: Vec::new() };
        assert(r.values() =~= Seq::<Seq<char>>::empty());
        r
    }

    /// Appends `val`.
    pub fn push(&mut self, val: &str)
        ensures
            final(self).spec_name() == old(self).spec_name(),
            final(self).values() == old(self).values().push(val@),
    {
        self.data.push(String::from_str(val));
        assert(self.values() =~= old(self).values().push(val@));
    }

    /// The value at `idx`.
    pub fn get(&self, idx: usize) -> (r: &str)
        requires
            idx < self.values().len(),
        ensures
            r@ == self.values()[idx as int],
    {
        self.data[idx].as_str()
    }
}

impl View for StringColumn {
    type V = ColumnModel;

    open spec fn view(&self) -> ColumnModel {
        ColumnModel { name: self.spec_name(), kind: ColumnType::String, texts: self.values() }
    }
}

impl Clone for StringColumn {
    /// An independent copy with the same name and values.
    fn clone(&self) -> (r: Self)
        ensures
            r.spec_name() == self.spec_name(),
            r.values() == self.values(),
    {
        let r = Self { name: self.name.clone(), data: self.data.clone() };
        assert(r.values() =~= self.values());
        r
    }
}

impl ColumnTrait for StringColumn {
    fn name(&self) -> (r: &str) {
        self.name.as_str()
    }

    fn len(&self) -> (n: usize) {
        self.data.len()
    }

    fn get_as_string(&self, idx: usize) -> (r: Result<String, TableError>) {
        if idx < self.data.len() {
            Ok(self.data[idx].clone())
        } else {
            Err(TableError::IndexError)
        }
    }

    fn push_str<F: Fn(&str) -> String>(&mut self, val: &str, normal: &F) -> (r: Result<
        (),
        TableError,
    >) {
        self.push(val);
        Ok(())
    }

    fn duplicate(&self) -> (r: Self) {
        let r = self.clone();
        assert(r@.texts =~= self@.texts);
        r
    }

    fn get_type(&self) -> (r: ColumnType) {
        ColumnType::String
    }
}

} // verus!
