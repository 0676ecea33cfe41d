//! A column of floating-point numbers.
//!
//! A number is held as a literal that denotes it. Which of the literals of a
//! number is its normal form is for arithmetic on floating-point numbers to
//! say, and that arithmetic is the caller's: a function that takes a literal
//! and gives the literal in normal form.

use crate::columns::column_trait::{
    gives_normal_literals, is_normal_form, normalises_literals, ColumnModel, ColumnTrait,
    ColumnType,
};
use crate::error::TableError;
use crate::text::{check_float_literal, is_float_literal};
use vstd::prelude::*;
use vstd::string::*;

verus! {

/// A named column of floating-point numbers. Each number is held as a
/// literal that denotes it, in the normal form that a function of the caller
/// gives the literal that was handed in.
pub struct FloatColumn {
    name: String,
    data: Vec<String>,
}

impl FloatColumn {
    /// The column's name, as contracts see it.
    pub closed spec fn spec_name(&self) -> Seq<char> {
        self.name@
    }

    /// The literals of the column's values in row order, as contracts see
    /// them.
    pub closed spec fn values(&self) -> Seq<Seq<char>> {
        Seq::new(self.data@.len(), |i: int| self.data@[i]@)
    }

    /// An empty column called `name`.
    pub fn new(name: &str) -> (r: Self)
        ensures
            r.spec_name() == name@,
            r.values() == Seq::<Seq<char>>::empty(),
    {
        let r = Self { name: String::from_str(name), data: Vec::new() };
        assert(r.values() =~= Seq::<Seq<char>>::empty());
        r
    }

    /// Appends the number that the literal `val` denotes, in the normal form
    /// that `normal` gives the literal. Where `val` is no floating-point
    /// literal, or what `normal` gives for it is none, the column stays as it
    /// is and the result is `ParseError`.
    pub fn push<F: Fn(&str) -> String>(&mut self, val: &str, normal: &F) -> (r: Result<
        (),
        TableError,
    >)
        requires
            normalises_literals(*normal),
        ensures
            final(self).spec_name() == old(self).spec_name(),
            match r {
                Ok(()) => {
                    &&& is_float_literal(val@)
                    &&& final(self).values().len() == old(self).values().len() + 1
                    &&& final(self).values() == old(self).values().push(
                        final(self).values().last(),
                    )
                    &&& is_float_literal(final(self).values().last())
                    &&& is_normal_form(*normal, val@, final(self).values().last())
                },
                Err(e) => {
                    &&& e == TableError::ParseError
                    &&& final(self).values() == old(self).values()
                    &&& is_float_literal(val@) ==> !gives_normal_literals(*normal)
                },
            },
    {
        if !check_float_literal(val) {
            return Err(TableError::ParseError);
        }
        let text = normal(val);
        if !check_float_literal(text.as_str()) {
            return Err(TableError::ParseError);
        }
        self.push_literal(text);
        Ok(())
    }

    /// Appends a number by a literal that is in normal form already.
    pub(crate) fn push_literal(&mut self, text: String)
        requires
            is_float_literal(text@),
        ensures
            final(self).spec_name() == old(self).spec_name(),
            final(self).values() == old(self).values().push(text@),
    {
        let ghost stored = text@;
        self.data.push(text);
        assert(self.values() =~= old(self).values().push(stored));
    }

    /// The literal of the value at `idx`.
    pub fn get(&self, idx: usize) -> (r: &str)
        requires
            idx < self.values().len(),
        ensures
            r@ == self.values()[idx as int],
    {
        self.data[idx].as_str()
    }
}

impl View for FloatColumn {
    type V = ColumnModel;

    open spec fn view(&self) -> ColumnModel {
        ColumnModel { name: self.spec_name(), kind: ColumnType::Float, texts: self.values() }
    }
}

impl Clone for FloatColumn {
    /// An independent copy with the same name and values.
    fn clone(&self) -> (r: Self)
        ensures
            r.spec_name() == self.spec_name(),
            r.values() == self.values(),
    {
        let r = Self { name: self.name.clone(), data: self.data.clone() };
        assert(r.values() =~= self.values());
        r
    }
}

impl ColumnTrait for FloatColumn {
    fn name(&self) -> (r: &str) {
        self.name.as_str()
    }

    fn len(&self) -> (n: usize) {
        self.data.len()
    }

    fn get_as_string(&self, idx: usize) -> (r: Result<String, TableError>) {
        if idx < self.data.len() {
            Ok(self.data[idx].clone())
        } else {
            Err(TableError::IndexError)
        }
    }

    fn push_str<F: Fn(&str) -> String>(&mut self, val: &str, normal: &F) -> (r: Result<
        (),
        TableError,
    >) {
        self.push(val, normal)
    }

    fn duplicate(&self) -> (r: Self) {
        let r = self.clone();
        assert(r@.texts =~= self@.texts);
        r
    }

    fn get_type(&self) -> (r: ColumnType) {
        ColumnType::Float
    }
}

} // verus!
