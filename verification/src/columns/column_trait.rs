//! What every column can do, whatever the type of its values.

use crate::error::TableError;
use crate::text::{
    check_float_literal, int_literal_value, int_text, is_decimal_number, is_float_literal,
    is_int_literal, lemma_parse_int_text, parse_i64, parse_i64_spec,
};
use vstd::prelude::*;

verus! {

/// The type tag of a column. It decides which texts the column accepts and
/// what it is filled with where a row has no value for it. A column of
/// timestamps reports `Int`.
#[derive(Debug, Clone, Copy, PartialEq, Eq, Structural)]
pub enum ColumnType {
    String,
    Int,
    Float,
}

/// A column as the contracts see it: its name, its type tag and the text
/// forms of its values in row order.
pub struct ColumnModel {
    pub name: Seq<char>,
    pub kind: ColumnType,
    pub texts: Seq<Seq<char>>,
}

/// The text that fills a column of the given type where a row supplies no
/// value for it.
pub open spec fn default_text(kind: ColumnType) -> Seq<char> {
    match kind {
        ColumnType::String => Seq::empty(),
        ColumnType::Int => seq!['0'],
        ColumnType::Float => seq!['0', '.', '0'],
    }
}

/// Whether `text` is a literal of a column of the given type: any text for
/// a column of texts, an integer literal whose value fits in 64 bits for a
/// column of integers or timestamps, a floating-point literal for a column
/// of floating-point numbers.
pub open spec fn is_literal(kind: ColumnType, text: Seq<char>) -> bool {
    match kind {
        ColumnType::String => true,
        ColumnType::Int => is_int_literal(text) && i64::MIN <= int_literal_value(text) <= i64::MAX,
        ColumnType::Float => is_float_literal(text),
    }
}

/// Whether `normal` can be called on any floating-point literal.
pub open spec fn normalises_literals<F: Fn(&str) -> String>(normal: F) -> bool {
    forall|literal: &str|
        is_float_literal(#[trigger] literal@) ==> call_requires(normal, (literal,))
}

/// Whether whatever `normal` gives is a floating-point literal.
pub open spec fn gives_normal_literals<F: Fn(&str) -> String>(normal: F) -> bool {
    forall|literal: &str, text: String|
        #[trigger] call_ensures(normal, (literal,), text) ==> is_float_literal(text@)
}

/// Whether `text` is what `normal` gave for `literal`.
pub open spec fn is_normal_form<F: Fn(&str) -> String>(
    normal: F,
    literal: Seq<char>,
    text: Seq<char>,
) -> bool {
    exists|given: &str, out: String|
        given@ == literal && out@ == text && #[trigger] call_ensures(normal, (given,), out)
}

/// Whether `text` is the canonical form of `literal` for a column of the
/// given type: for a text the text itself; for an integer the decimal digits
/// of its value, after a minus sign where it is negative; for a
/// floating-point number the normal form that `normal` gave for the literal.
pub open spec fn is_canonical_form<F: Fn(&str) -> String>(
    normal: F,
    kind: ColumnType,
    literal: Seq<char>,
    text: Seq<char>,
) -> bool {
    match kind {
        ColumnType::String => text == literal,
        ColumnType::Int => is_literal(kind, literal) && text == int_text(
            int_literal_value(literal),
        ),
        ColumnType::Float => is_float_literal(literal) && is_normal_form(normal, literal, text),
    }
}

/// Whether a column of the given type holds `text` as the text form of a
/// value: any text in a column of texts, the canonical text of a 64-bit
/// integer in a column of integers or timestamps, a floating-point literal
/// in a column of floating-point numbers.
pub open spec fn is_held(kind: ColumnType, text: Seq<char>) -> bool {
    match kind {
        ColumnType::String => true,
        ColumnType::Int => is_literal(kind, text) && int_text(int_literal_value(text)) == text,
        ColumnType::Float => is_float_literal(text),
    }
}

/// Whether every text of a column is one that a column of its type holds.
pub open spec fn model_wf(m: ColumnModel) -> bool {
    forall|i: int| 0 <= i < m.texts.len() ==> is_held(m.kind, #[trigger] m.texts[i])
}

/// Appending a literal to a column and reading the last row gives the
/// canonical form of the literal. The canonical form of an integer is
/// itself a literal of the same value and its own canonical form; that of a
/// text is the text; that of a floating-point number is what the caller's
/// function gave for the literal.
pub proof fn lemma_append_then_read<F: Fn(&str) -> String>(
    normal: F,
    before: ColumnModel,
    after: ColumnModel,
    literal: Seq<char>,
    text: Seq<char>,
)
    requires
        after.kind == before.kind,
        after.texts == before.texts.push(text),
        is_canonical_form(normal, before.kind, literal, text),
    ensures
        is_literal(before.kind, literal),
        after.texts.len() == before.texts.len() + 1,
        after.texts[after.texts.len() - 1] == text,
        before.kind == ColumnType::String ==> text == literal,
        before.kind == ColumnType::Int ==> is_held(before.kind, text) && parse_i64_spec(text)
            == parse_i64_spec(literal) && is_canonical_form(normal, before.kind, text, text),
        before.kind == ColumnType::Float ==> is_normal_form(normal, literal, text),
{
    if before.kind == ColumnType::Int {
        lemma_parse_int_text(parse_i64_spec(literal)->Some_0);
    }
}

/// The text that fills a column by default is a literal of the column's
/// type.
pub proof fn lemma_default_text_is_literal(kind: ColumnType)
    ensures
        is_literal(kind, default_text(kind)),
{
    match kind {
        ColumnType::String => {},
        ColumnType::Int => {
            lemma_parse_int_text(0i64);
            assert(int_text(0) =~= seq!['0']);
        },
        ColumnType::Float => {
            let s = seq!['0', '.', '0'];
            reveal_with_fuel(crate::text::digit_run, 3);
            assert(is_decimal_number(s));
        },
    }
}

/// Whether a column of the given type accepts `text`.
pub fn literal_accepted(kind: ColumnType, text: &str) -> (r: bool)
    ensures
        r == is_literal(kind, text@),
{
    match kind {
        ColumnType::String => true,
        ColumnType::Int => parse_i64(text).is_some(),
        ColumnType::Float => check_float_literal(text),
    }
}

/// The text that fills a column of the given type where a row supplies no
/// value for it.
pub fn default_value(kind: ColumnType) -> (r: &'static str)
    ensures
        r@ == default_text(kind),
{
    proof {
        reveal_strlit("");
        reveal_strlit("0");
        reveal_strlit("0.0");
    }
    let r = match kind {
        ColumnType::String => "",
        ColumnType::Int => "0",
        ColumnType::Float => "0.0",
    };
    assert(r@ =~= default_text(kind));
    r
}

/// A named, homogeneously typed, growable sequence of values.
pub trait ColumnTrait: View<V = ColumnModel> + Sized {
    /// The column's name.
    fn name(&self) -> (r: &str)
        ensures
            r@ == self@.name,
    ;

    /// The number of values.
    fn len(&self) -> (n: usize)
        ensures
            n == self@.texts.len(),
    ;

    /// The text form of the value at `idx`; `IndexError` past the end.
    fn get_as_string(&self, idx: usize) -> (r: Result<String, TableError>)
        ensures
            idx < self@.texts.len() ==> r is Ok && r->Ok_0@ == self@.texts[idx as int],
            idx >= self@.texts.len() ==> r == Err::<String, TableError>(TableError::IndexError),
    ;

    /// Parses `val` as a value of the column's type and appends it in
    /// canonical form. A floating-point number is stored in the normal form
    /// that `normal` gives its literal; `normal` is called on a
    /// floating-point literal only, and by a column of floating-point
    /// numbers only. Where `val` is no literal of the column's type, and
    /// where `normal` gives what is no floating-point literal, the column
    /// stays as it is and the result is `ParseError`.
    fn push_str<F: Fn(&str) -> String>(&mut self, val: &str, normal: &F) -> (r: Result<
        (),
        TableError,
    >)
        requires
            old(self)@.kind == ColumnType::Float ==> normalises_literals(*normal),
        ensures
            final(self)@.name == old(self)@.name,
            final(self)@.kind == old(self)@.kind,
            match r {
                Ok(()) => {
                    &&& final(self)@.texts.len() == old(self)@.texts.len() + 1
                    &&& final(self)@.texts == old(self)@.texts.push(final(self)@.texts.last())
                    &&& is_canonical_form(
                        *normal,
                        old(self)@.kind,
                        val@,
                        final(self)@.texts.last(),
                    )
                    &&& is_held(old(self)@.kind, final(self)@.texts.last())
                },
                Err(e) => {
                    &&& e == TableError::ParseError
                    &&& final(self)@.texts == old(self)@.texts
                    &&& is_literal(old(self)@.kind, val@) ==> old(self)@.kind == ColumnType::Float
                        && !gives_normal_literals(*normal)
                },
            },
    ;

    /// An independent copy of the same type, with the same name and values.
    fn duplicate(&self) -> (r: Self)
        ensures
            r@ == self@,
    ;

    /// The column's type tag.
    fn get_type(&self) -> (r: ColumnType)
        ensures
            r == self@.kind,
    ;
}

} // verus!
