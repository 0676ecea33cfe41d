//! Tables as markdown text.

use crate::columns::column_trait::{ColumnModel, ColumnTrait};
use crate::table::{names_of, row_count, Table};
use vstd::prelude::*;
use vstd::string::*;

verus! {

/// The cells of one line of a markdown table: each between a blank and a
/// blank and a bar.
pub open spec fn markdown_cells(cells: Seq<Seq<char>>) -> Seq<char>
    decreases cells.len(),
{
    if cells.len() == 0 {
        Seq::empty()
    } else {
        markdown_cells(cells.drop_last()) + seq![' '] + cells.last() + seq![' ', '|']
    }
}

/// One line of a markdown table: a bar, the cells, and a line feed.
pub open spec fn markdown_line(cells: Seq<Seq<char>>) -> Seq<char> {
    seq!['|'] + markdown_cells(cells) + seq!['\n']
}

/// The texts of the row at position `r`, in column order.
pub open spec fn row_texts(t: Seq<ColumnModel>, r: int) -> Seq<Seq<char>> {
    Seq::new(t.len(), |c: int| t[c].texts[r])
}

/// The lines of the first `n` rows of a table.
pub open spec fn markdown_rows(t: Seq<ColumnModel>, n: nat) -> Seq<char>
    decreases n,
{
    if n == 0 {
        Seq::empty()
    } else {
        markdown_rows(t, (n - 1) as nat) + markdown_line(row_texts(t, n - 1))
    }
}

/// A table as markdown: a line of column names, a line of rules, and a line
/// for each row.
pub open spec fn markdown_of(t: Seq<ColumnModel>) -> Seq<char> {
    markdown_line(names_of(t)) + markdown_line(Seq::new(t.len(), |c: int| seq!['-', '-', '-']))
        + markdown_rows(t, row_count(t))
}

impl Table {
    /// The table as a markdown table.
    pub fn to_markdown(&self) -> (r: String)
        requires
            self.wf(),
        ensures
            r@ == markdown_of(self@),
    {
        let ghost t = self@;
        let ghost names = names_of(t);
        let ghost rules = Seq::new(t.len(), |c: int| seq!['-', '-', '-']);
        proof {
            reveal_strlit("|");
            reveal_strlit(" ");
            reveal_strlit(" |");
            reveal_strlit("\n");
            reveal_strlit(" --- |");
        }
        let columns = self.columns.len();
        let mut text = String::new();
        text.append("|");
        let mut c: usize = 0;
        while c < columns
            invariant
                t == self@,
                names == names_of(t),
                columns == t.len(),
                c <= columns,
                text@ == seq!['|'] + markdown_cells(names.take(c as int)),
            decreases columns - c,
        {
            proof {
                reveal_strlit(" ");
                reveal_strlit(" |");
                assert(names.take(c + 1).drop_last() =~= names.take(c as int));
                assert(names.take(c + 1).last() == t[c as int].name);
            }
            text.append(" ");
            text.append(self.columns[c].name());
            text.append(" |");
            assert(text@ =~= seq!['|'] + markdown_cells(names.take(c + 1)));
            c += 1;
        }
        text.append("\n");
        assert(names.take(columns as int) =~= names);
        assert(text@ =~= markdown_line(names));
        text.append("|");
        c = 0;
        while c < columns
            invariant
                t == self@,
                names == names_of(t),
                rules == Seq::new(t.len(), |c: int| seq!['-', '-', '-']),
                columns == t.len(),
                c <= columns,
                text@ == markdown_line(names) + seq!['|'] + markdown_cells(rules.take(c as int)),
            decreases columns - c,
        {
            proof {
                reveal_strlit(" --- |");
                assert(rules.take(c + 1).drop_last() =~= rules.take(c as int));
                assert(rules.take(c + 1).last() =~= seq!['-', '-', '-']);
                assert(" --- |"@ =~= seq![' '] + seq!['-', '-', '-'] + seq![' ', '|']);
            }
            text.append(" --- |");
            assert(text@ =~= markdown_line(names) + seq!['|'] + markdown_cells(rules.take(c + 1)));
            c += 1;
        }
        text.append("\n");
        assert(rules.take(columns as int) =~= rules);
        assert(text@ =~= markdown_line(names) + markdown_line(rules));
        let rows = self.len();
        let mut i: usize = 0;
        assert(text@ =~= markdown_line(names) + markdown_line(rules) + markdown_rows(t, 0));
        while i < rows
            invariant
                t == self@,
                self.wf(),
                names == names_of(t),
                rules == Seq::new(t.len(), |c: int| seq!['-', '-', '-']),
                columns == t.len(),
                rows == row_count(t),
                i <= rows,
                text@ == markdown_line(names) + markdown_line(rules) + markdown_rows(t, i as nat),
            decreases rows - i,
        {
            let ghost head = text@;
            let ghost cells = row_texts(t, i as int);
            proof {
                reveal_strlit("|");
            }
            text.append("|");
            c = 0;
            while c < columns
                invariant
                    t == self@,
                    self.wf(),
                    columns == t.len(),
                    rows == row_count(t),
                    i < rows,
                    cells == row_texts(t, i as int),
                    c <= columns,
                    text@ == head + seq!['|'] + markdown_cells(cells.take(c as int)),
                decreases columns - c,
            {
                proof {
                    reveal_strlit(" ");
                    reveal_strlit(" |");
                    assert(cells.take(c + 1).drop_last() =~= cells.take(c as int));
                    assert(cells.take(c + 1).last() == t[c as int].texts[i as int]);
                    assert(t[c as int].texts.len() == row_count(t));
                    assert(self.columns@[c as int]@ == t[c as int]);
                }
                let cell = self.columns[c].get_as_string(i).unwrap();
                text.append(" ");
                text.append(cell.as_str());
                text.append(" |");
                assert(text@ =~= head + seq!['|'] + markdown_cells(cells.take(c + 1)));
                c += 1;
            }
            proof {
                reveal_strlit("\n");
            }
            text.append("\n");
            assert(cells.take(columns as int) =~= cells);
            assert(text@ =~= markdown_line(names) + markdown_line(rules) + markdown_rows(
                t,
                (i + 1) as nat,
            ));
            i += 1;
        }
        text
    }
}

} // verus!
