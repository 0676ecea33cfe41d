//! Joins of two tables on one or more key columns.

use crate::columns::column::Column;
use crate::columns::column_trait::{ColumnModel, ColumnTrait, ColumnType};
use crate::columns::string_column::StringColumn;
use crate::error::TableError;
use crate::grouping::{
    column_of, has_columns, index_of_table, keys_upto, lemma_column_of, lemma_index_lookup,
    lemma_keys_upto, lemma_new_key_has_no_rows, lemma_rows_with_key, row_key, rows_with_key,
    strs_view,
};
use crate::order::texts_of;
use crate::table::{names_of, row_count, table_wf, with_texts, Table};
use vstd::prelude::*;

verus! {

/// Which rows a join keeps.
#[derive(Debug, Clone, Copy, PartialEq, Eq, Structural)]
pub enum JoinType {
    /// Only pairs of rows with equal keys.
    Inner,
    /// Every left row; one without a match stands alone.
    Left,
    /// As `Inner`, and then every right row whose key no left row has.
    Right,
}

/// Where a row of a join comes from: a row of the left table, a row of the
/// right table, or one of each.
pub struct JoinSource {
    pub left: Option<int>,
    pub right: Option<int>,
}

/// Those of the first `n` names of `more` that are not among `have`, in
/// their order.
pub open spec fn names_beside(have: Seq<Seq<char>>, more: Seq<Seq<char>>, n: nat) -> Seq<
    Seq<char>,
>
    decreases n,
{
    if n == 0 {
        Seq::empty()
    } else if have.contains(more[n - 1]) {
        names_beside(have, more, (n - 1) as nat)
    } else {
        names_beside(have, more, (n - 1) as nat).push(more[n - 1])
    }
}

/// The column names of a join: those of the left table in their order, then
/// those of the right table that the left table lacks, in their order.
pub open spec fn join_names(l: Seq<ColumnModel>, r: Seq<ColumnModel>) -> Seq<Seq<char>> {
    names_of(l) + names_beside(names_of(l), names_of(r), r.len())
}

/// The rows that come of the given right rows, each together with the left
/// row `left`, or alone where there is none.
pub open spec fn sources_of(left: Option<int>, rows: Seq<usize>) -> Seq<JoinSource> {
    Seq::new(rows.len(), |k: int| JoinSource { left, right: Some(rows[k] as int) })
}

/// The rows that left row `i` gives: one for each right row with the same
/// key, in the order of the right table; where there is none, the left row
/// alone under `Left` and nothing otherwise.
pub open spec fn left_row_sources(
    l: Seq<ColumnModel>,
    r: Seq<ColumnModel>,
    on: Seq<Seq<char>>,
    mode: JoinType,
    i: int,
) -> Seq<JoinSource> {
    let matches = rows_with_key(r, on, row_key(l, on, i), row_count(r));
    if matches.len() > 0 {
        sources_of(Some(i), matches)
    } else if mode == JoinType::Left {
        seq![JoinSource { left: Some(i), right: None }]
    } else {
        Seq::empty()
    }
}

/// The rows that the first `n` left rows give, in the order of the left
/// table.
pub open spec fn left_scan(
    l: Seq<ColumnModel>,
    r: Seq<ColumnModel>,
    on: Seq<Seq<char>>,
    mode: JoinType,
    n: nat,
) -> Seq<JoinSource>
    decreases n,
{
    if n == 0 {
        Seq::empty()
    } else {
        left_scan(l, r, on, mode, (n - 1) as nat) + left_row_sources(l, r, on, mode, n - 1)
    }
}

/// The right rows under one key, each standing alone, where no left row has
/// that key; nothing where one has.
pub open spec fn right_key_sources(
    l: Seq<ColumnModel>,
    r: Seq<ColumnModel>,
    on: Seq<Seq<char>>,
    key: Seq<Seq<char>>,
) -> Seq<JoinSource> {
    let bucket = rows_with_key(r, on, key, row_count(r));
    if rows_with_key(l, on, key, row_count(l)).len() == 0 {
        sources_of(None, bucket)
    } else {
        Seq::empty()
    }
}

/// The right rows without a left match under the first `m` distinct keys of
/// the right table, key by key in the order in which the right table first
/// shows the keys, and under each key in the order of the right table.
pub open spec fn right_only(
    l: Seq<ColumnModel>,
    r: Seq<ColumnModel>,
    on: Seq<Seq<char>>,
    m: nat,
) -> Seq<JoinSource>
    decreases m,
{
    if m == 0 {
        Seq::empty()
    } else {
        right_only(l, r, on, (m - 1) as nat) + right_key_sources(
            l,
            r,
            on,
            keys_upto(r, on, row_count(r))[m - 1],
        )
    }
}

/// The rows of a join, in order: what the scan of the left table gives, and
/// under `Right` the right rows without a left match after them.
pub open spec fn join_sources(
    l: Seq<ColumnModel>,
    r: Seq<ColumnModel>,
    on: Seq<Seq<char>>,
    mode: JoinType,
) -> Seq<JoinSource> {
    if mode == JoinType::Right {
        left_scan(l, r, on, mode, row_count(l)) + right_only(
            l,
            r,
            on,
            keys_upto(r, on, row_count(r)).len(),
        )
    } else {
        left_scan(l, r, on, mode, row_count(l))
    }
}

/// The text of the column called `name` in a row of a join. A row that has a
/// left row takes the left table's value where the left table has the
/// column, and else the right row's value, or the empty text where it has no
/// right row. A row without a left row takes the right table's value where
/// the right table has the column, and else the empty text.
pub open spec fn join_cell(
    l: Seq<ColumnModel>,
    r: Seq<ColumnModel>,
    name: Seq<char>,
    source: JoinSource,
) -> Seq<char> {
    match (source.left, source.right) {
        (Some(i), Some(j)) => if names_of(l).contains(name) {
            column_of(l, name).texts[i]
        } else {
            column_of(r, name).texts[j]
        },
        (Some(i), None) => if names_of(l).contains(name) {
            column_of(l, name).texts[i]
        } else {
            Seq::empty()
        },
        (None, Some(j)) => if names_of(r).contains(name) {
            column_of(r, name).texts[j]
        } else {
            Seq::empty()
        },
        (None, None) => Seq::empty(),
    }
}

/// The table that holds the given rows of a join: a column of texts for each
/// name of the join, with one text for each row.
pub open spec fn joined_table(
    l: Seq<ColumnModel>,
    r: Seq<ColumnModel>,
    rows: Seq<JoinSource>,
) -> Seq<ColumnModel> {
    Seq::new(
        join_names(l, r).len(),
        |c: int|
            ColumnModel {
                name: join_names(l, r)[c],
                kind: ColumnType::String,
                texts: Seq::new(rows.len(), |k: int| join_cell(l, r, join_names(l, r)[c], rows[k])),
            },
    )
}

/// What a join of two tables on the named columns is.
pub open spec fn join_model(
    l: Seq<ColumnModel>,
    r: Seq<ColumnModel>,
    on: Seq<Seq<char>>,
    mode: JoinType,
) -> Seq<ColumnModel> {
    joined_table(l, r, join_sources(l, r, on, mode))
}

/// The names that stand beside those of a table are names of the other
/// table that the first lacks, each once.
pub proof fn lemma_names_beside(l: Seq<ColumnModel>, r: Seq<ColumnModel>, n: nat)
    requires
        table_wf(r),
        n <= r.len(),
    ensures
        names_beside(names_of(l), names_of(r), n).no_duplicates(),
        forall|k: int|
            0 <= k < names_beside(names_of(l), names_of(r), n).len() ==> {
                let name = #[trigger] names_beside(names_of(l), names_of(r), n)[k];
                !names_of(l).contains(name) && exists|c: int| 0 <= c < n && names_of(r)[c] == name
            },
        forall|c: int|
            0 <= c < n && !names_of(l).contains(names_of(r)[c]) ==> names_beside(
                names_of(l),
                names_of(r),
                n,
            ).contains(#[trigger] names_of(r)[c]),
    decreases n,
{
    if n > 0 {
        let have = names_of(l);
        let more = names_of(r);
        let prev = names_beside(have, more, (n - 1) as nat);
        let now = names_beside(have, more, n);
        lemma_names_beside(l, r, (n - 1) as nat);
        assert forall|k: int| 0 <= k < now.len() implies {
            let name = #[trigger] now[k];
            !have.contains(name) && exists|c: int| 0 <= c < n && more[c] == name
        } by {
            if k < prev.len() {
                let name = prev[k];
                let c = choose|c: int| 0 <= c < n - 1 && more[c] == name;
                assert(0 <= c < n && more[c] == name);
            } else {
                assert(more[n - 1] == now[k]);
            }
        }
        assert forall|c: int| 0 <= c < n && !have.contains(more[c]) implies now.contains(
            #[trigger] more[c],
        ) by {
            if c < n - 1 {
                let k = prev.index_of(more[c]);
                assert(prev.contains(more[c]));
                assert(now[k] == more[c]);
            } else {
                assert(now[now.len() - 1] == more[c]);
            }
        }
        if !have.contains(more[n - 1]) {
            assert forall|i: int, j: int| 0 <= i < now.len() && 0 <= j < now.len() && i
                != j implies now[i] != now[j] by {
                if i == prev.len() || j == prev.len() {
                    let k = if i == prev.len() {
                        j
                    } else {
                        i
                    };
                    let c = choose|c: int| 0 <= c < n - 1 && more[c] == prev[k];
                    assert(r[c].name != r[n - 1].name);
                }
            }
        }
    }
}

/// The names of a join are distinct, and each is a name of the left table
/// or of the right table.
pub proof fn lemma_join_names(l: Seq<ColumnModel>, r: Seq<ColumnModel>)
    requires
        table_wf(l),
        table_wf(r),
    ensures
        join_names(l, r).no_duplicates(),
        forall|c: int|
            0 <= c < join_names(l, r).len() ==> names_of(l).contains(#[trigger] join_names(l, r)[c])
                || names_of(r).contains(join_names(l, r)[c]),
{
    let a = names_of(l);
    let b = names_beside(names_of(l), names_of(r), r.len());
    let names = join_names(l, r);
    lemma_names_beside(l, r, r.len());
    assert forall|i: int, j: int| 0 <= i < names.len() && 0 <= j < names.len() && i
        != j implies names[i] != names[j] by {
        if i < a.len() && j < a.len() {
            if i < j {
                assert(l[i].name != l[j].name);
            } else {
                assert(l[j].name != l[i].name);
            }
        } else if i >= a.len() && j >= a.len() {
            assert(b[i - a.len()] != b[j - a.len()]);
        } else if i < a.len() {
            assert(!a.contains(b[j - a.len()]));
        } else {
            assert(!a.contains(b[i - a.len()]));
        }
    }
    assert forall|c: int| 0 <= c < names.len() implies a.contains(#[trigger] names[c])
        || names_of(r).contains(names[c]) by {
        if c < a.len() {
            assert(a[c] == names[c]);
        } else {
            let name = b[c - a.len()];
            assert(!a.contains(name) && exists|k: int| 0 <= k < r.len() && names_of(r)[k] == name);
        }
    }
}

/// A table of join rows is a table, with as many rows as it was given.
pub proof fn lemma_joined_table_wf(l: Seq<ColumnModel>, r: Seq<ColumnModel>, rows: Seq<JoinSource>)
    requires
        table_wf(l),
        table_wf(r),
    ensures
        table_wf(joined_table(l, r, rows)),
        joined_table(l, r, rows).len() > 0 ==> row_count(joined_table(l, r, rows)) == rows.len(),
{
    lemma_join_names(l, r);
}

/// The number of pairs of one of the first `n` rows of `a` and one row of `b`
/// that have the same key over the named columns.
spec fn match_count(
    a: Seq<ColumnModel>,
    b: Seq<ColumnModel>,
    on: Seq<Seq<char>>,
    n: nat,
) -> nat
    decreases n,
{
    if n == 0 {
        0
    } else {
        match_count(a, b, on, (n - 1) as nat) + rows_with_key(
            b,
            on,
            row_key(a, on, n - 1),
            row_count(b),
        ).len()
    }
}

/// The number of those of the first `n` rows of `a` whose key over the named
/// columns no row of `b` has.
spec fn unmatched_count(
    a: Seq<ColumnModel>,
    b: Seq<ColumnModel>,
    on: Seq<Seq<char>>,
    n: nat,
) -> nat
    decreases n,
{
    if n == 0 {
        0
    } else if rows_with_key(b, on, row_key(a, on, n - 1), row_count(b)).len() == 0 {
        unmatched_count(a, b, on, (n - 1) as nat) + 1
    } else {
        unmatched_count(a, b, on, (n - 1) as nat)
    }
}

/// The scan of the first `n` left rows gives one row for each matching pair,
/// and under `Left` one more for each left row without a match.
proof fn lemma_left_scan_len(
    l: Seq<ColumnModel>,
    r: Seq<ColumnModel>,
    on: Seq<Seq<char>>,
    mode: JoinType,
    n: nat,
)
    ensures
        left_scan(l, r, on, mode, n).len() == match_count(l, r, on, n) + if mode == JoinType::Left {
            unmatched_count(l, r, on, n)
        } else {
            0
        },
    decreases n,
{
    if n > 0 {
        lemma_left_scan_len(l, r, on, mode, (n - 1) as nat);
    }
}

/// The number of rows that the first `m` of the given keys contribute to the
/// rows without a left match, counting the first `n` right rows only.
spec fn right_only_count(
    l: Seq<ColumnModel>,
    r: Seq<ColumnModel>,
    on: Seq<Seq<char>>,
    keys: Seq<Seq<Seq<char>>>,
    n: nat,
    m: nat,
) -> nat
    decreases m,
{
    if m == 0 {
        0
    } else if rows_with_key(l, on, keys[m - 1], row_count(l)).len() == 0 {
        right_only_count(l, r, on, keys, n, (m - 1) as nat) + rows_with_key(
            r,
            on,
            keys[m - 1],
            n,
        ).len()
    } else {
        right_only_count(l, r, on, keys, n, (m - 1) as nat)
    }
}

/// Taking in one more right row adds to the count only under that row's key.
proof fn lemma_right_only_count_step(
    l: Seq<ColumnModel>,
    r: Seq<ColumnModel>,
    on: Seq<Seq<char>>,
    keys: Seq<Seq<Seq<char>>>,
    n: nat,
    m: nat,
)
    requires
        m <= keys.len(),
        keys.no_duplicates(),
    ensures
        right_only_count(l, r, on, keys, n + 1, m) == right_only_count(l, r, on, keys, n, m)
            + if keys.take(m as int).contains(row_key(r, on, n as int)) && rows_with_key(
            l,
            on,
            row_key(r, on, n as int),
            row_count(l),
        ).len() == 0 {
            1nat
        } else {
            0nat
        },
    decreases m,
{
    let key = row_key(r, on, n as int);
    if m > 0 {
        lemma_right_only_count_step(l, r, on, keys, n, (m - 1) as nat);
        let prev = keys.take(m - 1);
        let now = keys.take(m as int);
        assert(now =~= prev.push(keys[m - 1]));
        if prev.contains(key) {
            let j = prev.index_of(key);
            assert(now[j] == key);
            assert(keys[j] == key);
            assert(keys[m - 1] != key);
        } else if keys[m - 1] == key {
            assert(now[m - 1] == key);
        } else {
            if now.contains(key) {
                let j = now.index_of(key);
                if j < m - 1 {
                    assert(prev[j] == key);
                }
            }
        }
    } else {
        assert(keys.take(0) =~= Seq::<Seq<Seq<char>>>::empty());
    }
}

/// A key that is not among the first `m` keys adds nothing when it is put
/// behind them.
proof fn lemma_right_only_count_prefix(
    l: Seq<ColumnModel>,
    r: Seq<ColumnModel>,
    on: Seq<Seq<char>>,
    a: Seq<Seq<Seq<char>>>,
    b: Seq<Seq<Seq<char>>>,
    n: nat,
    m: nat,
)
    requires
        m <= a.len(),
        m <= b.len(),
        forall|j: int| 0 <= j < m ==> a[j] == b[j],
    ensures
        right_only_count(l, r, on, a, n, m) == right_only_count(l, r, on, b, n, m),
    decreases m,
{
    if m > 0 {
        lemma_right_only_count_prefix(l, r, on, a, b, n, (m - 1) as nat);
    }
}

/// Over the distinct keys of the first `n` right rows, the rows without a
/// left match are as many as the right rows among these whose key no left
/// row has.
proof fn lemma_right_only_count(
    l: Seq<ColumnModel>,
    r: Seq<ColumnModel>,
    on: Seq<Seq<char>>,
    n: nat,
)
    ensures
        right_only_count(l, r, on, keys_upto(r, on, n), n, keys_upto(r, on, n).len())
            == unmatched_count(r, l, on, n),
    decreases n,
{
    if n > 0 {
        let prev = keys_upto(r, on, (n - 1) as nat);
        let keys = keys_upto(r, on, n);
        let key = row_key(r, on, n - 1);
        lemma_right_only_count(l, r, on, (n - 1) as nat);
        lemma_keys_upto(r, on, (n - 1) as nat);
        lemma_keys_upto(r, on, n);
        assert(prev.take(prev.len() as int) =~= prev);
        assert(keys.take(keys.len() as int) =~= keys);
        if prev.contains(key) {
            lemma_right_only_count_step(l, r, on, prev, (n - 1) as nat, prev.len());
        } else {
            lemma_right_only_count_prefix(l, r, on, prev, keys, (n - 1) as nat, prev.len());
            lemma_right_only_count_step(l, r, on, keys, (n - 1) as nat, prev.len());
            assert(keys.take(prev.len() as int) =~= prev);
            lemma_new_key_has_no_rows(r, on, key, (n - 1) as nat);
            assert(rows_with_key(r, on, key, n).len() == 1);
        }
    }
}

/// The rows without a left match under the first `m` distinct keys of the
/// right table are as many as counted.
proof fn lemma_right_only_len(l: Seq<ColumnModel>, r: Seq<ColumnModel>, on: Seq<Seq<char>>, m: nat)
    ensures
        right_only(l, r, on, m).len() == right_only_count(
            l,
            r,
            on,
            keys_upto(r, on, row_count(r)),
            row_count(r),
            m,
        ),
    decreases m,
{
    if m > 0 {
        lemma_right_only_len(l, r, on, (m - 1) as nat);
    }
}

/// The pairs of a row of `a` and a row of `b` that have the same key over
/// the named columns, each row given by its position.
pub open spec fn matching_pairs(
    a: Seq<ColumnModel>,
    b: Seq<ColumnModel>,
    on: Seq<Seq<char>>,
) -> Set<(int, int)> {
    Set::new(
        |p: (int, int)|
            0 <= p.0 < row_count(a) && 0 <= p.1 < row_count(b) && row_key(a, on, p.0) == row_key(
                b,
                on,
                p.1,
            ),
    )
}

/// The positions of the rows of `a` whose key over the named columns no row
/// of `b` has.
pub open spec fn unmatched_rows(
    a: Seq<ColumnModel>,
    b: Seq<ColumnModel>,
    on: Seq<Seq<char>>,
) -> Set<int> {
    Set::new(
        |i: int|
            0 <= i < row_count(a) && forall|j: int|
                0 <= j < row_count(b) ==> row_key(a, on, i) != #[trigger] row_key(b, on, j),
    )
}

/// The matching pairs whose row of `a` is among the first `n`, or is row `n`
/// with a row of `b` among the first `m`.
spec fn pairs_below(
    a: Seq<ColumnModel>,
    b: Seq<ColumnModel>,
    on: Seq<Seq<char>>,
    n: nat,
    m: nat,
) -> Set<(int, int)> {
    Set::new(
        |p: (int, int)|
            row_key(a, on, p.0) == row_key(b, on, p.1) && ((0 <= p.0 < n && 0 <= p.1 < row_count(b))
                || (p.0 == n && 0 <= p.1 < m)),
    )
}

/// Counting matching pairs row by row counts the set of matching pairs.
proof fn lemma_pairs_below(
    a: Seq<ColumnModel>,
    b: Seq<ColumnModel>,
    on: Seq<Seq<char>>,
    n: nat,
    m: nat,
)
    requires
        m <= row_count(b) <= usize::MAX,
    ensures
        pairs_below(a, b, on, n, m).finite(),
        pairs_below(a, b, on, n, m).len() == match_count(a, b, on, n) + rows_with_key(
            b,
            on,
            row_key(a, on, n as int),
            m,
        ).len(),
    decreases n, m,
{
    let now = pairs_below(a, b, on, n, m);
    if m > 0 {
        let before = pairs_below(a, b, on, n, (m - 1) as nat);
        lemma_pairs_below(a, b, on, n, (m - 1) as nat);
        if row_key(a, on, n as int) == row_key(b, on, m - 1) {
            assert(now =~= before.insert((n as int, m - 1)));
        } else {
            assert(now =~= before);
        }
    } else if n > 0 {
        lemma_pairs_below(a, b, on, (n - 1) as nat, row_count(b));
        assert(now =~= pairs_below(a, b, on, (n - 1) as nat, row_count(b)));
    } else {
        assert(now =~= Set::<(int, int)>::empty());
    }
}

/// The positions of the rows without a match among the first `n` rows.
spec fn unmatched_below(
    a: Seq<ColumnModel>,
    b: Seq<ColumnModel>,
    on: Seq<Seq<char>>,
    n: nat,
) -> Set<int> {
    Set::new(
        |i: int|
            0 <= i < n && forall|j: int|
                0 <= j < row_count(b) ==> row_key(a, on, i) != #[trigger] row_key(b, on, j),
    )
}

/// Counting rows without a match row by row counts the set of these rows.
proof fn lemma_unmatched_below(
    a: Seq<ColumnModel>,
    b: Seq<ColumnModel>,
    on: Seq<Seq<char>>,
    n: nat,
)
    requires
        row_count(b) <= usize::MAX,
    ensures
        unmatched_below(a, b, on, n).finite(),
        unmatched_below(a, b, on, n).len() == unmatched_count(a, b, on, n),
    decreases n,
{
    let now = unmatched_below(a, b, on, n);
    if n > 0 {
        let before = unmatched_below(a, b, on, (n - 1) as nat);
        let key = row_key(a, on, n - 1);
        let matches = rows_with_key(b, on, key, row_count(b));
        lemma_unmatched_below(a, b, on, (n - 1) as nat);
        lemma_rows_with_key(b, on, key, row_count(b));
        if matches.len() == 0 {
            assert forall|j: int| 0 <= j < row_count(b) implies key != #[trigger] row_key(
                b,
                on,
                j,
            ) by {
                if row_key(b, on, j) == key {
                    assert(matches.contains(j as usize));
                }
            }
            assert(now =~= before.insert(n - 1));
        } else {
            assert(row_key(b, on, matches[0] as int) == key);
            assert(now =~= before);
        }
    } else {
        assert(now =~= Set::<int>::empty());
    }
}

/// The number of rows of a join. An inner join has as many rows as there are
/// pairs of a left and a right row with equal keys. A left join has that
/// many and one more for each left row without a match; a right join has
/// that many and one more for each right row without a match.
pub proof fn lemma_join_cardinality(l: Seq<ColumnModel>, r: Seq<ColumnModel>, on: Seq<Seq<char>>)
    requires
        table_wf(l),
        table_wf(r),
        has_columns(l, on),
        has_columns(r, on),
        row_count(l) <= usize::MAX,
        row_count(r) <= usize::MAX,
    ensures
        matching_pairs(l, r, on).finite(),
        unmatched_rows(l, r, on).finite(),
        unmatched_rows(r, l, on).finite(),
        row_count(join_model(l, r, on, JoinType::Inner)) == matching_pairs(l, r, on).len(),
        row_count(join_model(l, r, on, JoinType::Left)) == matching_pairs(l, r, on).len()
            + unmatched_rows(l, r, on).len(),
        row_count(join_model(l, r, on, JoinType::Right)) == matching_pairs(l, r, on).len()
            + unmatched_rows(r, l, on).len(),
{
    let nl = row_count(l);
    let nr = row_count(r);
    lemma_left_scan_len(l, r, on, JoinType::Inner, nl);
    lemma_left_scan_len(l, r, on, JoinType::Left, nl);
    lemma_left_scan_len(l, r, on, JoinType::Right, nl);
    lemma_right_only_len(l, r, on, keys_upto(r, on, nr).len());
    lemma_right_only_count(l, r, on, nr);
    lemma_pairs_below(l, r, on, nl, 0);
    assert(matching_pairs(l, r, on) =~= pairs_below(l, r, on, nl, 0));
    lemma_unmatched_below(l, r, on, nl);
    assert(unmatched_rows(l, r, on) =~= unmatched_below(l, r, on, nl));
    lemma_unmatched_below(r, l, on, nr);
    assert(unmatched_rows(r, l, on) =~= unmatched_below(r, l, on, nr));
    if join_names(l, r).len() == 0 {
        assert(names_of(l).len() == 0);
        assert(names_beside(names_of(l), names_of(r), r.len()).len() == 0);
        lemma_names_beside(l, r, r.len());
        if r.len() > 0 {
            assert(!names_of(l).contains(names_of(r)[0]));
            assert(names_beside(names_of(l), names_of(r), r.len()).contains(names_of(r)[0]));
        }
        assert(nl == 0 && nr == 0);
        assert(keys_upto(r, on, 0).len() == 0);
    }
}

/// Whether `slot` says where the column called `name` stands in the table:
/// its position, or nothing where the table has no such column.
pub open spec fn slot_ok(t: Seq<ColumnModel>, name: Seq<char>, slot: Option<usize>) -> bool {
    match slot {
        Some(p) => p < t.len() && t[p as int].name == name,
        None => !names_of(t).contains(name),
    }
}

/// Whether `layout` says, for each name of the join, where the column of
/// that name stands in the left and in the right table.
pub open spec fn layout_ok(
    l: Seq<ColumnModel>,
    r: Seq<ColumnModel>,
    layout: Seq<(Option<usize>, Option<usize>)>,
) -> bool {
    &&& layout.len() == join_names(l, r).len()
    &&& forall|c: int|
        0 <= c < layout.len() ==> slot_ok(l, join_names(l, r)[c], (#[trigger] layout[c]).0)
            && slot_ok(r, join_names(l, r)[c], layout[c].1)
}

/// An empty table with the columns of a join, and beside it the place of
/// each of these columns in the left and in the right table.
fn join_columns(left: &Table, right: &Table) -> (r: (Table, Vec<(Option<usize>, Option<usize>)>))
    requires
        left.wf(),
        right.wf(),
    ensures
        r.0@ == joined_table(left@, right@, Seq::empty()),
        r.0.wf(),
        layout_ok(left@, right@, r.1@),
{
    let ghost l = left@;
    let ghost rt = right@;
    let mut result = Table::new();
    let mut layout: Vec<(Option<usize>, Option<usize>)> = Vec::new();
    let mut c: usize = 0;
    while c < left.columns.len()
        invariant
            l == left@,
            rt == right@,
            table_wf(l),
            table_wf(rt),
            result.wf(),
            c <= l.len(),
            result@.len() == c,
            layout@.len() == c,
            forall|k: int|
                0 <= k < c ==> #[trigger] result@[k] == (ColumnModel {
                    name: l[k].name,
                    kind: ColumnType::String,
                    texts: Seq::empty(),
                }),
            forall|k: int|
                0 <= k < c ==> slot_ok(l, l[k].name, (#[trigger] layout@[k]).0) && slot_ok(
                    rt,
                    l[k].name,
                    layout@[k].1,
                ),
        decreases l.len() - c,
    {
        let name = left.columns[c].name();
        assert(name@ == l[c as int].name);
        let slot = right.get_column_index(name);
        proof {
            if names_of(result@).contains(name@) {
                let k = names_of(result@).index_of(name@);
                assert(result@[k].name == l[k].name);
                assert(l[k].name != l[c as int].name);
            }
        }
        match result.add_column(Column::Text(StringColumn::new(name))) {
            Ok(()) => {},
            Err(e) => {
                return (result, layout);
            },
        }
        layout.push((Some(c), slot));
        c += 1;
    }
    let ghost have = names_of(l);
    let ghost more = names_of(rt);
    assert(names_beside(have, more, 0) =~= Seq::<Seq<char>>::empty());
    c = 0;
    while c < right.columns.len()
        invariant
            l == left@,
            rt == right@,
            have == names_of(l),
            more == names_of(rt),
            table_wf(l),
            table_wf(rt),
            result.wf(),
            c <= rt.len(),
            result@.len() == layout@.len(),
            names_of(result@) == have + names_beside(have, more, c as nat),
            forall|k: int|
                0 <= k < result@.len() ==> (#[trigger] result@[k]).kind == ColumnType::String
                    && result@[k].texts == Seq::<Seq<char>>::empty(),
            forall|k: int|
                0 <= k < layout@.len() ==>
                    slot_ok(l, names_of(result@)[k], (#[trigger] layout@[k]).0)
                    && slot_ok(rt, names_of(result@)[k], layout@[k].1),
        decreases rt.len() - c,
    {
        let name = right.columns[c].name();
        assert(name@ == rt[c as int].name);
        assert(name@ == more[c as int]);
        let ghost before = result@;
        if left.get_column_index(name).is_none() {
            proof {
                lemma_names_beside(l, rt, c as nat);
                if names_of(result@).contains(name@) {
                    let k = names_of(result@).index_of(name@);
                    if k < have.len() {
                        assert(have[k] == name@);
                    } else {
                        let prev = names_beside(have, more, c as nat);
                        assert(prev[k - have.len()] == name@);
                        let c2 = choose|c2: int| 0 <= c2 < c && more[c2] == name@;
                        assert(rt[c2].name != rt[c as int].name);
                    }
                }
            }
            match result.add_column(Column::Text(StringColumn::new(name))) {
                Ok(()) => {},
                Err(e) => {
                    return (result, layout);
                },
            }
            layout.push((None, Some(c)));
            proof {
                assert(names_of(result@) =~= names_of(before).push(name@));
                assert(names_of(result@) =~= have + names_beside(have, more, (c + 1) as nat));
                assert forall|k: int| 0 <= k < layout@.len() implies slot_ok(
                    l,
                    names_of(result@)[k],
                    (#[trigger] layout@[k]).0,
                ) && slot_ok(rt, names_of(result@)[k], layout@[k].1) by {
                    if k < before.len() {
                        assert(names_of(result@)[k] == names_of(before)[k]);
                    }
                }
            }
        }
        c += 1;
    }
    proof {
        let target = joined_table(l, rt, Seq::empty());
        assert(names_of(result@) == join_names(l, rt));
        assert forall|k: int| 0 <= k < result@.len() implies result@[k] == target[k] by {
            assert(names_of(result@)[k] == result@[k].name);
            assert(target[k].texts =~= Seq::<Seq<char>>::empty());
        }
        assert(result@.len() == names_of(result@).len());
        assert(result@ =~= target);
    }
    (result, layout)
}

/// The text of a right row's value in the column at `slot`, or the empty
/// text where there is no right row or no such column.
fn right_text(right: &Table, slot: Option<usize>, row: Option<usize>) -> (r: String)
    requires
        right.wf(),
        slot matches Some(q) ==> q < right@.len(),
        row matches Some(j) ==> j < row_count(right@),
    ensures
        r@ == match (slot, row) {
            (Some(q), Some(j)) => right@[q as int].texts[j as int],
            _ => Seq::<char>::empty(),
        },
{
    match (slot, row) {
        (Some(q), Some(j)) => {
            assert(right@[q as int].texts.len() == row_count(right@));
            assert(right.columns@[q as int]@ == right@[q as int]);
            right.columns[q].get_as_string(j).unwrap()
        },
        _ => String::new(),
    }
}

/// Appends one row of a join to the table that holds the rows before it.
fn push_joined(
    result: &mut Table,
    left: &Table,
    right: &Table,
    layout: &Vec<(Option<usize>, Option<usize>)>,
    li: Option<usize>,
    ri: Option<usize>,
    Ghost(rows): Ghost<Seq<JoinSource>>,
)
    requires
        left.wf(),
        right.wf(),
        old(result)@ == joined_table(left@, right@, rows),
        layout_ok(left@, right@, layout@),
        li matches Some(i) ==> i < row_count(left@),
        ri matches Some(j) ==> j < row_count(right@),
    ensures
        final(result)@ == joined_table(
            left@,
            right@,
            rows.push(
                JoinSource {
                    left: match li {
                        Some(i) => Some(i as int),
                        None => None,
                    },
                    right: match ri {
                        Some(j) => Some(j as int),
                        None => None,
                    },
                },
            ),
        ),
{
    let ghost l = left@;
    let ghost rt = right@;
    let ghost names = join_names(l, rt);
    let ghost before = result@;
    let ghost source = JoinSource {
        left: match li {
            Some(i) => Some(i as int),
            None => None,
        },
        right: match ri {
            Some(j) => Some(j as int),
            None => None,
        },
    };
    proof {
        lemma_join_names(l, rt);
        lemma_joined_table_wf(l, rt, rows);
    }
    let n = result.columns.len();
    let mut texts: Vec<String> = Vec::new();
    let mut c: usize = 0;
    while c < n
        invariant
            l == left@,
            rt == right@,
            table_wf(l),
            table_wf(rt),
            names == join_names(l, rt),
            n == names.len(),
            layout_ok(l, rt, layout@),
            li matches Some(i) ==> i < row_count(l),
            ri matches Some(j) ==> j < row_count(rt),
            source.left == match li {
                Some(i) => Some(i as int),
                None => None,
            },
            source.right == match ri {
                Some(j) => Some(j as int),
                None => None,
            },
            c <= n,
            texts@.len() == c,
            forall|k: int|
                0 <= k < c ==> (#[trigger] texts@[k])@ == join_cell(l, rt, names[k], source),
        decreases n - c,
    {
        let (lslot, rslot) = layout[c];
        let ghost name = names[c as int];
        assert(slot_ok(l, name, layout@[c as int].0) && slot_ok(rt, name, layout@[c as int].1));
        proof {
            lemma_join_names(l, rt);
            assert(names_of(l).contains(name) || names_of(rt).contains(name));
            if let Some(p) = lslot {
                lemma_column_of(l, p as int);
            }
            if let Some(q) = rslot {
                lemma_column_of(rt, q as int);
            }
        }
        let text = match (li, lslot) {
            (Some(i), Some(p)) => {
                assert(l[p as int].texts.len() == row_count(l));
                assert(left.columns@[p as int]@ == l[p as int]);
                left.columns[p].get_as_string(i).unwrap()
            },
            _ => right_text(right, rslot, ri),
        };
        assert(text@ == join_cell(l, rt, name, source));
        texts.push(text);
        c += 1;
    }
    proof {
        let target = joined_table(l, rt, rows.push(source));
        let values = texts_of(texts@);
        let after = with_texts(before, values);
        assert forall|k: int| 0 <= k < target.len() implies after[k] == target[k] by {
            assert(values[k] == texts@[k]@);
            assert(after[k].texts =~= target[k].texts);
        }
        assert(after =~= target);
    }
    result.push_texts(&texts);
}

/// Appends to a table of join rows one row for each of the given right
/// rows, together with the left row `li` or alone where there is none.
fn push_matches(
    result: &mut Table,
    left: &Table,
    right: &Table,
    layout: &Vec<(Option<usize>, Option<usize>)>,
    li: Option<usize>,
    rows: &Vec<usize>,
    Ghost(before): Ghost<Seq<JoinSource>>,
)
    requires
        left.wf(),
        right.wf(),
        old(result)@ == joined_table(left@, right@, before),
        layout_ok(left@, right@, layout@),
        li matches Some(i) ==> i < row_count(left@),
        forall|y: int| 0 <= y < rows@.len() ==> (#[trigger] rows@[y]) < row_count(right@),
    ensures
        final(result)@ == joined_table(
            left@,
            right@,
            before + sources_of(
                match li {
                    Some(i) => Some(i as int),
                    None => None,
                },
                rows@,
            ),
        ),
{
    let ghost from = match li {
        Some(i) => Some(i as int),
        None => None,
    };
    let mut x: usize = 0;
    assert(before =~= before + sources_of(from, rows@.take(0)));
    while x < rows.len()
        invariant
            left.wf(),
            right.wf(),
            layout_ok(left@, right@, layout@),
            li matches Some(i) ==> i < row_count(left@),
            forall|y: int| 0 <= y < rows@.len() ==> (#[trigger] rows@[y]) < row_count(right@),
            from == match li {
                Some(i) => Some(i as int),
                None => None,
            },
            x <= rows@.len(),
            result@ == joined_table(left@, right@, before + sources_of(from, rows@.take(x as int))),
        decreases rows@.len() - x,
    {
        let ghost sofar = before + sources_of(from, rows@.take(x as int));
        push_joined(result, left, right, layout, li, Some(rows[x]), Ghost(sofar));
        assert(sofar.push(JoinSource { left: from, right: Some(rows@[x as int] as int) }) =~= before
            + sources_of(from, rows@.take(x + 1)));
        x += 1;
    }
    assert(rows@.take(rows@.len() as int) =~= rows@);
}

/// Joins two tables on the named key columns.
///
/// The result has the columns of the left table, then those of the right
/// table that the left table lacks; all of them hold texts. Its rows come
/// from a scan of the left table: a left row gives one row for each right row
/// with the same key, in the order of the right table, and where there is
/// none it gives one row with empty texts in the right table's columns under
/// `Left`, and nothing under `Inner` and `Right`. Under `Right` the right rows
/// whose key no left row has follow, key by key in the order in which the
/// right table first shows the keys, with empty texts in the columns that
/// only the left table has. A column that both tables have takes the left
/// table's value in a row that has a left row, and the right table's value
/// in a row that has none.
///
/// Where either table lacks one of the key columns the result is
/// `ColumnNotFound`.
pub fn join(left: &Table, right: &Table, on: &[&str], join_type: JoinType) -> (r: Result<
    Table,
    TableError,
>)
    requires
        left.wf(),
        right.wf(),
    ensures
        has_columns(left@, strs_view(on@)) && has_columns(right@, strs_view(on@)) ==> r is Ok
            && r->Ok_0.wf() && r->Ok_0@ == join_model(left@, right@, strs_view(on@), join_type),
        !(has_columns(left@, strs_view(on@)) && has_columns(right@, strs_view(on@))) ==> r == Err::<
            Table,
            TableError,
        >(TableError::ColumnNotFound),
{
    let ghost l = left@;
    let ghost rt = right@;
    let ghost names = strs_view(on@);
    let left_cols = match left.resolve_columns(on) {
        Ok(cols) => cols,
        Err(e) => {
            return Err(e);
        },
    };
    let right_index = match right.create_multi_index(on) {
        Ok(index) => index,
        Err(e) => {
            return Err(e);
        },
    };
    let (mut result, layout) = join_columns(left, right);
    let nl = left.len();
    let nr = right.len();
    let mut i: usize = 0;
    while i < nl
        invariant
            l == left@,
            rt == right@,
            names == strs_view(on@),
            table_wf(l),
            table_wf(rt),
            nl == row_count(l),
            nr == row_count(rt),
            i <= nl,
            left_cols@.len() == on@.len(),
            forall|j: int|
                0 <= j < on@.len() ==> (#[trigger] left_cols@[j]) < l.len()
                    && l[left_cols@[j] as int] == column_of(l, on@[j]@),
            right_index.wf(),
            right_index@ == index_of_table(rt, names),
            layout_ok(l, rt, layout@),
            result@ == joined_table(l, rt, left_scan(l, rt, names, join_type, i as nat)),
        decreases nl - i,
    {
        let key = left.key_of_row(&left_cols, i);
        let ghost scanned = left_scan(l, rt, names, join_type, i as nat);
        proof {
            assert(texts_of(key@) =~= row_key(l, names, i as int));
            lemma_index_lookup(rt, names, row_key(l, names, i as int));
        }
        match right_index.get(&key) {
            Some(found) => {
                push_matches(&mut result, left, right, &layout, Some(i), found, Ghost(scanned));
            },
            None => {
                match join_type {
                    JoinType::Left => {
                        push_joined(
                            &mut result,
                            left,
                            right,
                            &layout,
                            Some(i),
                            None,
                            Ghost(scanned),
                        );
                        assert(scanned.push(JoinSource { left: Some(i as int), right: None })
                            =~= left_scan(l, rt, names, join_type, (i + 1) as nat));
                    },
                    _ => {
                        assert(scanned =~= left_scan(l, rt, names, join_type, (i + 1) as nat));
                    },
                }
            },
        }
        i += 1;
    }
    match join_type {
        JoinType::Right => {
            let left_index = match left.create_multi_index(on) {
                Ok(index) => index,
                Err(e) => {
                    return Err(e);
                },
            };
            let ghost scanned = left_scan(l, rt, names, join_type, nl as nat);
            let ghost keys = keys_upto(rt, names, nr as nat);
            let mut m: usize = 0;
            assert(scanned =~= scanned + right_only(l, rt, names, 0));
            while m < right_index.len()
                invariant
                    l == left@,
                    rt == right@,
                    table_wf(l),
                    table_wf(rt),
                    nl == row_count(l),
                    nr == row_count(rt),
                    keys == keys_upto(rt, names, nr as nat),
                    right_index@ == index_of_table(rt, names),
                    left_index.wf(),
                    left_index@ == index_of_table(l, names),
                    layout_ok(l, rt, layout@),
                    m <= keys.len(),
                    result@ == joined_table(l, rt, scanned + right_only(l, rt, names, m as nat)),
                decreases keys.len() - m,
            {
                let key = right_index.key(m);
                let ghost sofar = scanned + right_only(l, rt, names, m as nat);
                proof {
                    lemma_index_lookup(l, names, keys[m as int]);
                    lemma_index_lookup(rt, names, keys[m as int]);
                }
                if left_index.get(key).is_none() {
                    let rows = right_index.bucket(m);
                    push_matches(&mut result, left, right, &layout, None, rows, Ghost(sofar));
                }
                assert(sofar + right_key_sources(l, rt, names, keys[m as int]) =~= scanned
                    + right_only(l, rt, names, (m + 1) as nat));
                m += 1;
            }
        },
        _ => {},
    }
    proof {
        lemma_joined_table_wf(l, rt, join_sources(l, rt, names, join_type));
    }
    Ok(result)
}

} // verus!
