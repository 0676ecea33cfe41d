//! Group keys: what a row's key is, which rows share a key, and what a
//! grouping index of a table holds.

use crate::columns::column_trait::ColumnModel;
use crate::group_index::IndexModel;
use crate::order::texts_of;
use crate::table::{names_of, row_count, table_wf};
use vstd::string::*;
use vstd::prelude::*;

verus! {

/// The texts that a sequence of string slices holds.
pub open spec fn strs_view(names: Seq<&str>) -> Seq<Seq<char>> {
    Seq::new(names.len(), |i: int| names[i]@)
}

/// The column called `name`, for a name of the table.
pub open spec fn column_of(t: Seq<ColumnModel>, name: Seq<char>) -> ColumnModel {
    t[names_of(t).index_of(name)]
}

/// Whether the table has a column for each of the names.
pub open spec fn has_columns(t: Seq<ColumnModel>, names: Seq<Seq<char>>) -> bool {
    forall|j: int| 0 <= j < names.len() ==> names_of(t).contains(#[trigger] names[j])
}

/// The key of row `r` over the named columns: the texts of the row's values
/// in those columns, in the order of the names.
pub open spec fn row_key(t: Seq<ColumnModel>, names: Seq<Seq<char>>, r: int) -> Seq<Seq<char>> {
    Seq::new(names.len(), |j: int| column_of(t, names[j]).texts[r])
}

/// The positions, in ascending order, of the rows among the first `n` whose
/// key over the named columns is `key`.
pub open spec fn rows_with_key(
    t: Seq<ColumnModel>,
    names: Seq<Seq<char>>,
    key: Seq<Seq<char>>,
    n: nat,
) -> Seq<usize>
    decreases n,
{
    if n == 0 {
        Seq::empty()
    } else if row_key(t, names, n - 1) == key {
        rows_with_key(t, names, key, (n - 1) as nat).push((n - 1) as usize)
    } else {
        rows_with_key(t, names, key, (n - 1) as nat)
    }
}

/// The distinct keys of the first `n` rows over the named columns, in the
/// order in which the rows first show them.
pub open spec fn keys_upto(t: Seq<ColumnModel>, names: Seq<Seq<char>>, n: nat) -> Seq<
    Seq<Seq<char>>,
>
    decreases n,
{
    if n == 0 {
        Seq::empty()
    } else if keys_upto(t, names, (n - 1) as nat).contains(row_key(t, names, n - 1)) {
        keys_upto(t, names, (n - 1) as nat)
    } else {
        keys_upto(t, names, (n - 1) as nat).push(row_key(t, names, n - 1))
    }
}

/// The grouping index of the first `n` rows over the named columns: the
/// distinct keys in order of first appearance, each with the positions of the
/// rows that share it, ascending.
pub open spec fn index_upto(t: Seq<ColumnModel>, names: Seq<Seq<char>>, n: nat) -> IndexModel {
    IndexModel {
        keys: keys_upto(t, names, n),
        buckets: Seq::new(
            keys_upto(t, names, n).len(),
            |j: int| rows_with_key(t, names, keys_upto(t, names, n)[j], n),
        ),
    }
}

/// The grouping index of a table over the named columns.
pub open spec fn index_of_table(t: Seq<ColumnModel>, names: Seq<Seq<char>>) -> IndexModel {
    index_upto(t, names, row_count(t))
}

/// The text form of a key: its texts with a bar between each two. It names
/// the key where a key has to be shown as one text, and orders keys.
pub open spec fn key_text(key: Seq<Seq<char>>) -> Seq<char>
    decreases key.len(),
{
    if key.len() == 0 {
        Seq::empty()
    } else if key.len() == 1 {
        key[0]
    } else {
        key_text(key.drop_last()) + seq!['|'] + key.last()
    }
}

/// The text form of a key.
pub fn key_to_text(key: &Vec<String>) -> (r: String)
    ensures
        r@ == key_text(texts_of(key@)),
{
    let ghost texts = texts_of(key@);
    let mut text = String::new();
    let mut i: usize = 0;
    while i < key.len()
        invariant
            texts == texts_of(key@),
            i <= key@.len(),
            text@ == key_text(texts.take(i as int)),
        decreases key@.len() - i,
    {
        proof {
            reveal_strlit("|");
            assert(texts.take(i + 1).drop_last() =~= texts.take(i as int));
            assert(texts.take(i + 1).last() == key@[i as int]@);
        }
        if i > 0 {
            text.append("|");
        }
        text.append(key[i].as_str());
        proof {
            if i == 0 {
                assert(text@ =~= key@[i as int]@);
            } else {
                assert(text@ =~= key_text(texts.take(i as int)) + seq!['|'] + key@[i as int]@);
            }
        }
        i += 1;
    }
    assert(texts.take(key@.len() as int) =~= texts);
    text
}

/// In a table, a column is found by its name.
pub proof fn lemma_column_of(t: Seq<ColumnModel>, i: int)
    requires
        table_wf(t),
        0 <= i < t.len(),
    ensures
        names_of(t).contains(t[i].name),
        names_of(t).index_of(t[i].name) == i,
        column_of(t, t[i].name) == t[i],
{
    let names = names_of(t);
    assert(names[i] == t[i].name);
    let k = names.index_of(t[i].name);
    assert(names[k] == t[k].name);
    if k < i {
        assert(t[k].name != t[i].name);
    } else if i < k {
        assert(t[i].name != t[k].name);
    }
}

/// The rows that share a key are rows of that key, in strictly ascending
/// order, and no row of that key is left out.
pub proof fn lemma_rows_with_key(
    t: Seq<ColumnModel>,
    names: Seq<Seq<char>>,
    key: Seq<Seq<char>>,
    n: nat,
)
    requires
        n <= usize::MAX,
    ensures
        forall|i: int|
            0 <= i < rows_with_key(t, names, key, n).len() ==> (#[trigger] rows_with_key(
                t,
                names,
                key,
                n,
            )[i]) < n && row_key(t, names, rows_with_key(t, names, key, n)[i] as int) == key,
        forall|i: int, j: int|
            0 <= i < j < rows_with_key(t, names, key, n).len() ==> rows_with_key(
                t,
                names,
                key,
                n,
            )[i] < rows_with_key(t, names, key, n)[j],
        forall|r: int|
            0 <= r < n && row_key(t, names, r) == key ==> rows_with_key(t, names, key, n).contains(
                r as usize,
            ),
    decreases n,
{
    if n > 0 {
        let prev = rows_with_key(t, names, key, (n - 1) as nat);
        let rows = rows_with_key(t, names, key, n);
        lemma_rows_with_key(t, names, key, (n - 1) as nat);
        assert forall|r: int| 0 <= r < n && row_key(t, names, r) == key implies rows.contains(
            r as usize,
        ) by {
            if r < n - 1 {
                let i = prev.index_of(r as usize);
                assert(prev.contains(r as usize));
                assert(rows[i] == r as usize);
            } else {
                assert(rows[rows.len() - 1] == r as usize);
            }
        }
    }
}

/// The distinct keys of the first `n` rows are distinct, and they are the
/// keys that those rows have.
pub proof fn lemma_keys_upto(t: Seq<ColumnModel>, names: Seq<Seq<char>>, n: nat)
    ensures
        keys_upto(t, names, n).no_duplicates(),
        forall|r: int|
            0 <= r < n ==> keys_upto(t, names, n).contains(#[trigger] row_key(t, names, r)),
        forall|j: int|
            0 <= j < keys_upto(t, names, n).len() ==> exists|r: int|
                0 <= r < n && row_key(t, names, r) == #[trigger] keys_upto(t, names, n)[j],
    decreases n,
{
    if n > 0 {
        let prev = keys_upto(t, names, (n - 1) as nat);
        let keys = keys_upto(t, names, n);
        let last = row_key(t, names, n - 1);
        lemma_keys_upto(t, names, (n - 1) as nat);
        assert forall|r: int| 0 <= r < n implies keys.contains(#[trigger] row_key(t, names, r)) by {
            if r < n - 1 {
                let j = prev.index_of(row_key(t, names, r));
                assert(prev.contains(row_key(t, names, r)));
                assert(keys[j] == row_key(t, names, r));
            } else if !prev.contains(last) {
                assert(keys[keys.len() - 1] == last);
            }
        }
        assert forall|j: int| 0 <= j < keys.len() implies exists|r: int|
            0 <= r < n && row_key(t, names, r) == #[trigger] keys[j] by {
            if j < prev.len() {
                assert(keys[j] == prev[j]);
                let r = choose|r: int| 0 <= r < n - 1 && row_key(t, names, r) == prev[j];
                assert(0 <= r < n && row_key(t, names, r) == keys[j]);
            } else {
                assert(row_key(t, names, n - 1) == keys[j]);
            }
        }
    }
}

/// No row among the first `n` has a key that is not among their distinct
/// keys.
pub proof fn lemma_new_key_has_no_rows(
    t: Seq<ColumnModel>,
    names: Seq<Seq<char>>,
    key: Seq<Seq<char>>,
    n: nat,
)
    requires
        !keys_upto(t, names, n).contains(key),
    ensures
        rows_with_key(t, names, key, n) == Seq::<usize>::empty(),
    decreases n,
{
    if n > 0 {
        lemma_keys_upto(t, names, n);
        let prev = keys_upto(t, names, (n - 1) as nat);
        if prev.contains(key) {
            let j = prev.index_of(key);
            assert(keys_upto(t, names, n)[j] == key);
        }
        lemma_new_key_has_no_rows(t, names, key, (n - 1) as nat);
    }
}

/// The index of one more row is the index of the rows before it with that
/// row added under its key.
pub proof fn lemma_index_step(t: Seq<ColumnModel>, names: Seq<Seq<char>>, n: nat)
    ensures
        index_upto(t, names, n + 1) == index_upto(t, names, n).with_row(
            row_key(t, names, n as int),
            n as usize,
        ),
{
    let before = index_upto(t, names, n);
    let after = index_upto(t, names, n + 1);
    let key = row_key(t, names, n as int);
    let expected = before.with_row(key, n as usize);
    lemma_keys_upto(t, names, n);
    before.keys.index_of_first_ensures(key);
    assert(after.keys == expected.keys);
    assert forall|j: int| 0 <= j < after.buckets.len() implies after.buckets[j]
        == expected.buckets[j] by {
        if before.keys.contains(key) {
            let p = before.keys.index_of_first(key)->Some_0;
            if j != p {
                assert(before.keys[j] != before.keys[p]);
            }
        } else {
            if j == before.keys.len() {
                lemma_new_key_has_no_rows(t, names, key, n);
                assert(after.buckets[j] =~= seq![n as usize]);
            } else {
                assert(before.keys[j] != key);
            }
        }
    }
    assert(after.buckets =~= expected.buckets);
}

/// Looking a key up in the grouping index of a table finds the rows that
/// have the key: the key is in the index where some row has it, and then its
/// bucket holds the positions of these rows, each a row of the table.
pub proof fn lemma_index_lookup(t: Seq<ColumnModel>, names: Seq<Seq<char>>, key: Seq<Seq<char>>)
    requires
        row_count(t) <= usize::MAX,
    ensures
        index_of_table(t, names).keys.contains(key) <==> rows_with_key(
            t,
            names,
            key,
            row_count(t),
        ).len() > 0,
        index_of_table(t, names).keys.contains(key) ==> index_of_table(t, names).bucket_of(key)
            == rows_with_key(t, names, key, row_count(t)),
        forall|y: int|
            0 <= y < rows_with_key(t, names, key, row_count(t)).len() ==>
                (#[trigger] rows_with_key(t, names, key, row_count(t))[y]) < row_count(t),
{
    let n = row_count(t);
    let index = index_of_table(t, names);
    lemma_keys_upto(t, names, n);
    lemma_rows_with_key(t, names, key, n);
    if index.keys.contains(key) {
        index.keys.index_of_first_ensures(key);
        let r = choose|r: int| 0 <= r < n && row_key(t, names, r) == key;
        assert(rows_with_key(t, names, key, n).contains(r as usize));
    } else {
        lemma_new_key_has_no_rows(t, names, key, n);
    }
}

/// The grouping index of a table is as an index should be: each key has its
/// bucket, no key occurs twice, and no bucket is empty.
pub proof fn lemma_index_of_table_wf(t: Seq<ColumnModel>, names: Seq<Seq<char>>)
    requires
        row_count(t) <= usize::MAX,
    ensures
        index_of_table(t, names).wf(),
{
    let n = row_count(t);
    let index = index_of_table(t, names);
    lemma_keys_upto(t, names, n);
    assert forall|j: int| 0 <= j < index.buckets.len() implies (#[trigger] index.buckets[j]).len()
        > 0 by {
        let key = index.keys[j];
        let r = choose|r: int| 0 <= r < n && row_key(t, names, r) == key;
        lemma_rows_with_key(t, names, key, n);
        assert(rows_with_key(t, names, key, n).contains(r as usize));
    }
}

/// In the grouping index of a table, every row stands in exactly one
/// bucket, once, and that bucket is the one under the row's own key.
pub proof fn lemma_group_by_complete(t: Seq<ColumnModel>, names: Seq<Seq<char>>, r: int)
    requires
        table_wf(t),
        has_columns(t, names),
        row_count(t) <= usize::MAX,
        0 <= r < row_count(t),
    ensures
        index_of_table(t, names).keys.no_duplicates(),
        index_of_table(t, names).keys.contains(row_key(t, names, r)),
        index_of_table(t, names).as_map()[row_key(t, names, r)].contains(r as usize),
        forall|j: int|
            0 <= j < index_of_table(t, names).keys.len() && index_of_table(t, names).keys[j]
                != row_key(t, names, r) ==>
                !(#[trigger] index_of_table(t, names).buckets[j]).contains(r as usize),
        forall|j: int|
            0 <= j < index_of_table(t, names).keys.len() ==> (#[trigger] index_of_table(
                t,
                names,
            ).buckets[j]).no_duplicates(),
{
    let n = row_count(t);
    let index = index_of_table(t, names);
    let key = row_key(t, names, r);
    lemma_keys_upto(t, names, n);
    index.keys.index_of_first_ensures(key);
    let p = index.keys.index_of_first(key)->Some_0;
    lemma_rows_with_key(t, names, key, n);
    assert(index.buckets[p] == rows_with_key(t, names, key, n));
    assert forall|j: int| 0 <= j < index.keys.len() && index.keys[j] != key implies !(
    #[trigger] index.buckets[j]).contains(r as usize) by {
        lemma_rows_with_key(t, names, index.keys[j], n);
        if index.buckets[j].contains(r as usize) {
            let i = index.buckets[j].index_of(r as usize);
            assert(row_key(t, names, index.buckets[j][i] as int) == index.keys[j]);
        }
    }
    assert forall|j: int| 0 <= j < index.keys.len() implies
        (#[trigger] index.buckets[j]).no_duplicates() by {
        lemma_rows_with_key(t, names, index.keys[j], n);
        let b = index.buckets[j];
        assert forall|x: int, y: int| 0 <= x < b.len() && 0 <= y < b.len() && x != y implies b[x]
            != b[y] by {
            if x < y {
                assert(b[x] < b[y]);
            } else {
                assert(b[y] < b[x]);
            }
        }
    }
}

} // verus!
