//! Grouping indexes: row positions keyed by the values of one or more
//! columns.

use crate::order::{text_eq, texts_of};
use std::collections::HashMap;
use vstd::prelude::*;
use vstd::std_specs::hash::*;
use vstd::string::*;
use vstd::utf8::*;

verus! {

/// A grouping index as the contracts see it: its keys in the order in which
/// they were first met, and beside each key the row positions that share it,
/// in the order in which they were added. A key is a sequence of texts, one
/// for each grouping column.
pub struct IndexModel {
    pub keys: Seq<Seq<Seq<char>>>,
    pub buckets: Seq<Seq<usize>>,
}

impl IndexModel {
    /// What holds of every index that was filled row by row: each key has
    /// its bucket, no key occurs twice, and no bucket is empty.
    pub open spec fn wf(self) -> bool {
        &&& self.keys.len() == self.buckets.len()
        &&& self.keys.no_duplicates()
        &&& forall|j: int| 0 <= j < self.buckets.len() ==> (#[trigger] self.buckets[j]).len() > 0
    }

    /// The row positions under `key`, for a key of the index.
    pub open spec fn bucket_of(self, key: Seq<Seq<char>>) -> Seq<usize> {
        self.buckets[self.keys.index_of_first(key)->Some_0]
    }

    /// The index as a mapping from keys to row positions.
    pub open spec fn as_map(self) -> Map<Seq<Seq<char>>, Seq<usize>> {
        Map::new(
            |key: Seq<Seq<char>>| self.keys.contains(key),
            |key: Seq<Seq<char>>| self.bucket_of(key),
        )
    }

    /// The index after `row` was added under `key`: at the end of the key's
    /// bucket, which is made behind the others where the key is new.
    pub open spec fn with_row(self, key: Seq<Seq<char>>, row: usize) -> IndexModel {
        if self.keys.contains(key) {
            let p = self.keys.index_of_first(key)->Some_0;
            IndexModel {
                keys: self.keys,
                buckets: self.buckets.update(p, self.buckets[p].push(row)),
            }
        } else {
            IndexModel { keys: self.keys.push(key), buckets: self.buckets.push(seq![row]) }
        }
    }
}

/// Whether two keys hold the same texts.
pub fn keys_equal(a: &Vec<String>, b: &Vec<String>) -> (r: bool)
    ensures
        r == (texts_of(a@) == texts_of(b@)),
{
    if a.len() != b.len() {
        assert(texts_of(a@).len() != texts_of(b@).len());
        return false;
    }
    let mut i: usize = 0;
    while i < a.len()
        invariant
            a@.len() == b@.len(),
            i <= a@.len(),
            forall|k: int| 0 <= k < i ==> a@[k]@ == b@[k]@,
        decreases a@.len() - i,
    {
        if !text_eq(a[i].as_str(), b[i].as_str()) {
            assert(texts_of(a@)[i as int] != texts_of(b@)[i as int]);
            return false;
        }
        i += 1;
    }
    assert(texts_of(a@) =~= texts_of(b@));
    true
}

/// One step of the hash of a key: the hash so far times 31, plus the next
/// byte, in 64 bits.
spec fn hash_step(h: u64, b: u8) -> u64 {
    ((h as int * 31 + b as int) % 0x1_0000_0000_0000_0000) as u64
}

/// The hash `h` carried on over a sequence of bytes.
spec fn bytes_hash(h: u64, bytes: Seq<u8>) -> u64
    decreases bytes.len(),
{
    if bytes.len() == 0 {
        h
    } else {
        hash_step(bytes_hash(h, bytes.drop_last()), bytes.last())
    }
}

/// The hash of a key: the hash of the bytes of its texts, with a byte that
/// no text holds behind each text.
spec fn key_hash(key: Seq<Seq<char>>) -> u64
    decreases key.len(),
{
    if key.len() == 0 {
        0
    } else {
        hash_step(bytes_hash(key_hash(key.drop_last()), encode_utf8(key.last())), 255)
    }
}

/// One step of the hash of a key.
fn hash_byte(h: u64, b: u8) -> (r: u64)
    ensures
        r == hash_step(h, b),
{
    ((h as u128 * 31 + b as u128) % 0x1_0000_0000_0000_0000) as u64
}

/// The hash `h` carried on over the bytes of `text`.
fn hash_text(h: u64, text: &str) -> (r: u64)
    ensures
        r == bytes_hash(h, encode_utf8(text@)),
{
    let bytes = text.as_bytes();
    let mut hash = h;
    let mut i: usize = 0;
    while i < bytes.len()
        invariant
            i <= bytes@.len(),
            hash == bytes_hash(h, bytes@.take(i as int)),
        decreases bytes@.len() - i,
    {
        assert(bytes@.take(i + 1).drop_last() =~= bytes@.take(i as int));
        hash = hash_byte(hash, bytes[i]);
        i += 1;
    }
    assert(bytes@.take(bytes@.len() as int) =~= bytes@);
    hash
}

/// The hash of a key.
fn hash_key(key: &Vec<String>) -> (r: u64)
    ensures
        r == key_hash(texts_of(key@)),
{
    let ghost texts = texts_of(key@);
    let mut hash: u64 = 0;
    let mut i: usize = 0;
    while i < key.len()
        invariant
            texts == texts_of(key@),
            i <= key@.len(),
            hash == key_hash(texts.take(i as int)),
        decreases key@.len() - i,
    {
        assert(texts.take(i + 1).drop_last() =~= texts.take(i as int));
        assert(texts.take(i + 1).last() == key@[i as int]@);
        hash = hash_byte(hash_text(hash, key[i].as_str()), 255);
        i += 1;
    }
    assert(texts.take(key@.len() as int) =~= texts);
    hash
}

/// A mapping from composite keys to the row positions that share them. The
/// keys stand in the order in which they were first met; a table of hashes
/// finds a key among them.
pub struct GroupIndex {
    entries: Vec<(Vec<String>, Vec<usize>)>,
    slots: HashMap<u64, Vec<usize>>,
}

impl View for GroupIndex {
    type V = IndexModel;

    closed spec fn view(&self) -> IndexModel {
        IndexModel {
            keys: Seq::new(self.entries@.len(), |i: int| texts_of(self.entries@[i].0@)),
            buckets: Seq::new(self.entries@.len(), |i: int| self.entries@[i].1@),
        }
    }
}

impl GroupIndex {
    /// What holds of every index that was filled row by row: what holds of
    /// its view, see [`IndexModel::wf`], and that the table of hashes lists
    /// each key under its hash and nowhere else.
    pub closed spec fn wf(&self) -> bool {
        &&& self@.wf()
        &&& forall|p: int|
            0 <= p < self@.keys.len() ==> self.slots@.contains_key(
                key_hash(#[trigger] self@.keys[p]),
            ) && self.slots@[key_hash(self@.keys[p])]@.contains(p as usize)
        &&& forall|h: u64, i: int|
            self.slots@.contains_key(h) && 0 <= i < self.slots@[h]@.len() ==> (
            #[trigger] self.slots@[h]@[i]) < self@.keys.len() && key_hash(
                self@.keys[self.slots@[h]@[i] as int],
            ) == h
    }

    /// What holds of every index holds of its view.
    pub proof fn lemma_wf(&self)
        requires
            self.wf(),
        ensures
            self@.wf(),
    {
    }

    /// An index without keys.
    pub fn new() -> (r: Self)
        ensures
            r@.keys == Seq::<Seq<Seq<char>>>::empty(),
            r@.buckets == Seq::<Seq<usize>>::empty(),
            r.wf(),
    {
        let r = GroupIndex { entries: Vec::new(), slots: HashMap::new() };
        assert(r@.keys =~= Seq::<Seq<Seq<char>>>::empty());
        assert(r@.buckets =~= Seq::<Seq<usize>>::empty());
        r
    }

    /// The number of keys.
    pub fn len(&self) -> (n: usize)
        ensures
            n == self@.keys.len(),
            n == self@.buckets.len(),
    {
        self.entries.len()
    }

    /// The key at position `i`.
    pub fn key(&self, i: usize) -> (r: &Vec<String>)
        requires
            i < self@.keys.len(),
        ensures
            texts_of(r@) == self@.keys[i as int],
    {
        &self.entries[i].0
    }

    /// The row positions under the key at position `i`.
    pub fn bucket(&self, i: usize) -> (r: &Vec<usize>)
        requires
            i < self@.buckets.len(),
        ensures
            r@ == self@.buckets[i as int],
    {
        &self.entries[i].1
    }

    /// The position of `key` among the keys, if it is one of them.
    pub fn position(&self, key: &Vec<String>) -> (r: Option<usize>)
        requires
            self.wf(),
        ensures
            match r {
                Some(p) => is_first_key(self@.keys, texts_of(key@), p as int),
                None => !self@.keys.contains(texts_of(key@)),
            },
    {
        broadcast use group_hash_axioms;

        let ghost wanted = texts_of(key@);
        let count = self.entries.len();
        if count == 0 {
            return None;
        }
        let hash = hash_key(key);
        match self.slots.get(&hash) {
            Some(candidates) => {
                assert(candidates@ == self.slots@[hash]@);
                let mut i: usize = 0;
                while i < candidates.len()
                    invariant
                        self.wf(),
                        count == self.entries@.len(),
                        wanted == texts_of(key@),
                        hash == key_hash(wanted),
                        self.slots@.contains_key(hash),
                        candidates@ == self.slots@[hash]@,
                        i <= candidates@.len(),
                        forall|k: int|
                            0 <= k < i ==> self@.keys[(#[trigger] candidates@[k]) as int] != wanted,
                    decreases candidates@.len() - i,
                {
                    let p = candidates[i];
                    assert(p < self@.keys.len());
                    if keys_equal(&self.entries[p].0, key) {
                        return Some(p);
                    }
                    i += 1;
                }
                proof {
                    if self@.keys.contains(wanted) {
                        let p = self@.keys.index_of(wanted);
                        assert(p < count);
                        assert(self.slots@[key_hash(self@.keys[p])]@.contains(p as usize));
                        let k = candidates@.index_of(p as usize);
                        assert(self@.keys[candidates@[k] as int] == wanted);
                    }
                }
                None
            },
            None => {
                proof {
                    if self@.keys.contains(wanted) {
                        let p = self@.keys.index_of(wanted);
                        assert(self.slots@.contains_key(key_hash(self@.keys[p])));
                    }
                }
                None
            },
        }
    }

    /// The row positions that share `key`, if any does.
    pub fn get(&self, key: &Vec<String>) -> (r: Option<&Vec<usize>>)
        requires
            self.wf(),
        ensures
            match r {
                Some(rows) => self@.keys.contains(texts_of(key@)) && rows@ == self@.bucket_of(
                    texts_of(key@),
                ),
                None => !self@.keys.contains(texts_of(key@)),
            },
    {
        proof {
            self@.keys.index_of_first_ensures(texts_of(key@));
        }
        match self.position(key) {
            Some(p) => Some(&self.entries[p].1),
            None => None,
        }
    }

    /// Adds `row` under `key`: at the end of the key's bucket, which is made
    /// behind the others where the key is new.
    pub fn add_row(&mut self, key: Vec<String>, row: usize)
        requires
            old(self).wf(),
        ensures
            final(self).wf(),
            final(self)@ == old(self)@.with_row(texts_of(key@), row),
    {
        broadcast use group_hash_axioms;

        let ghost before = self@;
        let ghost slots_before = self.slots@;
        let ghost wanted = texts_of(key@);
        proof {
            lemma_with_row_wf(before, wanted, row);
            before.keys.index_of_first_ensures(wanted);
        }
        match self.position(&key) {
            Some(p) => {
                self.entries[p].1.push(row);
                proof {
                    assert(self@.keys =~= before.keys);
                    assert(self@.buckets =~= before.buckets.update(
                        p as int,
                        before.buckets[p as int].push(row),
                    ));
                }
            },
            None => {
                let hash = hash_key(&key);
                let p = self.entries.len();
                let mut rows: Vec<usize> = Vec::new();
                rows.push(row);
                self.entries.push((key, rows));
                let mut positions = match self.slots.remove(&hash) {
                    Some(positions) => positions,
                    None => Vec::new(),
                };
                let ghost listed = positions@;
                positions.push(p);
                self.slots.insert(hash, positions);
                proof {
                    assert(self@.keys =~= before.keys.push(wanted));
                    assert(self@.buckets =~= before.buckets.push(seq![row]));
                    assert(slots_before.contains_key(hash) ==> listed == slots_before[hash]@);
                    assert(!slots_before.contains_key(hash) ==> listed == Seq::<usize>::empty());
                    assert(self.slots@[hash]@ == listed.push(p));
                    assert forall|q: int| 0 <= q < self@.keys.len() implies
                        self.slots@.contains_key(key_hash(#[trigger] self@.keys[q]))
                        && self.slots@[key_hash(self@.keys[q])]@.contains(q as usize) by {
                        if q < p {
                            let h = key_hash(before.keys[q]);
                            assert(slots_before.contains_key(h));
                            let k = slots_before[h]@.index_of(q as usize);
                            assert(slots_before[h]@.contains(q as usize));
                            if h == hash {
                                assert(listed.push(p)[k] == q);
                            } else {
                                assert(self.slots@[h] == slots_before[h]);
                            }
                        } else {
                            assert(listed.push(p)[listed.len() as int] == p);
                        }
                    }
                    assert forall|h: u64, i: int|
                        self.slots@.contains_key(h) && 0 <= i < self.slots@[h]@.len() implies (
                    #[trigger] self.slots@[h]@[i]) < self@.keys.len() && key_hash(
                        self@.keys[self.slots@[h]@[i] as int],
                    ) == h by {
                        if h == hash {
                            if i < listed.len() {
                                assert(slots_before[h]@[i] < before.keys.len());
                            }
                        } else {
                            assert(self.slots@[h] == slots_before[h]);
                            assert(slots_before[h]@[i] < before.keys.len());
                        }
                    }
                }
            },
        }
    }
}

/// Adding a row keeps an index as it should be.
pub proof fn lemma_with_row_wf(index: IndexModel, key: Seq<Seq<char>>, row: usize)
    requires
        index.wf(),
    ensures
        index.with_row(key, row).wf(),
{
    let after = index.with_row(key, row);
    index.keys.index_of_first_ensures(key);
    if index.keys.contains(key) {
        let p = index.keys.index_of_first(key)->Some_0;
        assert forall|j: int| 0 <= j < after.buckets.len() implies
            (#[trigger] after.buckets[j]).len() > 0 by {
            if j != p {
                assert(after.buckets[j] == index.buckets[j]);
            }
        }
    } else {
        assert forall|i: int, j: int| 0 <= i < after.keys.len() && 0 <= j < after.keys.len() && i
            != j implies after.keys[i] != after.keys[j] by {
            if i < index.keys.len() && j < index.keys.len() {
                assert(index.keys[i] != index.keys[j]);
            } else if i < index.keys.len() {
                assert(index.keys[i] != key);
            } else {
                assert(index.keys[j] != key);
            }
        }
        assert forall|j: int| 0 <= j < after.buckets.len() implies
            (#[trigger] after.buckets[j]).len() > 0 by {
            if j < index.buckets.len() {
                assert(after.buckets[j] == index.buckets[j]);
            }
        }
    }
}

/// Whether `p` is the position of the first key equal to `key`.
pub open spec fn is_first_key(keys: Seq<Seq<Seq<char>>>, key: Seq<Seq<char>>, p: int) -> bool {
    &&& 0 <= p < keys.len()
    &&& keys[p] == key
    &&& forall|j: int| 0 <= j < p ==> keys[j] != key
}

} // verus!
