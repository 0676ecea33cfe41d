//! A row as a record: texts keyed by column name.

use crate::order::text_eq;
use vstd::prelude::*;
use vstd::string::*;

verus! {

/// What the first `n` bindings of a record amount to, a later binding of a
/// name replacing an earlier one.
pub open spec fn bindings(entries: Seq<(String, String)>, n: nat) -> Map<Seq<char>, Seq<char>>
    decreases n,
{
    if n == 0 {
        Map::empty()
    } else {
        bindings(entries, (n - 1) as nat).insert(entries[n - 1].0@, entries[n - 1].1@)
    }
}

/// A mapping from column names to texts: what a caller hands to a table to
/// append a row, and what a table hands out for a row it holds.
pub struct Row {
    entries: Vec<(String, String)>,
}

impl View for Row {
    type V = Map<Seq<char>, Seq<char>>;

    closed spec fn view(&self) -> Map<Seq<char>, Seq<char>> {
        bindings(self.entries@, self.entries@.len())
    }
}

impl Row {
    /// A record that binds nothing.
    pub fn new() -> (r: Self)
        ensures
            r@ == Map::<Seq<char>, Seq<char>>::empty(),
    {
        Row { entries: Vec::new() }
    }

    /// Binds `name` to `value`, in place of what it was bound to.
    pub fn insert(&mut self, name: &str, value: String)
        ensures
            final(self)@ == old(self)@.insert(name@, value@),
    {
        let ghost before = self.entries@;
        let ghost text = value@;
        let mut i = self.entries.len();
        while i > 0
            invariant
                self.entries@ == before,
                before == old(self).entries@,
                text == value@,
                i <= before.len(),
                forall|k: int| i <= k < before.len() ==> (#[trigger] before[k]).0@ != name@,
            decreases i,
        {
            i -= 1;
            if text_eq(self.entries[i].0.as_str(), name) {
                self.entries[i].1 = value;
                proof {
                    assert(self.entries@[i as int].1@ == text);
                    assert(self.entries@[i as int].0 == before[i as int].0);
                    lemma_bindings_rebound(before, self.entries@, i as int, before.len());
                }
                return;
            }
        }
        self.entries.push((String::from_str(name), value));
        proof {
            lemma_bindings_prefix(before, self.entries@, before.len());
        }
    }

    /// The text that `name` is bound to, if any.
    pub fn get(&self, name: &str) -> (r: Option<&String>)
        ensures
            match r {
                Some(v) => self@.contains_key(name@) && v@ == self@[name@],
                None => !self@.contains_key(name@),
            },
    {
        let mut i = self.entries.len();
        while i > 0
            invariant
                i <= self.entries@.len(),
                self@.contains_key(name@) == bindings(self.entries@, i as nat).contains_key(name@),
                self@.contains_key(name@) ==> self@[name@] == bindings(
                    self.entries@,
                    i as nat,
                )[name@],
            decreases i,
        {
            i -= 1;
            if text_eq(self.entries[i].0.as_str(), name) {
                return Some(&self.entries[i].1);
            }
        }
        None
    }

    /// Whether `name` is bound.
    pub fn contains_key(&self, name: &str) -> (r: bool)
        ensures
            r == self@.contains_key(name@),
    {
        self.get(name).is_some()
    }
}

/// Giving the last binding of a name another text binds the name to that
/// text and changes nothing else.
proof fn lemma_bindings_rebound(
    a: Seq<(String, String)>,
    b: Seq<(String, String)>,
    i: int,
    n: nat,
)
    requires
        0 <= i < a.len(),
        a.len() == b.len(),
        n <= a.len(),
        b[i].0 == a[i].0,
        forall|k: int| 0 <= k < a.len() && k != i ==> a[k] == b[k],
        forall|k: int| i < k < a.len() ==> (#[trigger] a[k]).0@ != a[i].0@,
    ensures
        n <= i ==> bindings(b, n) == bindings(a, n),
        n > i ==> bindings(b, n) == bindings(a, n).insert(a[i].0@, b[i].1@),
    decreases n,
{
    if n > 0 {
        lemma_bindings_rebound(a, b, i, (n - 1) as nat);
        if n > i {
            assert(bindings(b, n) =~= bindings(a, n).insert(a[i].0@, b[i].1@));
        }
    }
}

/// The first `n` bindings of a record do not depend on what follows them.
proof fn lemma_bindings_prefix(a: Seq<(String, String)>, b: Seq<(String, String)>, n: nat)
    requires
        n <= a.len(),
        n <= b.len(),
        forall|i: int| 0 <= i < n ==> a[i] == b[i],
    ensures
        bindings(a, n) == bindings(b, n),
    decreases n,
{
    if n > 0 {
        lemma_bindings_prefix(a, b, (n - 1) as nat);
    }
}

} // verus!
