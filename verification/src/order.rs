//! Equality and order of texts.
//!
//! Texts are ordered as `str` orders them: lexicographically by the bytes of
//! their UTF-8 encoding.

use vstd::prelude::*;
use vstd::string::*;
use vstd::utf8::*;

verus! {

/// Whether `a` comes strictly before `b` in lexicographic order.
pub open spec fn bytes_lt(a: Seq<u8>, b: Seq<u8>) -> bool
    decreases a.len(),
{
    if b.len() == 0 {
        false
    } else if a.len() == 0 {
        true
    } else if a[0] != b[0] {
        a[0] < b[0]
    } else {
        bytes_lt(a.skip(1), b.skip(1))
    }
}

/// Whether the text `a` comes strictly before the text `b`.
pub open spec fn text_lt(a: Seq<char>, b: Seq<char>) -> bool {
    bytes_lt(encode_utf8(a), encode_utf8(b))
}

/// Nothing comes before itself.
pub proof fn lemma_bytes_lt_irreflexive(a: Seq<u8>)
    ensures
        !bytes_lt(a, a),
    decreases a.len(),
{
    if a.len() > 0 {
        lemma_bytes_lt_irreflexive(a.skip(1));
    }
}

/// Of two sequences at most one comes before the other.
pub proof fn lemma_bytes_lt_asymmetric(a: Seq<u8>, b: Seq<u8>)
    requires
        bytes_lt(a, b),
    ensures
        !bytes_lt(b, a),
    decreases a.len(),
{
    if a.len() > 0 && b.len() > 0 && a[0] == b[0] {
        lemma_bytes_lt_asymmetric(a.skip(1), b.skip(1));
    }
}

/// What comes before something that comes before a third comes before the
/// third.
pub proof fn lemma_bytes_lt_transitive(a: Seq<u8>, b: Seq<u8>, c: Seq<u8>)
    requires
        bytes_lt(a, b),
        bytes_lt(b, c),
    ensures
        bytes_lt(a, c),
    decreases a.len(),
{
    if a.len() > 0 && a[0] == b[0] && b[0] == c[0] {
        lemma_bytes_lt_transitive(a.skip(1), b.skip(1), c.skip(1));
    }
}

/// Of two different sequences one comes before the other.
pub proof fn lemma_bytes_lt_connected(a: Seq<u8>, b: Seq<u8>)
    requires
        a != b,
    ensures
        bytes_lt(a, b) || bytes_lt(b, a),
    decreases a.len(),
{
    if a.len() > 0 && b.len() > 0 && a[0] == b[0] {
        if a.skip(1) == b.skip(1) {
            assert(a.len() == a.skip(1).len() + 1);
            assert(b.len() == b.skip(1).len() + 1);
            assert forall|i: int| 0 <= i < a.len() implies a[i] == b[i] by {
                if i > 0 {
                    assert(a[i] == a.skip(1)[i - 1]);
                    assert(b[i] == b.skip(1)[i - 1]);
                }
            }
            assert(a =~= b);
        }
        lemma_bytes_lt_connected(a.skip(1), b.skip(1));
    } else if a.len() == 0 && b.len() == 0 {
        assert(a =~= b);
    }
}

/// Past a common prefix, the order of two sequences is that of what follows
/// the prefix.
pub proof fn lemma_bytes_lt_skip(a: Seq<u8>, b: Seq<u8>, i: int)
    requires
        0 <= i <= a.len(),
        i <= b.len(),
        forall|j: int| 0 <= j < i ==> a[j] == b[j],
    ensures
        bytes_lt(a, b) == bytes_lt(a.skip(i), b.skip(i)),
    decreases i,
{
    if i == 0 {
        assert(a.skip(0) =~= a);
        assert(b.skip(0) =~= b);
    } else {
        assert(a[0] == b[0]);
        assert forall|j: int| 0 <= j < i - 1 implies a.skip(1)[j] == b.skip(1)[j] by {
            assert(a[j + 1] == b[j + 1]);
        }
        lemma_bytes_lt_skip(a.skip(1), b.skip(1), i - 1);
        assert(a.skip(1).skip(i - 1) =~= a.skip(i));
        assert(b.skip(1).skip(i - 1) =~= b.skip(i));
    }
}

/// Two texts with the same encoding are the same text.
pub proof fn lemma_encoding_injective(a: Seq<char>, b: Seq<char>)
    requires
        encode_utf8(a) == encode_utf8(b),
    ensures
        a == b,
{
    encode_utf8_decode_utf8(a);
    encode_utf8_decode_utf8(b);
}

/// The order of texts is a strict total order: of two texts exactly one of
/// "before", "equal" and "after" holds.
pub proof fn lemma_text_lt_total(a: Seq<char>, b: Seq<char>)
    ensures
        !text_lt(a, a),
        text_lt(a, b) ==> !text_lt(b, a),
        a != b ==> text_lt(a, b) || text_lt(b, a),
{
    lemma_bytes_lt_irreflexive(encode_utf8(a));
    if text_lt(a, b) {
        lemma_bytes_lt_asymmetric(encode_utf8(a), encode_utf8(b));
    }
    if a != b {
        if encode_utf8(a) == encode_utf8(b) {
            lemma_encoding_injective(a, b);
        }
        lemma_bytes_lt_connected(encode_utf8(a), encode_utf8(b));
    }
}

/// The order of texts is transitive.
pub proof fn lemma_text_lt_transitive(a: Seq<char>, b: Seq<char>, c: Seq<char>)
    requires
        text_lt(a, b),
        text_lt(b, c),
    ensures
        text_lt(a, c),
{
    lemma_bytes_lt_transitive(encode_utf8(a), encode_utf8(b), encode_utf8(c));
}

/// Whether two texts are equal.
pub fn text_eq(a: &str, b: &str) -> (r: bool)
    ensures
        r == (a@ == b@),
{
    let x = a.as_bytes();
    let y = b.as_bytes();
    if x.len() != y.len() {
        return false;
    }
    let n = x.len();
    let mut i: usize = 0;
    while i < n
        invariant
            n == x@.len(),
            n == y@.len(),
            x@ == encode_utf8(a@),
            y@ == encode_utf8(b@),
            i <= n,
            forall|j: int| 0 <= j < i ==> x@[j] == y@[j],
        decreases n - i,
    {
        if x[i] != y[i] {
            return false;
        }
        i += 1;
    }
    proof {
        assert(x@ =~= y@);
        lemma_encoding_injective(a@, b@);
    }
    true
}

/// Whether the text `a` comes strictly before the text `b`.
pub fn text_less(a: &str, b: &str) -> (r: bool)
    ensures
        r == text_lt(a@, b@),
{
    let x = a.as_bytes();
    let y = b.as_bytes();
    let nx = x.len();
    let ny = y.len();
    let mut i: usize = 0;
    while i < nx && i < ny
        invariant
            nx == x@.len(),
            ny == y@.len(),
            x@ == encode_utf8(a@),
            y@ == encode_utf8(b@),
            i <= nx,
            i <= ny,
            forall|j: int| 0 <= j < i ==> x@[j] == y@[j],
        decreases nx - i,
    {
        if x[i] != y[i] {
            proof {
                lemma_bytes_lt_skip(x@, y@, i as int);
            }
            return x[i] < y[i];
        }
        i += 1;
    }
    proof {
        lemma_bytes_lt_skip(x@, y@, i as int);
    }
    nx < ny
}

/// The texts that a sequence of strings holds.
pub open spec fn texts_of(v: Seq<String>) -> Seq<Seq<char>> {
    Seq::new(v.len(), |i: int| v[i]@)
}

/// Whether the text at position `i` is to stand before the text at position
/// `j` when the texts are sorted: its text comes first, or the texts are
/// equal and `i` is the earlier position.
pub open spec fn stands_before(texts: Seq<Seq<char>>, i: usize, j: usize) -> bool {
    text_lt(texts[i as int], texts[j as int]) || (texts[i as int] == texts[j as int] && i < j)
}

/// Whether `order` lists the positions of `texts`, each once, so that the
/// texts ascend and equal texts keep their order.
pub open spec fn is_text_order(texts: Seq<Seq<char>>, order: Seq<usize>) -> bool {
    &&& order.len() == texts.len()
    &&& forall|k: int| 0 <= k < order.len() ==> (#[trigger] order[k]) < texts.len()
    &&& forall|x: usize| x < texts.len() ==> order.contains(x)
    &&& forall|a: int, b: int|
        0 <= a < b < order.len() ==> stands_before(texts, #[trigger] order[a], #[trigger] order[b])
}

/// The positions of `texts` in ascending order of the texts, equal texts in
/// the order in which they stand.
pub open spec fn text_order(texts: Seq<Seq<char>>) -> Seq<usize> {
    choose|order: Seq<usize>| is_text_order(texts, order)
}

/// Standing before is a strict order of the positions.
pub proof fn lemma_stands_before(texts: Seq<Seq<char>>, i: usize, j: usize, k: usize)
    ensures
        !stands_before(texts, i, i),
        stands_before(texts, i, j) ==> !stands_before(texts, j, i),
        stands_before(texts, i, j) && stands_before(texts, j, k) ==> stands_before(texts, i, k),
        i != j ==> stands_before(texts, i, j) || stands_before(texts, j, i),
{
    let a = texts[i as int];
    let b = texts[j as int];
    let c = texts[k as int];
    lemma_text_lt_total(a, a);
    lemma_text_lt_total(a, b);
    lemma_text_lt_total(b, c);
    lemma_text_lt_total(a, c);
    if text_lt(a, b) && text_lt(b, c) {
        lemma_text_lt_transitive(a, b, c);
    }
}

/// Two sequences that ascend strictly and hold the same positions are the
/// same sequence.
proof fn lemma_ascending_unique(texts: Seq<Seq<char>>, a: Seq<usize>, b: Seq<usize>)
    requires
        forall|i: int, j: int|
            0 <= i < j < a.len() ==> stands_before(texts, #[trigger] a[i], #[trigger] a[j]),
        forall|i: int, j: int|
            0 <= i < j < b.len() ==> stands_before(texts, #[trigger] b[i], #[trigger] b[j]),
        forall|x: usize| a.contains(x) <==> b.contains(x),
    ensures
        a == b,
    decreases a.len(),
{
    if a.len() == 0 {
        if b.len() > 0 {
            assert(b.contains(b[0]));
        }
        assert(a =~= b);
    } else if b.len() == 0 {
        assert(a.contains(a[0]));
    } else {
        assert(a.contains(a[0]));
        assert(b.contains(b[0]));
        let p = b.index_of(a[0]);
        let q = a.index_of(b[0]);
        lemma_stands_before(texts, a[0], b[0], a[0]);
        if p > 0 {
            assert(stands_before(texts, b[0], b[p]));
        }
        if q > 0 {
            assert(stands_before(texts, a[0], a[q]));
        }
        assert(a[0] == b[0]);
        let a1 = a.skip(1);
        let b1 = b.skip(1);
        assert forall|i: int, j: int| 0 <= i < j < a1.len() implies stands_before(
            texts,
            #[trigger] a1[i],
            #[trigger] a1[j],
        ) by {
            assert(stands_before(texts, a[i + 1], a[j + 1]));
        }
        assert forall|i: int, j: int| 0 <= i < j < b1.len() implies stands_before(
            texts,
            #[trigger] b1[i],
            #[trigger] b1[j],
        ) by {
            assert(stands_before(texts, b[i + 1], b[j + 1]));
        }
        assert forall|x: usize| a1.contains(x) <==> b1.contains(x) by {
            lemma_stands_before(texts, x, x, x);
            if a1.contains(x) {
                let i = a1.index_of(x);
                assert(a[i + 1] == x);
                assert(stands_before(texts, a[0], a[i + 1]));
                assert(a.contains(x));
                let j = b.index_of(x);
                assert(j != 0);
                assert(b1[j - 1] == x);
            }
            if b1.contains(x) {
                let i = b1.index_of(x);
                assert(b[i + 1] == x);
                assert(stands_before(texts, b[0], b[i + 1]));
                assert(b.contains(x));
                let j = a.index_of(x);
                assert(j != 0);
                assert(a1[j - 1] == x);
            }
        }
        lemma_ascending_unique(texts, a1, b1);
        assert forall|i: int| 0 <= i < a.len() implies a[i] == b[i] by {
            if i > 0 {
                assert(a1[i - 1] == b1[i - 1]);
            }
        }
        assert(a.len() == a1.len() + 1);
        assert(b.len() == b1.len() + 1);
        assert(a =~= b);
    }
}

/// There is one order of the positions of `texts` only.
pub proof fn lemma_text_order_unique(texts: Seq<Seq<char>>, order: Seq<usize>)
    requires
        is_text_order(texts, order),
    ensures
        text_order(texts) == order,
{
    let other = text_order(texts);
    assert(is_text_order(texts, other));
    assert forall|x: usize| order.contains(x) <==> other.contains(x) by {
        if order.contains(x) {
            let k = order.index_of(x);
            assert(order[k] < texts.len());
        }
        if other.contains(x) {
            let k = other.index_of(x);
            assert(other[k] < texts.len());
        }
    }
    lemma_ascending_unique(texts, order, other);
}

/// The positions of `texts` in ascending order of the texts, equal texts in
/// the order in which they stand.
pub fn sort_by_text(texts: &Vec<String>) -> (order: Vec<usize>)
    ensures
        is_text_order(texts_of(texts@), order@),
        order@ == text_order(texts_of(texts@)),
{
    let ghost t = texts_of(texts@);
    let n = texts.len();
    let mut order: Vec<usize> = Vec::new();
    let mut i: usize = 0;
    while i < n
        invariant
            t == texts_of(texts@),
            n == texts@.len(),
            i <= n,
            order@.len() == i,
            forall|k: int| 0 <= k < order@.len() ==> (#[trigger] order@[k]) < i,
            forall|x: usize| x < i ==> order@.contains(x),
            forall|a: int, b: int|
                0 <= a < b < order@.len() ==>
                    stands_before(t, #[trigger] order@[a], #[trigger] order@[b]),
        decreases n - i,
    {
        // The new text goes behind the texts that do not come after it: by
        // bisection, the place of the first text that comes after it.
        let mut p: usize = 0;
        let mut end: usize = order.len();
        while p < end
            invariant
                t == texts_of(texts@),
                n == texts@.len(),
                i < n,
                order@.len() == i,
                forall|k: int| 0 <= k < order@.len() ==> (#[trigger] order@[k]) < i,
                forall|a: int, b: int|
                    0 <= a < b < order@.len() ==>
                        stands_before(t, #[trigger] order@[a], #[trigger] order@[b]),
                p <= end <= order@.len(),
                forall|q: int|
                    0 <= q < p ==> !text_lt(t[i as int], t[(#[trigger] order@[q]) as int]),
                forall|q: int|
                    end <= q < order@.len() ==> text_lt(
                        t[i as int],
                        t[(#[trigger] order@[q]) as int],
                    ),
            decreases end - p,
        {
            let mid = p + (end - p) / 2;
            if text_less(texts[i].as_str(), texts[order[mid]].as_str()) {
                assert forall|q: int| mid <= q < order@.len() implies text_lt(
                    t[i as int],
                    t[(#[trigger] order@[q]) as int],
                ) by {
                    if q > mid {
                        assert(stands_before(t, order@[mid as int], order@[q]));
                        if t[order@[mid as int] as int] != t[order@[q] as int] {
                            lemma_text_lt_transitive(
                                t[i as int],
                                t[order@[mid as int] as int],
                                t[order@[q] as int],
                            );
                        }
                    }
                }
                end = mid;
            } else {
                assert forall|q: int| 0 <= q < mid + 1 implies !text_lt(
                    t[i as int],
                    t[(#[trigger] order@[q]) as int],
                ) by {
                    if q < mid && text_lt(t[i as int], t[order@[q] as int]) {
                        assert(stands_before(t, order@[q], order@[mid as int]));
                        if t[order@[q] as int] != t[order@[mid as int] as int] {
                            lemma_text_lt_transitive(
                                t[i as int],
                                t[order@[q] as int],
                                t[order@[mid as int] as int],
                            );
                        }
                    }
                }
                p = mid + 1;
            }
        }
        let ghost before = order@;
        order.insert(p, i);
        proof {
            let after = order@;
            assert forall|k: int| 0 <= k < after.len() implies (#[trigger] after[k]) < i + 1 by {
                if k < p {
                    assert(after[k] == before[k]);
                } else if k > p {
                    assert(after[k] == before[k - 1]);
                }
            }
            assert forall|x: usize| x < i + 1 implies after.contains(x) by {
                if x < i {
                    let k = before.index_of(x);
                    assert(before.contains(x));
                    if k < p {
                        assert(after[k] == x);
                    } else {
                        assert(after[k + 1] == x);
                    }
                } else {
                    assert(after[p as int] == x);
                }
            }
            assert forall|a: int, b: int| 0 <= a < b < after.len() implies stands_before(
                t,
                #[trigger] after[a],
                #[trigger] after[b],
            ) by {
                if b < p {
                    assert(after[a] == before[a] && after[b] == before[b]);
                } else if a > p {
                    assert(after[a] == before[a - 1] && after[b] == before[b - 1]);
                } else if a == p {
                    assert(after[b] == before[b - 1]);
                } else if b == p {
                    assert(after[a] == before[a]);
                    assert(before[p - 1] < i);
                    lemma_text_lt_total(t[i as int], t[before[p - 1] as int]);
                    assert(stands_before(t, before[p - 1], i));
                    if a < p - 1 {
                        assert(stands_before(t, before[a], before[p - 1]));
                        lemma_stands_before(t, before[a], before[p - 1], i);
                    }
                } else {
                    assert(after[a] == before[a] && after[b] == before[b - 1]);
                }
            }
        }
        i += 1;
    }
    proof {
        lemma_text_order_unique(t, order@);
    }
    order
}

} // verus!
