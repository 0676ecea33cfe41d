//! Text forms of numbers: decimal integers and floating-point literals.

use vstd::prelude::*;
use vstd::string::*;
use vstd::utf8::*;

verus! {

/// Whether `c` is one of the ten decimal digits.
pub open spec fn is_digit(c: char) -> bool {
    '0' <= c && c <= '9'
}

/// The value of a decimal digit.
pub open spec fn digit_value(c: char) -> int {
    c as int - '0' as int
}

/// The digit that stands for `d`, for `0 <= d <= 9`.
pub open spec fn digit_char(d: int) -> char {
    (d + '0' as int) as u8 as char
}

/// The decimal digits of `n`, most significant first, without leading zeros.
pub open spec fn nat_text(n: nat) -> Seq<char>
    decreases n,
{
    if n < 10 {
        seq![digit_char(n as int)]
    } else {
        nat_text(n / 10).push(digit_char((n % 10) as int))
    }
}

/// The canonical text of an integer: its decimal digits, after a minus sign
/// where it is negative.
pub open spec fn int_text(i: int) -> Seq<char> {
    if i < 0 {
        seq!['-'] + nat_text((-i) as nat)
    } else {
        nat_text(i as nat)
    }
}

/// The digit that stands for `d`, as a text.
fn digit_str(d: u64) -> (r: &'static str)
    requires
        d < 10,
    ensures
        r@ == seq![digit_char(d as int)],
{
    proof {
        reveal_strlit("0");
        reveal_strlit("1");
        reveal_strlit("2");
        reveal_strlit("3");
        reveal_strlit("4");
        reveal_strlit("5");
        reveal_strlit("6");
        reveal_strlit("7");
        reveal_strlit("8");
        reveal_strlit("9");
    }
    let r = match d {
        0 => "0",
        1 => "1",
        2 => "2",
        3 => "3",
        4 => "4",
        5 => "5",
        6 => "6",
        7 => "7",
        8 => "8",
        _ => "9",
    };
    assert(r@ =~= seq![digit_char(d as int)]);
    r
}

/// Writes `n` in decimal.
pub fn format_u64(n: u64) -> (r: String)
    ensures
        r@ == nat_text(n as nat),
    decreases n,
{
    if n < 10 {
        String::from_str(digit_str(n))
    } else {
        let mut s = format_u64(n / 10);
        s.append(digit_str(n % 10));
        s
    }
}

/// Writes `v` in decimal: the canonical text of an integer.
pub fn format_i64(v: i64) -> (r: String)
    ensures
        r@ == int_text(v as int),
{
    if v < 0 {
        let magnitude: u64 = (-(v + 1)) as u64 + 1;
        let digits = format_u64(magnitude);
        let r = String::from_str("-").concat(digits.as_str());
        proof {
            reveal_strlit("-");
            assert(r@ =~= seq!['-'] + nat_text((-v) as nat));
        }
        r
    } else {
        format_u64(v as u64)
    }
}

/// The number that a run of decimal digits denotes.
pub open spec fn digits_value(s: Seq<char>) -> nat
    decreases s.len(),
{
    if s.len() == 0 {
        0
    } else {
        digits_value(s.drop_last()) * 10 + digit_value(s.last()) as nat
    }
}

/// Whether every character of `s` is a decimal digit.
pub open spec fn all_digits(s: Seq<char>) -> bool {
    forall|i: int| 0 <= i < s.len() ==> is_digit(#[trigger] s[i])
}

/// Whether `s` starts with a plus or minus sign.
pub open spec fn has_sign(s: Seq<char>) -> bool {
    s.len() > 0 && (s[0] == '-' || s[0] == '+')
}

/// `s` without its leading sign, if it has one.
pub open spec fn unsigned_part(s: Seq<char>) -> Seq<char> {
    if has_sign(s) {
        s.skip(1)
    } else {
        s
    }
}

/// An integer literal is an optional sign followed by one or more decimal
/// digits.
pub open spec fn is_int_literal(s: Seq<char>) -> bool {
    unsigned_part(s).len() > 0 && all_digits(unsigned_part(s))
}

/// The integer that an integer literal denotes.
pub open spec fn int_literal_value(s: Seq<char>) -> int {
    if s.len() > 0 && s[0] == '-' {
        -(digits_value(unsigned_part(s)) as int)
    } else {
        digits_value(unsigned_part(s)) as int
    }
}

/// What parsing `s` as a 64-bit signed integer gives: the value of the
/// literal where it is one and fits, nothing otherwise.
pub open spec fn parse_i64_spec(s: Seq<char>) -> Option<i64> {
    if is_int_literal(s) && i64::MIN <= int_literal_value(s) <= i64::MAX {
        Some(int_literal_value(s) as i64)
    } else {
        None
    }
}

/// Appending a digit to a run of digits multiplies its value by ten and adds
/// the digit.
proof fn lemma_digits_value_push(s: Seq<char>, c: char)
    ensures
        digits_value(s.push(c)) == digits_value(s) * 10 + digit_value(c) as nat,
{
    assert(s.push(c).drop_last() =~= s);
}

/// A character over ASCII is neither a digit nor a sign, so a text that holds
/// one is no integer literal.
proof fn lemma_int_literal_is_ascii(s: Seq<char>)
    requires
        is_int_literal(s),
    ensures
        is_ascii_chars(s),
{
    let body = unsigned_part(s);
    assert forall|i: int| 0 <= i < s.len() implies '\0' <= #[trigger] s[i] <= '\u{7f}' by {
        if has_sign(s) {
            if i > 0 {
                assert(is_digit(body[i - 1]));
            }
        } else {
            assert(is_digit(body[i]));
        }
    }
}

/// Reads a 64-bit signed integer from its decimal literal: an optional sign,
/// then digits. Gives nothing where the text is no such literal or the value
/// does not fit.
pub fn parse_i64(s: &str) -> (r: Option<i64>)
    ensures
        r == parse_i64_spec(s@),
{
    if !s.is_ascii() {
        proof {
            if is_int_literal(s@) {
                lemma_int_literal_is_ascii(s@);
            }
        }
        return None;
    }
    let bytes = s.as_bytes();
    let n = bytes.len();
    proof {
        is_ascii_chars_encode_utf8(s@);
    }
    if n == 0 {
        return None;
    }
    let first = bytes[0];
    assert(s@[0] as u8 == first);
    let negative = first == 45u8;
    let start: usize = if first == 45u8 || first == 43u8 {
        1
    } else {
        0
    };
    assert(has_sign(s@) <==> start == 1);
    assert(negative <==> s@[0] == '-');
    let ghost body = unsigned_part(s@);
    assert(body =~= s@.skip(start as int));
    if start == n {
        return None;
    }
    let limit: u64 = if negative {
        9223372036854775808
    } else {
        9223372036854775807
    };
    let mut acc: u64 = 0;
    let mut overflow = false;
    let mut i = start;
    while i < n
        invariant
            is_ascii_chars(s@),
            n == s@.len(),
            bytes@ == encode_utf8(s@),
            n == bytes@.len(),
            start <= i <= n,
            body == s@.skip(start as int),
            body == unsigned_part(s@),
            negative <==> s@[0] == '-',
            all_digits(body.take(i - start)),
            limit == if negative { 9223372036854775808u64 } else { 9223372036854775807u64 },
            !overflow ==> acc == digits_value(body.take(i - start)) && acc <= limit,
            overflow ==> digits_value(body.take(i - start)) > limit,
        decreases n - i,
    {
        let b = bytes[i];
        proof {
            is_ascii_chars_encode_utf8(s@);
        }
        assert(body[i - start] == s@[i as int]);
        if b < 48u8 || b > 57u8 {
            assert(!is_digit(body[i - start]));
            return None;
        }
        let d = (b - 48u8) as u64;
        proof {
            let c = body[i - start];
            assert(is_digit(c));
            assert(digit_value(c) == d);
            assert(body.take(i + 1 - start) =~= body.take(i - start).push(c));
            lemma_digits_value_push(body.take(i - start), c);
        }
        if !overflow {
            if acc > (limit - d) / 10 {
                overflow = true;
            } else {
                acc = acc * 10 + d;
            }
        }
        i += 1;
    }
    assert(body.take(n - start) =~= body);
    if overflow {
        return None;
    }
    if negative {
        if acc == 9223372036854775808 {
            Some(i64::MIN)
        } else {
            Some(-(acc as i64))
        }
    } else {
        Some(acc as i64)
    }
}

/// The decimal digits of a number are a non-empty run of digits that denotes
/// that number.
pub proof fn lemma_nat_text_digits(n: nat)
    ensures
        nat_text(n).len() > 0,
        all_digits(nat_text(n)),
        digits_value(nat_text(n)) == n,
        !has_sign(nat_text(n)),
    decreases n,
{
    if n < 10 {
        let t = nat_text(n);
        assert(t.drop_last() =~= Seq::<char>::empty());
        assert(digits_value(t.drop_last()) == 0);
    } else {
        lemma_nat_text_digits(n / 10);
        lemma_digits_value_push(nat_text(n / 10), digit_char((n % 10) as int));
    }
}

/// Reading back the canonical text of a 64-bit integer gives that integer.
pub proof fn lemma_parse_int_text(v: i64)
    ensures
        is_int_literal(int_text(v as int)),
        parse_i64_spec(int_text(v as int)) == Some(v),
{
    let t = int_text(v as int);
    if v < 0 {
        let m = (-v) as nat;
        lemma_nat_text_digits(m);
        assert(t.skip(1) =~= nat_text(m));
        assert(t[0] == '-');
    } else {
        lemma_nat_text_digits(v as nat);
    }
}

/// The length of the run of decimal digits of `s` that starts at `i`.
pub open spec fn digit_run(s: Seq<char>, i: int) -> nat
    decreases s.len() - i,
{
    if 0 <= i < s.len() && is_digit(s[i]) {
        1 + digit_run(s, i + 1)
    } else {
        0
    }
}

/// The lower-case form of an ASCII letter; any other character unchanged.
pub open spec fn ascii_lower(c: char) -> char {
    if 'A' <= c && c <= 'Z' {
        (c as u8 + 32) as u8 as char
    } else {
        c
    }
}

/// Whether `s` spells `word`, letter case aside.
pub open spec fn spells(s: Seq<char>, word: Seq<char>) -> bool {
    s.len() == word.len() && forall|i: int|
        0 <= i < s.len() ==> ascii_lower(#[trigger] s[i]) == word[i]
}

/// The words that name a float that is no decimal number: `inf`, `infinity`
/// and `nan`, in any letter case.
pub open spec fn is_float_word(s: Seq<char>) -> bool {
    spells(s, seq!['i', 'n', 'f']) || spells(s, seq!['n', 'a', 'n']) || spells(
        s,
        seq!['i', 'n', 'f', 'i', 'n', 'i', 't', 'y'],
    )
}

/// An exponent: the letter `e`, in either case, and an integer literal.
pub open spec fn is_exponent(s: Seq<char>) -> bool {
    s.len() > 0 && (s[0] == 'e' || s[0] == 'E') && is_int_literal(s.skip(1))
}

/// Where the mantissa of an unsigned decimal number ends: after its integer
/// digits and, where a point follows them, the point and the fraction digits.
pub open spec fn mantissa_end(s: Seq<char>) -> int {
    let a = digit_run(s, 0) as int;
    if a < s.len() && s[a] == '.' {
        a + 1 + digit_run(s, a + 1)
    } else {
        a
    }
}

/// The number of digits in the mantissa of an unsigned decimal number.
pub open spec fn mantissa_digits(s: Seq<char>) -> int {
    let a = digit_run(s, 0) as int;
    if a < s.len() && s[a] == '.' {
        a + digit_run(s, a + 1)
    } else {
        a
    }
}

/// An unsigned decimal number: digits with at most one point among them and at
/// least one digit, then optionally an exponent.
pub open spec fn is_decimal_number(s: Seq<char>) -> bool {
    let m = mantissa_end(s);
    mantissa_digits(s) >= 1 && (m == s.len() || is_exponent(s.skip(m)))
}

/// A floating-point literal: an optional sign, then a decimal number or one of
/// the words `inf`, `infinity`, `nan`.
pub open spec fn is_float_literal(s: Seq<char>) -> bool {
    is_float_word(unsigned_part(s)) || is_decimal_number(unsigned_part(s))
}

/// A run of digits holds digits only and ends at the end of the text or before
/// a character that is no digit.
pub proof fn lemma_digit_run(s: Seq<char>, i: int)
    requires
        0 <= i <= s.len(),
    ensures
        i + digit_run(s, i) <= s.len(),
        forall|j: int| i <= j < i + digit_run(s, i) ==> is_digit(#[trigger] s[j]),
        i + digit_run(s, i) < s.len() ==> !is_digit(s[i + digit_run(s, i)]),
    decreases s.len() - i,
{
    if i < s.len() && is_digit(s[i]) {
        lemma_digit_run(s, i + 1);
    }
}

/// In a text of digits only, the run of digits that starts at `i` reaches
/// the end.
proof fn lemma_all_digits_run(s: Seq<char>, i: int)
    requires
        all_digits(s),
        0 <= i <= s.len(),
    ensures
        digit_run(s, i) == s.len() - i,
    decreases s.len() - i,
{
    if i < s.len() {
        assert(is_digit(s[i]));
        lemma_all_digits_run(s, i + 1);
    }
}

/// The decimal digits of a natural number are a floating-point literal.
pub proof fn lemma_nat_text_is_float_literal(n: nat)
    ensures
        is_float_literal(nat_text(n)),
{
    let s = nat_text(n);
    lemma_nat_text_digits(n);
    lemma_all_digits_run(s, 0);
    assert(is_decimal_number(s));
}

/// The end of the run of digits of `s` that starts at `from`.
fn scan_digits(s: &str, from: usize) -> (to: usize)
    requires
        is_ascii_chars(s@),
        from <= s@.len(),
    ensures
        to == from + digit_run(s@, from as int),
        to <= s@.len(),
{
    let bytes = s.as_bytes();
    let n = bytes.len();
    proof {
        is_ascii_chars_encode_utf8(s@);
    }
    let mut i = from;
    while i < n && 48u8 <= bytes[i] && bytes[i] <= 57u8
        invariant
            is_ascii_chars(s@),
            bytes@ == encode_utf8(s@),
            n == bytes@.len(),
            n == s@.len(),
            from <= i <= n,
            from + digit_run(s@, from as int) == i + digit_run(s@, i as int),
        decreases n - i,
    {
        proof {
            is_ascii_chars_encode_utf8(s@);
            assert(is_digit(s@[i as int]));
        }
        i += 1;
    }
    proof {
        is_ascii_chars_encode_utf8(s@);
        if i < n {
            assert(!is_digit(s@[i as int]));
        }
    }
    i
}

/// Whether the ASCII text `s` is an integer literal.
fn check_int_literal(s: &str) -> (r: bool)
    requires
        is_ascii_chars(s@),
    ensures
        r == is_int_literal(s@),
{
    let bytes = s.as_bytes();
    let n = bytes.len();
    proof {
        is_ascii_chars_encode_utf8(s@);
    }
    let start: usize = if n > 0 && (bytes[0] == 45u8 || bytes[0] == 43u8) {
        1
    } else {
        0
    };
    assert(has_sign(s@) <==> start == 1);
    let end = scan_digits(s, start);
    proof {
        let body = unsigned_part(s@);
        assert(body =~= s@.skip(start as int));
        lemma_digit_run(s@, start as int);
        if end == n {
            assert forall|i: int| 0 <= i < body.len() implies is_digit(#[trigger] body[i]) by {
                assert(body[i] == s@[start + i]);
            }
        } else {
            assert(body[end - start] == s@[end as int]);
        }
    }
    end == n && start < n
}

/// The lower-case form of the byte of an ASCII letter.
fn lower_byte(b: u8) -> (r: u8)
    requires
        b < 128,
    ensures
        r as char == ascii_lower(b as char),
        r < 128,
{
    if 65u8 <= b && b <= 90u8 {
        b + 32
    } else {
        b
    }
}

/// Whether the ASCII text `s` spells the ASCII word `word`, letter case aside.
fn spells_word(s: &str, word: &str) -> (r: bool)
    requires
        is_ascii_chars(s@),
        is_ascii_chars(word@),
    ensures
        r == spells(s@, word@),
{
    let a = s.as_bytes();
    let w = word.as_bytes();
    proof {
        is_ascii_chars_encode_utf8(s@);
        is_ascii_chars_encode_utf8(word@);
    }
    if a.len() != w.len() {
        return false;
    }
    let n = a.len();
    let mut i: usize = 0;
    while i < n
        invariant
            is_ascii_chars(s@),
            is_ascii_chars(word@),
            a@ == encode_utf8(s@),
            w@ == encode_utf8(word@),
            n == a@.len(),
            n == w@.len(),
            n == s@.len(),
            n == word@.len(),
            i <= n,
            forall|j: int| 0 <= j < i ==> ascii_lower(#[trigger] s@[j]) == word@[j],
        decreases n - i,
    {
        proof {
            is_ascii_chars_encode_utf8(s@);
            is_ascii_chars_encode_utf8(word@);
        }
        let l = lower_byte(a[i]);
        if l != w[i] {
            assert(ascii_lower(s@[i as int]) != word@[i as int]);
            return false;
        }
        i += 1;
    }
    true
}

/// A text that spells an ASCII word holds ASCII characters only.
proof fn lemma_spelled_is_ascii(s: Seq<char>, word: Seq<char>)
    requires
        spells(s, word),
        is_ascii_chars(word),
    ensures
        is_ascii_chars(s),
{
    assert forall|i: int| 0 <= i < s.len() implies '\0' <= #[trigger] s[i] <= '\u{7f}' by {
        assert(ascii_lower(s[i]) == word[i]);
    }
}

/// A floating-point literal holds ASCII characters only.
proof fn lemma_float_literal_is_ascii(s: Seq<char>)
    requires
        is_float_literal(s),
    ensures
        is_ascii_chars(s),
{
    let body = unsigned_part(s);
    if is_float_word(body) {
        if spells(body, seq!['i', 'n', 'f']) {
            lemma_spelled_is_ascii(body, seq!['i', 'n', 'f']);
        } else if spells(body, seq!['n', 'a', 'n']) {
            lemma_spelled_is_ascii(body, seq!['n', 'a', 'n']);
        } else {
            lemma_spelled_is_ascii(body, seq!['i', 'n', 'f', 'i', 'n', 'i', 't', 'y']);
        }
    } else {
        let a = digit_run(body, 0) as int;
        let m = mantissa_end(body);
        lemma_digit_run(body, 0);
        if a < body.len() && body[a] == '.' {
            lemma_digit_run(body, a + 1);
        }
        if m < body.len() {
            lemma_int_literal_is_ascii(body.skip(m).skip(1));
        }
        assert forall|i: int| 0 <= i < body.len() implies '\0' <= #[trigger] body[i]
            <= '\u{7f}' by {
            if i < a {
                assert(is_digit(body[i]));
            } else if i < m {
                if i > a {
                    assert(is_digit(body[i]));
                }
            } else if i > m {
                assert(body[i] == body.skip(m).skip(1)[i - m - 1]);
            }
        }
    }
    assert forall|i: int| 0 <= i < s.len() implies '\0' <= #[trigger] s[i] <= '\u{7f}' by {
        if has_sign(s) {
            if i > 0 {
                assert(s[i] == body[i - 1]);
            }
        }
    }
}

/// Whether `text` is a floating-point literal.
pub fn check_float_literal(text: &str) -> (r: bool)
    ensures
        r == is_float_literal(text@),
{
    if !text.is_ascii() {
        proof {
            if is_float_literal(text@) {
                lemma_float_literal_is_ascii(text@);
            }
        }
        return false;
    }
    let bytes = text.as_bytes();
    let n = bytes.len();
    proof {
        is_ascii_chars_encode_utf8(text@);
    }
    let start: usize = if n > 0 && (bytes[0] == 45u8 || bytes[0] == 43u8) {
        1
    } else {
        0
    };
    assert(has_sign(text@) <==> start == 1);
    let body = text.substring_ascii(start, n);
    assert(body@ =~= unsigned_part(text@));
    proof {
        reveal_strlit("inf");
        reveal_strlit("nan");
        reveal_strlit("infinity");
        assert("inf"@ =~= seq!['i', 'n', 'f']);
        assert("nan"@ =~= seq!['n', 'a', 'n']);
        assert("infinity"@ =~= seq!['i', 'n', 'f', 'i', 'n', 'i', 't', 'y']);
    }
    if spells_word(body, "inf") || spells_word(body, "nan") || spells_word(body, "infinity") {
        return true;
    }
    let len = n - start;
    let body_bytes = body.as_bytes();
    proof {
        is_ascii_chars_encode_utf8(body@);
    }
    let a = scan_digits(body, 0);
    let mut m = a;
    let mut digits = a;
    if a < len && body_bytes[a] == 46u8 {
        let b = scan_digits(body, a + 1);
        digits = a + (b - (a + 1));
        m = b;
    }
    assert(m == mantissa_end(body@));
    assert(digits == mantissa_digits(body@));
    if digits == 0 {
        return false;
    }
    if m == len {
        return true;
    }
    if body_bytes[m] != 101u8 && body_bytes[m] != 69u8 {
        return false;
    }
    let exponent = body.substring_ascii(m + 1, len);
    assert(exponent@ =~= body@.skip(m as int).skip(1));
    check_int_literal(exponent)
}

} // verus!
