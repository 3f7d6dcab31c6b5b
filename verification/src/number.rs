//! Reading a value field as a fixed-point integer.

use vstd::prelude::*;
use vstd::string::StrSliceExecFns;

verus! {

/// The largest magnitude that a scanned value may have.
pub const VALUE_LIMIT: i64 = 999_999_999;

/// Whether `c` is one of the ten decimal digits.
pub open spec fn is_digit(c: char) -> bool {
    '0' <= c && c <= '9'
}

/// The digit's worth.
pub open spec fn digit_value(c: char) -> int {
    c as int - '0' as int
}

/// The digits of `s` read as one decimal number; every other character is
/// passed over.
pub open spec fn magnitude(s: Seq<char>) -> nat
    decreases s.len(),
{
    if s.len() == 0 {
        0
    } else if is_digit(s.last()) {
        (magnitude(s.drop_last()) * 10 + digit_value(s.last())) as nat
    } else {
        magnitude(s.drop_last())
    }
}

/// Whether `s` holds an odd number of minus signs: each one flips the sign.
pub open spec fn negative(s: Seq<char>) -> bool
    decreases s.len(),
{
    if s.len() == 0 {
        false
    } else if s.last() == '-' {
        !negative(s.drop_last())
    } else {
        negative(s.drop_last())
    }
}

/// Whether `s` holds a digit at all.
pub open spec fn has_digit(s: Seq<char>) -> bool {
    exists|i: int| 0 <= i < s.len() && is_digit(#[trigger] s[i])
}

/// The signed value of the field `s`.
pub open spec fn field_value(s: Seq<char>) -> int {
    if negative(s) {
        -(magnitude(s) as int)
    } else {
        magnitude(s) as int
    }
}

/// The bytes of a field, each read as the character of the same code.
pub open spec fn as_chars(bytes: Seq<u8>) -> Seq<char> {
    Seq::new(bytes.len(), |i: int| bytes[i] as char)
}

/// A prefix never reads as more than the whole.
pub proof fn lemma_magnitude_prefix(s: Seq<char>, n: int)
    requires
        0 <= n <= s.len(),
    ensures
        magnitude(s.take(n)) <= magnitude(s),
    decreases s.len(),
{
    if n == s.len() {
        assert(s.take(n) == s);
    } else {
        lemma_magnitude_prefix(s.drop_last(), n);
        assert(s.drop_last().take(n) == s.take(n));
    }
}

/// A decimal point passes for nothing: a field that ends in a point and one
/// digit reads as ten times what stands before the point, plus that digit,
/// with the sign of what stands before the point.
pub proof fn lemma_one_fraction_digit(whole: Seq<char>, d: char)
    requires
        is_digit(d),
    ensures
        magnitude(whole.push('.').push(d)) == magnitude(whole) * 10 + digit_value(d),
        negative(whole.push('.').push(d)) == negative(whole),
{
    let pointed = whole.push('.');
    let field = pointed.push(d);
    assert(field.drop_last() == pointed);
    assert(pointed.drop_last() == whole);
    assert(field.last() == d);
    assert(pointed.last() == '.');
    assert(magnitude(pointed) == magnitude(whole));
    assert(negative(pointed) == negative(whole));
    assert(magnitude(field) == magnitude(pointed) * 10 + digit_value(d));
    assert(negative(field) == negative(pointed));
}

/// Reads a value field: a minus sign flips the sign, a digit appends to the
/// magnitude, anything else (the decimal point) is passed over.
pub fn parse_num(s: &str) -> (value: i64)
    requires
        magnitude(s@) <= i64::MAX,
    ensures
        value == field_value(s@),
{
    let n: usize = s.unicode_len();
    let mut i: usize = 0;
    let mut acc: i64 = 0;
    let mut neg: bool = false;
    while i < n
        invariant
            n == s@.len(),
            0 <= i <= n,
            acc == magnitude(s@.take(i as int)),
            neg == negative(s@.take(i as int)),
            magnitude(s@) <= i64::MAX,
        decreases n - i,
    {
        let c: char = s.get_char(i);
        proof {
            let next = s@.take(i + 1);
            assert(next.drop_last() == s@.take(i as int));
            assert(next.last() == c);
            lemma_magnitude_prefix(s@, i + 1);
        }
        if '0' <= c && c <= '9' {
            let d: u32 = c as u32 - '0' as u32;
            acc = acc * 10 + d as i64;
        } else if c == '-' {
            neg = !neg;
        }
        i = i + 1;
    }
    proof {
        assert(s@.take(n as int) == s@);
    }
    if neg {
        -acc
    } else {
        acc
    }
}

/// Whether the field `s` holds a value that a scan accepts: at least one
/// digit, and a magnitude within `VALUE_LIMIT`.
pub open spec fn field_accepted(s: Seq<char>) -> bool {
    has_digit(s) && magnitude(s) <= VALUE_LIMIT
}

/// Reads a value field given as bytes. It yields the field's value where the
/// field holds a digit and its magnitude is within `VALUE_LIMIT`, and nothing
/// otherwise.
pub fn parse_field(bytes: &[u8]) -> (value: Option<i64>)
    ensures
        value is Some <==> field_accepted(as_chars(bytes@)),
        value is Some ==> value->0 == field_value(as_chars(bytes@)),
        value is Some ==> -VALUE_LIMIT <= value->0 <= VALUE_LIMIT,
{
    let ghost s = as_chars(bytes@);
    let n: usize = bytes.len();
    let mut i: usize = 0;
    let mut acc: i64 = 0;
    let mut neg: bool = false;
    let mut seen: bool = false;
    while i < n
        invariant
            n == bytes@.len(),
            s == as_chars(bytes@),
            0 <= i <= n,
            acc == magnitude(s.take(i as int)),
            acc <= VALUE_LIMIT,
            neg == negative(s.take(i as int)),
            seen == has_digit(s.take(i as int)),
        decreases n - i,
    {
        let b: u8 = bytes[i];
        proof {
            let next = s.take(i + 1);
            let prev = s.take(i as int);
            assert(next.drop_last() == prev);
            assert(next.last() == b as char);
            lemma_magnitude_prefix(s, i + 1);
            if has_digit(prev) {
                let j = choose|j: int| 0 <= j < prev.len() && is_digit(#[trigger] prev[j]);
                assert(is_digit(next[j]));
            }
            if is_digit(b as char) {
                assert(is_digit(next[i as int]));
            }
            if has_digit(next) {
                let j = choose|j: int| 0 <= j < next.len() && is_digit(#[trigger] next[j]);
                if j < i {
                    assert(is_digit(prev[j]));
                }
            }
        }
        if 48 <= b && b <= 57 {
            let d: i64 = (b - 48) as i64;
            if acc * 10 + d > VALUE_LIMIT {
                return None;
            }
            acc = acc * 10 + d;
            seen = true;
        } else if b == 45 {
            neg = !neg;
        }
        i = i + 1;
    }
    proof {
        assert(s.take(n as int) == s);
    }
    if !seen {
        None
    } else if neg {
        Some(-acc)
    } else {
        Some(acc)
    }
}

} // verus!
