//! Numbers as the glyph stream writes them: signed decimal integers in
//! declarations, and bitmap rows as hexadecimal bytes.

use vstd::prelude::*;

verus! {

/// Whether `b` is an ASCII decimal digit.
pub open spec fn is_digit(b: u8) -> bool {
    48 <= b <= 57
}

/// Whether every byte of `s` is an ASCII decimal digit.
pub open spec fn all_digits(s: Seq<u8>) -> bool {
    forall|i: int| 0 <= i < s.len() ==> is_digit(#[trigger] s[i])
}

/// The number that a run of decimal digits denotes, most significant first.
pub open spec fn digits_value(s: Seq<u8>) -> int
    decreases s.len(),
{
    if s.len() == 0 {
        0
    } else {
        digits_value(s.drop_last()) * 10 + (s.last() - 48)
    }
}

/// Whether `s` starts with a sign that a decimal integer may carry.
pub open spec fn has_sign(s: Seq<u8>) -> bool {
    s.len() > 0 && (s[0] == 43 || s[0] == 45)
}

/// The integer that `s` denotes: an optional `+` or `-`, then one or more
/// decimal digits and nothing else. `None` for any other text.
pub open spec fn decimal_spec(s: Seq<u8>) -> Option<int> {
    let body = if has_sign(s) { s.skip(1) } else { s };
    if body.len() == 0 || !all_digits(body) {
        None
    } else if has_sign(s) && s[0] == 45 {
        Some(-digits_value(body))
    } else {
        Some(digits_value(body))
    }
}

/// What reading `s` as an integer gives: the integer it denotes, provided
/// that it fits in 64 bits.
pub open spec fn parse_int_spec(s: Seq<u8>) -> Option<i64> {
    match decimal_spec(s) {
        Some(v) => if i64::MIN <= v <= i64::MAX { Some(v as i64) } else { None },
        None => None,
    }
}

/// The value of a run of digits is never negative.
pub proof fn lemma_digits_value_nonnegative(s: Seq<u8>)
    requires
        all_digits(s),
    ensures
        digits_value(s) >= 0,
    decreases s.len(),
{
    if s.len() > 0 {
        lemma_digits_value_nonnegative(s.drop_last());
    }
}

/// A run of digits is worth at least as much as any of its prefixes.
pub proof fn lemma_digits_value_prefix(s: Seq<u8>, k: int)
    requires
        all_digits(s),
        0 <= k <= s.len(),
    ensures
        digits_value(s.take(k)) <= digits_value(s),
    decreases s.len(),
{
    if k == s.len() {
        assert(s.take(k) =~= s);
    } else {
        let init = s.drop_last();
        lemma_digits_value_prefix(init, k);
        lemma_digits_value_nonnegative(init);
        assert(init.take(k) =~= s.take(k));
    }
}

/// Reads a signed decimal integer. Gives `None` when `s` is not an integer
/// or the integer does not fit in 64 bits.
pub fn parse_int(s: &[u8]) -> (r: Option<i64>)
    ensures
        r == parse_int_spec(s@),
{
    let n: usize = s.len();
    if n == 0 {
        return None;
    }
    let negative: bool = s[0] == 45u8;
    let start: usize = if s[0] == 43u8 || s[0] == 45u8 { 1 } else { 0 };
    if start == n {
        return None;
    }
    let ghost body: Seq<u8> = if has_sign(s@) { s@.skip(1) } else { s@ };
    assert(body.len() == n - start);
    assert(forall|j: int| 0 <= j < body.len() ==> body[j] == s@[j + start]);
    let limit: u128 = 9223372036854775808u128;
    let mut magnitude: u128 = 0;
    let mut i: usize = start;
    while i < n
        invariant
            start <= i <= n,
            n == s@.len(),
            body == (if has_sign(s@) { s@.skip(1) } else { s@ }),
            body.len() == n - start,
            forall|j: int| 0 <= j < body.len() ==> body[j] == s@[j + start],
            negative == (s@[0] == 45),
            all_digits(body.take(i - start)),
            magnitude == digits_value(body.take(i - start)),
            magnitude <= limit,
            limit == 9223372036854775808u128,
        decreases n - i,
    {
        let b: u8 = s[i];
        if b < 48u8 || b > 57u8 {
            proof {
                assert(body[i - start] == b);
                assert(!is_digit(body[i - start]));
            }
            return None;
        }
        proof {
            let next = body.take(i - start + 1);
            assert(next.drop_last() =~= body.take(i - start));
            assert(next.last() == b);
            assert forall|j: int| 0 <= j < next.len() implies is_digit(#[trigger] next[j]) by {
                if j < i - start {
                    assert(body.take(i - start)[j] == next[j]);
                }
            }
        }
        magnitude = magnitude * 10 + ((b - 48u8) as u128);
        i = i + 1;
        if magnitude > limit {
            proof {
                if all_digits(body) {
                    lemma_digits_value_prefix(body, i - start);
                }
            }
            return None;
        }
    }
    proof {
        assert(body.take(i - start) =~= body);
    }
    if negative {
        if magnitude == limit {
            Some(i64::MIN)
        } else {
            Some(-(magnitude as i64))
        }
    } else if magnitude == limit {
        None
    } else {
        Some(magnitude as i64)
    }
}

/// The value of a hexadecimal digit, in either case; `None` for any other
/// byte.
pub open spec fn hex_digit_value(b: u8) -> Option<int> {
    if 48 <= b <= 57 {
        Some(b - 48)
    } else if 65 <= b <= 70 {
        Some(b - 55)
    } else if 97 <= b <= 102 {
        Some(b - 87)
    } else {
        None
    }
}

/// Whether every byte of `s` is a hexadecimal digit.
pub open spec fn all_hex_digits(s: Seq<u8>) -> bool {
    forall|i: int| 0 <= i < s.len() ==> hex_digit_value(#[trigger] s[i]) is Some
}

/// The number that a run of hexadecimal digits denotes, most significant
/// first.
pub open spec fn hex_value(s: Seq<u8>) -> int
    decreases s.len(),
{
    if s.len() == 0 {
        0
    } else {
        hex_value(s.drop_last()) * 16 + hex_digit_value(s.last()).unwrap()
    }
}

/// The digits of a hexadecimal number: `s` without a leading `+`.
pub open spec fn hex_body(s: Seq<u8>) -> Seq<u8> {
    if s.len() > 0 && s[0] == 43 {
        s.skip(1)
    } else {
        s
    }
}

/// What reading `s` as a bitmap row gives: an optional `+`, then one or more
/// hexadecimal digits that denote a number below 256.
pub open spec fn parse_hex_byte_spec(s: Seq<u8>) -> Option<u8> {
    let body = hex_body(s);
    if body.len() == 0 || !all_hex_digits(body) || hex_value(body) > 255 {
        None
    } else {
        Some(hex_value(body) as u8)
    }
}

/// The value of a run of hexadecimal digits is never negative.
pub proof fn lemma_hex_value_nonnegative(s: Seq<u8>)
    requires
        all_hex_digits(s),
    ensures
        hex_value(s) >= 0,
    decreases s.len(),
{
    if s.len() > 0 {
        lemma_hex_value_nonnegative(s.drop_last());
    }
}

/// A run of hexadecimal digits is worth at least as much as any of its
/// prefixes.
pub proof fn lemma_hex_value_prefix(s: Seq<u8>, k: int)
    requires
        all_hex_digits(s),
        0 <= k <= s.len(),
    ensures
        hex_value(s.take(k)) <= hex_value(s),
    decreases s.len(),
{
    if k == s.len() {
        assert(s.take(k) =~= s);
    } else {
        let init = s.drop_last();
        lemma_hex_value_prefix(init, k);
        lemma_hex_value_nonnegative(init);
        assert(init.take(k) =~= s.take(k));
    }
}

/// The value of one hexadecimal digit.
pub fn hex_digit(b: u8) -> (r: Option<u8>)
    ensures
        match r {
            Some(v) => hex_digit_value(b) == Some(v as int) && v < 16,
            None => hex_digit_value(b) is None,
        },
{
    if 48u8 <= b && b <= 57u8 {
        Some(b - 48u8)
    } else if 65u8 <= b && b <= 70u8 {
        Some(b - 55u8)
    } else if 97u8 <= b && b <= 102u8 {
        Some(b - 87u8)
    } else {
        None
    }
}

/// Reads a bitmap row: a hexadecimal byte. Gives `None` when `s` is not a
/// hexadecimal number or the number is above 255.
pub fn parse_hex_byte(s: &[u8]) -> (r: Option<u8>)
    ensures
        r == parse_hex_byte_spec(s@),
{
    let n: usize = s.len();
    if n == 0 {
        return None;
    }
    let start: usize = if s[0] == 43u8 { 1 } else { 0 };
    if start == n {
        return None;
    }
    let ghost body: Seq<u8> = hex_body(s@);
    assert(body.len() == n - start);
    assert(forall|j: int| 0 <= j < body.len() ==> body[j] == s@[j + start]);
    let mut value: u32 = 0;
    let mut i: usize = start;
    while i < n
        invariant
            start <= i <= n,
            n == s@.len(),
            body == hex_body(s@),
            body.len() == n - start,
            forall|j: int| 0 <= j < body.len() ==> body[j] == s@[j + start],
            all_hex_digits(body.take(i - start)),
            value == hex_value(body.take(i - start)),
            value <= 255,
        decreases n - i,
    {
        let digit: u8 = match hex_digit(s[i]) {
            Some(d) => d,
            None => {
                proof {
                    assert(body[i - start] == s@[i as int]);
                }
                return None;
            },
        };
        proof {
            let next = body.take(i - start + 1);
            assert(next.drop_last() =~= body.take(i - start));
            assert(next.last() == s@[i as int]);
            assert forall|j: int| 0 <= j < next.len() implies hex_digit_value(
                #[trigger] next[j],
            ) is Some by {
                if j < i - start {
                    assert(body.take(i - start)[j] == next[j]);
                }
            }
        }
        value = value * 16 + (digit as u32);
        i = i + 1;
        if value > 255 {
            proof {
                if all_hex_digits(body) {
                    lemma_hex_value_prefix(body, i - start);
                }
            }
            return None;
        }
    }
    proof {
        assert(body.take(i - start) =~= body);
    }
    Some(value as u8)
}

/// The upper-case hexadecimal digit for a number below 16.
pub open spec fn hex_char_spec(n: int) -> u8 {
    if n < 10 {
        (48 + n) as u8
    } else {
        (55 + n) as u8
    }
}

/// A byte written as a bitmap row: two upper-case hexadecimal digits.
pub open spec fn hex_row_spec(b: u8) -> Seq<u8> {
    seq![hex_char_spec(b as int / 16), hex_char_spec(b as int % 16)]
}

/// Writes a byte as a bitmap row: two upper-case hexadecimal digits.
pub fn hex_row(b: u8) -> (r: Vec<u8>)
    ensures
        r@ == hex_row_spec(b),
{
    let high: u8 = b / 16;
    let low: u8 = b % 16;
    let mut r: Vec<u8> = Vec::new();
    r.push(if high < 10 { 48u8 + high } else { 55u8 + high });
    r.push(if low < 10 { 48u8 + low } else { 55u8 + low });
    assert(r@ =~= hex_row_spec(b));
    r
}

/// Reading a written row gives the byte back.
pub proof fn lemma_hex_row_round_trip(b: u8)
    ensures
        parse_hex_byte_spec(hex_row_spec(b)) == Some(b),
        hex_row_spec(b).len() == 2,
        forall|i: int| 0 <= i < 2 ==> #[trigger] hex_row_spec(b)[i] != 32,
{
    let s = hex_row_spec(b);
    assert(hex_body(s) == s);
    let one = s.drop_last();
    assert(one.len() == 1);
    assert(one.drop_last().len() == 0);
    assert(hex_value(one.drop_last()) == 0);
    assert(hex_value(one) == b as int / 16);
    assert(hex_value(s) == (b as int / 16) * 16 + b as int % 16);
}

} // verus!
