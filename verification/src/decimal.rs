//! Decimal text of integers, as it stands in integer frames and length lines.
use vstd::prelude::*;

verus! {

/// ASCII `0`.
pub const DIGIT_ZERO: u8 = 48;

/// ASCII `+`.
pub const PLUS: u8 = 43;

/// ASCII `-`.
pub const MINUS: u8 = 45;

/// `b` is one of the ASCII digits `0` to `9`.
pub open spec fn is_digit(b: u8) -> bool {
    48 <= b <= 57
}

/// Every byte of `s` is a digit.
pub open spec fn all_digits(s: Seq<u8>) -> bool {
    forall|i: int| 0 <= i < s.len() ==> is_digit(#[trigger] s[i])
}

/// The number that a run of decimal digits denotes, most significant digit first.
pub open spec fn digits_value(s: Seq<u8>) -> int
    decreases s.len(),
{
    if s.len() == 0 {
        0
    } else {
        digits_value(s.drop_last()) * 10 + (s.last() - 48)
    }
}

/// The digits after an optional leading sign.
pub open spec fn unsigned_part(s: Seq<u8>) -> Seq<u8> {
    if s.len() > 0 && (s[0] == MINUS || s[0] == PLUS) {
        s.drop_first()
    } else {
        s
    }
}

/// The signed integer that `s` denotes: an optional `+` or `-`, then one or
/// more decimal digits and nothing else. Leading zeros are allowed.
pub open spec fn signed_value(s: Seq<u8>) -> int {
    if s.len() > 0 && s[0] == MINUS {
        -digits_value(unsigned_part(s))
    } else {
        digits_value(unsigned_part(s))
    }
}

/// What a text reads as when taken for a signed 64-bit integer; `None` when
/// it is empty, holds a byte that is no digit, or is out of range.
pub open spec fn spec_parse_i64(s: Seq<u8>) -> Option<i64> {
    if unsigned_part(s).len() > 0 && all_digits(unsigned_part(s)) && i64::MIN <= signed_value(s)
        <= i64::MAX {
        Some(signed_value(s) as i64)
    } else {
        None
    }
}

/// The shortest decimal text of a natural number.
pub open spec fn spec_nat_digits(n: nat) -> Seq<u8>
    decreases n,
{
    if n < 10 {
        seq![(48 + n) as u8]
    } else {
        spec_nat_digits(n / 10).push((48 + n % 10) as u8)
    }
}

/// The shortest decimal text of an integer, with `-` before a negative one.
pub open spec fn spec_int_text(i: int) -> Seq<u8> {
    if i < 0 {
        seq![MINUS] + spec_nat_digits((-i) as nat)
    } else {
        spec_nat_digits(i as nat)
    }
}

/// A longer run of digits denotes no smaller a number than any of its prefixes.
pub proof fn lemma_digits_value_prefix(s: Seq<u8>, k: int)
    requires
        all_digits(s),
        0 <= k <= s.len(),
    ensures
        0 <= digits_value(s.take(k)) <= digits_value(s),
    decreases s.len() - k,
{
    if k == s.len() {
        assert(s.take(k) =~= s);
        lemma_digits_value_nonnegative(s);
    } else {
        lemma_digits_value_prefix(s, k + 1);
        let t: Seq<u8> = s.take(k + 1);
        assert(t.drop_last() =~= s.take(k));
        assert(is_digit(s[k]));
        assert(t.last() == s[k]);
        lemma_digits_value_nonnegative(s.take(k));
    }
}

/// A run of digits denotes no negative number.
pub proof fn lemma_digits_value_nonnegative(s: Seq<u8>)
    requires
        all_digits(s),
    ensures
        0 <= digits_value(s),
    decreases s.len(),
{
    if s.len() > 0 {
        assert(is_digit(s.last()));
        lemma_digits_value_nonnegative(s.drop_last());
    }
}

/// The decimal text of a natural number is made of digits, at least one,
/// and denotes that number.
pub proof fn lemma_nat_digits(n: nat)
    ensures
        spec_nat_digits(n).len() >= 1,
        all_digits(spec_nat_digits(n)),
        digits_value(spec_nat_digits(n)) == n,
    decreases n,
{
    if n < 10 {
        let s: Seq<u8> = spec_nat_digits(n);
        assert(s.drop_last() =~= Seq::<u8>::empty());
        assert(digits_value(s.drop_last()) == 0);
    } else {
        lemma_nat_digits(n / 10);
        let shorter: Seq<u8> = spec_nat_digits(n / 10);
        let s: Seq<u8> = spec_nat_digits(n);
        assert(s.drop_last() =~= shorter);
        assert forall|i: int| 0 <= i < s.len() implies is_digit(#[trigger] s[i]) by {
            if i < shorter.len() {
                assert(s[i] == shorter[i]);
            }
        }
    }
}

/// Every byte of an integer's text is a digit or the sign.
pub proof fn lemma_int_text_bytes(i: int)
    ensures
        spec_int_text(i).len() >= 1,
        forall|k: int|
            0 <= k < spec_int_text(i).len() ==> is_digit(#[trigger] spec_int_text(i)[k])
                || spec_int_text(i)[k] == MINUS,
{
    if i < 0 {
        lemma_nat_digits((-i) as nat);
    } else {
        lemma_nat_digits(i as nat);
    }
}

/// Reading the text of a 64-bit integer gives that integer back.
pub proof fn lemma_int_text_roundtrip(i: i64)
    ensures
        spec_parse_i64(spec_int_text(i as int)) == Some(i),
{
    let s: Seq<u8> = spec_int_text(i as int);
    if i < 0 {
        let digits: Seq<u8> = spec_nat_digits((-i) as nat);
        lemma_nat_digits((-i) as nat);
        assert(s[0] == MINUS);
        assert(unsigned_part(s) =~= digits);
    } else {
        lemma_nat_digits(i as nat);
        assert(is_digit(s[0]));
        assert(unsigned_part(s) =~= s);
    }
}

/// Reads `text` as a signed 64-bit integer.
pub fn parse_i64(text: &[u8]) -> (res: Option<i64>)
    ensures
        res == spec_parse_i64(text@),
{
    let n: usize = text.len();
    if n == 0 {
        return None;
    }
    let negative: bool = text[0] == MINUS;
    let start: usize = if text[0] == MINUS || text[0] == PLUS {
        1
    } else {
        0
    };
    let ghost digits: Seq<u8> = unsigned_part(text@);
    assert(digits =~= text@.subrange(start as int, n as int));
    if start == n {
        return None;
    }
    let limit: i128 = if negative {
        9223372036854775808i128
    } else {
        9223372036854775807i128
    };
    let mut acc: i128 = 0;
    let mut i: usize = start;
    while i < n
        invariant
            start <= i <= n,
            n == text@.len(),
            digits == unsigned_part(text@),
            digits == text@.subrange(start as int, n as int),
            n > 0,
            negative == (text@[0] == MINUS),
            all_digits(digits.take(i - start)),
            acc == digits_value(digits.take(i - start)),
            0 <= acc <= limit,
            limit == if negative { 9223372036854775808i128 } else { 9223372036854775807i128 },
        decreases n - i,
    {
        let b: u8 = text[i];
        let ghost shorter: Seq<u8> = digits.take(i - start);
        let ghost longer: Seq<u8> = digits.take(i - start + 1);
        assert(longer.drop_last() =~= shorter);
        assert(longer.last() == b);
        if b < 48 || b > 57 {
            assert(!is_digit(digits[i - start]));
            return None;
        }
        assert(all_digits(longer)) by {
            assert forall|j: int| 0 <= j < longer.len() implies is_digit(#[trigger] longer[j]) by {
                if j < shorter.len() {
                    assert(longer[j] == shorter[j]);
                }
            }
        }
        acc = acc * 10 + (b - 48) as i128;
        if acc > limit {
            proof {
                if all_digits(digits) {
                    lemma_digits_value_prefix(digits, i - start + 1);
                }
            }
            return None;
        }
        i += 1;
    }
    assert(digits.take(n - start) =~= digits);
    if negative {
        Some((-acc) as i64)
    } else {
        Some(acc as i64)
    }
}

/// Appends the decimal text of `n` to `out`.
pub fn push_nat_digits(out: &mut Vec<u8>, n: u64)
    ensures
        final(out)@ == old(out)@ + spec_nat_digits(n as nat),
    decreases n,
{
    if n >= 10 {
        push_nat_digits(out, n / 10);
    }
    out.push(48 + (n % 10) as u8);
}

/// Appends the decimal text of `i` to `out`.
pub fn push_int_text(out: &mut Vec<u8>, i: i64)
    ensures
        final(out)@ == old(out)@ + spec_int_text(i as int),
{
    if i < 0 {
        out.push(MINUS);
        let magnitude: u64 = (-(i as i128)) as u64;
        push_nat_digits(out, magnitude);
        assert(final(out)@ =~= old(out)@ + (seq![MINUS] + spec_nat_digits((-i) as nat)));
    } else {
        push_nat_digits(out, i as u64);
    }
}

} // verus!
