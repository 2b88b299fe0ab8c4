//! Line scanning and decimal numbers on raw bytes.

use vstd::prelude::*;
use crate::value::crlf_at;

verus! {

/// Index of the first CR LF pair of `s` that starts at or after `from`.
pub open spec fn first_crlf(s: Seq<u8>, from: int) -> Option<int>
    decreases s.len() - from,
{
    if from < 0 || from + 1 >= s.len() {
        None
    } else if crlf_at(s, from) {
        Some(from)
    } else {
        first_crlf(s, from + 1)
    }
}

/// `first_crlf` finds a pair and nothing before it is one; or there is none.
pub proof fn lemma_first_crlf(s: Seq<u8>, from: int)
    requires
        0 <= from,
    ensures
        match first_crlf(s, from) {
            Some(e) => from <= e && crlf_at(s, e) && forall|j: int| from <= j < e ==> !crlf_at(s, j),
            None => forall|j: int| from <= j ==> !crlf_at(s, j),
        },
    decreases s.len() - from,
{
    if from + 1 >= s.len() {
    } else if crlf_at(s, from) {
    } else {
        lemma_first_crlf(s, from + 1);
    }
}

/// A pair at `e` with none before it, from `from` on, is the first.
pub proof fn lemma_first_crlf_is(s: Seq<u8>, from: int, e: int)
    requires
        0 <= from <= e,
        crlf_at(s, e),
        forall|j: int| from <= j < e ==> !crlf_at(s, j),
    ensures
        first_crlf(s, from) == Some(e),
    decreases e - from,
{
    if from < e {
        lemma_first_crlf_is(s, from + 1, e);
    }
}

/// The first CR LF pair of `buf` at or after `from`.
pub fn find_crlf(buf: &[u8], from: usize) -> (r: Option<usize>)
    ensures
        match r {
            Some(e) => first_crlf(buf@, from as int) == Some(e as int) && from <= e && e + 2
                <= buf.len(),
            None => first_crlf(buf@, from as int) is None,
        },
{
    let n: usize = buf.len();
    if n < 2 || from >= n - 1 {
        return None;
    }
    let mut i: usize = from;
    while i < n - 1
        invariant
            n == buf.len(),
            n >= 2,
            from <= i <= n - 1,
            forall|j: int| from <= j < i ==> !crlf_at(buf@, j),
        decreases n - i,
    {
        if buf[i] == 13u8 && buf[i + 1] == 10u8 {
            proof {
                lemma_first_crlf_is(buf@, from as int, i as int);
            }
            return Some(i);
        }
        i = i + 1;
    }
    proof {
        lemma_first_crlf(buf@, from as int);
    }
    None
}

/// Whether `b` is an ASCII decimal digit.
pub open spec fn is_digit(b: u8) -> bool {
    48 <= b <= 57
}

/// Whether every byte of `s` is a decimal digit.
pub open spec fn all_digits(s: Seq<u8>) -> bool {
    forall|i: int| 0 <= i < s.len() ==> is_digit(#[trigger] s[i])
}

/// The number that the decimal digits `s` write, most significant first.
pub open spec fn digits_value(s: Seq<u8>) -> nat
    decreases s.len(),
{
    if s.len() == 0 {
        0
    } else {
        digits_value(s.drop_last()) * 10 + (s.last() - 48) as nat
    }
}

/// The integer that `s` writes in decimal: an optional `+` or `-`, then at
/// least one digit and nothing else, the whole within 64 signed bits.
pub open spec fn decimal_value(s: Seq<u8>) -> Option<int> {
    let signed = s.len() > 0 && (s[0] == 45u8 || s[0] == 43u8);
    let negative = s.len() > 0 && s[0] == 45u8;
    let digits = if signed { s.skip(1) } else { s };
    if digits.len() == 0 || !all_digits(digits) {
        None
    } else {
        let v = if negative { -(digits_value(digits) as int) } else { digits_value(digits) as int };
        if i64::MIN <= v <= i64::MAX {
            Some(v)
        } else {
            None
        }
    }
}

/// A prefix of a digit string writes no more than the whole.
proof fn lemma_digits_value_prefix(s: Seq<u8>, k: int)
    requires
        0 <= k <= s.len(),
        all_digits(s),
    ensures
        digits_value(s.take(k)) <= digits_value(s),
    decreases s.len(),
{
    if k == s.len() {
        assert(s.take(k) =~= s);
    } else {
        assert(s.drop_last().take(k) =~= s.take(k));
        lemma_digits_value_prefix(s.drop_last(), k);
        assert(is_digit(s.last()));
    }
}

/// Reads the bytes of `buf` from `start` up to `end` as a decimal integer.
pub fn parse_decimal(buf: &[u8], start: usize, end: usize) -> (r: Option<i64>)
    requires
        start <= end <= buf.len(),
    ensures
        match r {
            Some(v) => decimal_value(buf@.subrange(start as int, end as int)) == Some(v as int),
            None => decimal_value(buf@.subrange(start as int, end as int)) is None,
        },
{
    let ghost s = buf@.subrange(start as int, end as int);
    let mut first: usize = start;
    let mut negative: bool = false;
    if start < end && (buf[start] == 45u8 || buf[start] == 43u8) {
        negative = buf[start] == 45u8;
        first = start + 1;
    }
    let ghost digits = buf@.subrange(first as int, end as int);
    proof {
        assert(s.len() > 0 ==> s[0] == buf@[start as int]);
        if first == start {
            assert(digits =~= s);
        } else {
            assert(digits =~= s.skip(1));
        }
        assert(digits == if s.len() > 0 && (s[0] == 45u8 || s[0] == 43u8) {
            s.skip(1)
        } else {
            s
        });
    }
    if first == end {
        return None;
    }
    let mut acc: u64 = 0;
    let mut i: usize = first;
    while i < end
        invariant
            start <= first <= i <= end <= buf.len(),
            s == buf@.subrange(start as int, end as int),
            digits == buf@.subrange(first as int, end as int),
            digits == if s.len() > 0 && (s[0] == 45u8 || s[0] == 43u8) {
                s.skip(1)
            } else {
                s
            },
            all_digits(digits.take(i - first)),
            acc as nat == digits_value(digits.take(i - first)),
            acc <= 0x8000_0000_0000_0000u64,
        decreases end - i,
    {
        let b: u8 = buf[i];
        assert(digits[i - first] == b);
        if b < 48u8 || b > 57u8 {
            assert(!is_digit(digits[i - first]));
            return None;
        }
        let next: u128 = (acc as u128) * 10 + ((b - 48u8) as u128);
        proof {
            assert(digits.take(i - first + 1).drop_last() =~= digits.take(i - first));
            assert(digits.take(i - first + 1).last() == b);
            assert forall|j: int| 0 <= j < i - first + 1 implies is_digit(
                #[trigger] digits.take(i - first + 1)[j],
            ) by {
                if j < i - first {
                    assert(digits.take(i - first)[j] == digits[j]);
                }
            }
            assert(next as nat == digits_value(digits.take(i - first + 1)));
        }
        if next > 0x8000_0000_0000_0000u128 {
            proof {
                if all_digits(digits) {
                    lemma_digits_value_prefix(digits, i - first + 1);
                }
            }
            return None;
        }
        acc = next as u64;
        i = i + 1;
    }
    proof {
        assert(digits.take(i - first) =~= digits);
    }
    if negative {
        if acc == 0x8000_0000_0000_0000u64 {
            Some(i64::MIN)
        } else {
            Some(-(acc as i64))
        }
    } else if acc > 0x7fff_ffff_ffff_ffffu64 {
        None
    } else {
        Some(acc as i64)
    }
}

/// The decimal digits of `n`, most significant first, without leading zeros.
pub open spec fn digits_of(n: nat) -> Seq<u8>
    decreases n,
{
    if n < 10 {
        seq![(48 + n) as u8]
    } else {
        digits_of(n / 10).push((48 + n % 10) as u8)
    }
}

/// The decimal text of `v`: a `-` for a negative number, then its digits.
pub open spec fn decimal_text(v: int) -> Seq<u8> {
    if v < 0 {
        seq![45u8] + digits_of((-v) as nat)
    } else {
        digits_of(v as nat)
    }
}

/// The digits of `n` are digits, at least one, and write `n`.
proof fn lemma_digits_of(n: nat)
    ensures
        all_digits(digits_of(n)),
        digits_of(n).len() >= 1,
        digits_value(digits_of(n)) == n,
    decreases n,
{
    let s = digits_of(n);
    if n < 10 {
        assert(s.drop_last() =~= Seq::<u8>::empty());
        assert(digits_value(s.drop_last()) == 0);
    } else {
        lemma_digits_of(n / 10);
        assert(s.drop_last() =~= digits_of(n / 10));
        assert(s.last() == (48 + n % 10) as u8);
        assert forall|i: int| 0 <= i < s.len() implies is_digit(#[trigger] s[i]) by {
            if i < s.len() - 1 {
                assert(s[i] == digits_of(n / 10)[i]);
            }
        }
    }
}

/// Reading the decimal text of a 64-bit integer gives the integer back, and
/// the text holds neither CR nor LF.
pub proof fn lemma_decimal_text(v: int)
    requires
        i64::MIN <= v <= i64::MAX,
    ensures
        decimal_value(decimal_text(v)) == Some(v),
        forall|i: int| 0 <= i < decimal_text(v).len() ==> is_digit(#[trigger] decimal_text(v)[i])
            || decimal_text(v)[i] == 45u8,
{
    let text = decimal_text(v);
    if v < 0 {
        lemma_digits_of((-v) as nat);
        assert(text.skip(1) =~= digits_of((-v) as nat));
        assert(text[0] == 45u8);
        assert forall|i: int| 0 <= i < text.len() implies is_digit(#[trigger] text[i]) || text[i]
            == 45u8 by {
            if i > 0 {
                assert(text[i] == digits_of((-v) as nat)[i - 1]);
            }
        }
    } else {
        lemma_digits_of(v as nat);
        assert(is_digit(text[0]));
    }
}

/// Appends the decimal digits of `n` to `out`.
pub fn push_digits(out: &mut Vec<u8>, n: u64)
    ensures
        final(out)@ == old(out)@ + digits_of(n as nat),
    decreases n,
{
    if n >= 10 {
        push_digits(out, n / 10);
    }
    let d: u8 = 48u8 + ((n % 10) as u8);
    out.push(d);
    proof {
        if n >= 10 {
            assert(out@ =~= old(out)@ + digits_of((n / 10) as nat).push(d));
        } else {
            assert(out@ =~= old(out)@ + seq![d]);
        }
    }
}

/// Appends the decimal text of `v` to `out`.
pub fn push_decimal(out: &mut Vec<u8>, v: i64)
    ensures
        final(out)@ == old(out)@ + decimal_text(v as int),
{
    if v < 0 {
        out.push(45u8);
        let magnitude: u64 = if v == i64::MIN {
            0x8000_0000_0000_0000u64
        } else {
            (-v) as u64
        };
        push_digits(out, magnitude);
        proof {
            assert(out@ =~= old(out)@ + (seq![45u8] + digits_of(magnitude as nat)));
        }
    } else {
        push_digits(out, v as u64);
    }
}

} // verus!
