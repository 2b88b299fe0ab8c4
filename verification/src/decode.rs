//! The decoder: one complete value from the front of a byte buffer.

use vstd::prelude::*;
use vstd::slice::{slice_subrange, slice_to_vec};
use crate::value::{crlf_at, no_crlf, views, DataType, Value, MAX_DEPTH, MAX_LEN};
use crate::scan::{decimal_value, find_crlf, first_crlf, lemma_first_crlf, parse_decimal};

verus! {

/// Why a buffer is not the start of any value.
#[derive(Clone, Copy, Debug, PartialEq, Eq)]
pub enum Reason {
    /// The first byte is none of `+ - : $ * _`.
    UnknownTag,
    /// The line after `:` is not a decimal 64-bit integer.
    BadInteger,
    /// The line after `$` or `*` is not a decimal 64-bit integer.
    BadLength,
    /// A length or count below the null marker `-1`.
    NegativeLength,
    /// A length or count above `MAX_LEN`.
    LengthTooLarge,
    /// The bytes where CR LF must stand are something else.
    MissingTerminator,
    /// Arrays nested deeper than the decoder accepts.
    TooDeep,
}

impl Reason {
    /// The reason in words.
    pub open spec fn text(self) -> Seq<char> {
        match self {
            Reason::UnknownTag => "unknown type tag"@,
            Reason::BadInteger => "integer is not a decimal 64-bit number"@,
            Reason::BadLength => "length is not a decimal 64-bit number"@,
            Reason::NegativeLength => "negative length other than -1"@,
            Reason::LengthTooLarge => "length exceeds the accepted maximum"@,
            Reason::MissingTerminator => "missing CR LF terminator"@,
            Reason::TooDeep => "arrays nested too deep"@,
        }
    }

    /// The reason in words, for a log line or a reply.
    pub fn describe(&self) -> (r: &'static str)
        ensures
            r@ == self.text(),
    {
        match self {
            Reason::UnknownTag => "unknown type tag",
            Reason::BadInteger => "integer is not a decimal 64-bit number",
            Reason::BadLength => "length is not a decimal 64-bit number",
            Reason::NegativeLength => "negative length other than -1",
            Reason::LengthTooLarge => "length exceeds the accepted maximum",
            Reason::MissingTerminator => "missing CR LF terminator",
            Reason::TooDeep => "arrays nested too deep",
        }
    }
}

/// What decoding the front of a byte sequence gives, over models: a result
/// and the number of bytes it took, a request for more bytes, or the offset
/// and reason of a violation.
pub enum Outcome<T> {
    Complete(T, nat),
    Incomplete,
    Malformed(nat, Reason),
}

/// What the decoder returns.
#[derive(Debug, PartialEq, Eq)]
pub enum Decoded {
    /// A whole value, and the number of bytes it occupied at the front.
    Complete { value: DataType, consumed: usize },
    /// The buffer ends before the value does.
    Incomplete,
    /// The buffer cannot be continued to a value.
    Malformed { offset: usize, reason: Reason },
}

impl Decoded {
    /// The answer over models.
    pub open spec fn view(&self) -> Outcome<Value> {
        match self {
            Decoded::Complete { value, consumed } => Outcome::Complete(value@, *consumed as nat),
            Decoded::Incomplete => Outcome::Incomplete,
            Decoded::Malformed { offset, reason } => Outcome::Malformed(*offset as nat, *reason),
        }
    }

    /// A decoded tree stores its real lengths.
    pub open spec fn wf(&self) -> bool {
        match self {
            Decoded::Complete { value, consumed } => value.wf(),
            _ => true,
        }
    }
}

/// The length line that follows a `$` or `*` tag: the number it declares
/// and the size of the header, tag and CR LF included.
pub open spec fn decode_length(s: Seq<u8>) -> Outcome<int> {
    match first_crlf(s, 1) {
        None => Outcome::Incomplete,
        Some(e) => match decimal_value(s.subrange(1, e)) {
            None => Outcome::Malformed(1, Reason::BadLength),
            Some(n) => if n < -1 {
                Outcome::Malformed(1, Reason::NegativeLength)
            } else if n > MAX_LEN {
                Outcome::Malformed(1, Reason::LengthTooLarge)
            } else {
                Outcome::Complete(n, (e + 2) as nat)
            },
        },
    }
}

/// The value at the front of `s`, with arrays nested at most `depth` deep.
pub open spec fn decode_value(s: Seq<u8>, depth: nat) -> Outcome<Value>
    decreases depth, 0nat, 0nat,
{
    if s.len() == 0 {
        Outcome::Incomplete
    } else if s[0] == 43u8 || s[0] == 45u8 {
        match first_crlf(s, 1) {
            None => Outcome::Incomplete,
            Some(e) => Outcome::Complete(
                if s[0] == 43u8 {
                    Value::SimpleString(s.subrange(1, e))
                } else {
                    Value::Error(s.subrange(1, e))
                },
                (e + 2) as nat,
            ),
        }
    } else if s[0] == 58u8 {
        match first_crlf(s, 1) {
            None => Outcome::Incomplete,
            Some(e) => match decimal_value(s.subrange(1, e)) {
                None => Outcome::Malformed(1, Reason::BadInteger),
                Some(v) => Outcome::Complete(Value::Integer(v), (e + 2) as nat),
            },
        }
    } else if s[0] == 36u8 {
        match decode_length(s) {
            Outcome::Complete(n, h) => if n < 0 {
                Outcome::Complete(Value::NullString, h)
            } else if s.len() < h + n + 2 {
                Outcome::Incomplete
            } else if !crlf_at(s, h + n) {
                Outcome::Malformed((h + n) as nat, Reason::MissingTerminator)
            } else {
                Outcome::Complete(Value::BulkString(s.subrange(h as int, h + n)), (h + n + 2) as nat)
            },
            Outcome::Incomplete => Outcome::Incomplete,
            Outcome::Malformed(o, r) => Outcome::Malformed(o, r),
        }
    } else if s[0] == 42u8 {
        match decode_length(s) {
            Outcome::Complete(n, h) => if n < 0 {
                Outcome::Complete(Value::NullArray, h)
            } else if depth == 0 {
                Outcome::Malformed(0, Reason::TooDeep)
            } else {
                match decode_elems(s.skip(h as int), n as nat, (depth - 1) as nat) {
                    Outcome::Complete(vs, k) => Outcome::Complete(Value::Array(vs), h + k),
                    Outcome::Incomplete => Outcome::Incomplete,
                    Outcome::Malformed(o, r) => Outcome::Malformed(h + o, r),
                }
            },
            Outcome::Incomplete => Outcome::Incomplete,
            Outcome::Malformed(o, r) => Outcome::Malformed(o, r),
        }
    } else if s[0] == 95u8 {
        if s.len() >= 2 && s[1] != 13u8 {
            Outcome::Malformed(1, Reason::MissingTerminator)
        } else if s.len() >= 3 && s[2] != 10u8 {
            Outcome::Malformed(2, Reason::MissingTerminator)
        } else if s.len() < 3 {
            Outcome::Incomplete
        } else {
            Outcome::Complete(Value::Null, 3)
        }
    } else {
        Outcome::Malformed(0, Reason::UnknownTag)
    }
}

/// The first `n` values of `s`, one after another: all of them, or the
/// first request for more bytes or violation met on the way.
pub open spec fn decode_elems(s: Seq<u8>, n: nat, depth: nat) -> Outcome<Seq<Value>>
    decreases depth, 1nat, n,
{
    if n == 0 {
        Outcome::Complete(Seq::empty(), 0)
    } else {
        match decode_elems(s, (n - 1) as nat, depth) {
            Outcome::Complete(vs, k) => match decode_value(s.skip(k as int), depth) {
                Outcome::Complete(v, m) => Outcome::Complete(vs.push(v), k + m),
                Outcome::Incomplete => Outcome::Incomplete,
                Outcome::Malformed(o, r) => Outcome::Malformed(k + o, r),
            },
            Outcome::Incomplete => Outcome::Incomplete,
            Outcome::Malformed(o, r) => Outcome::Malformed(o, r),
        }
    }
}

/// Once a run of elements has stopped short, asking for more elements
/// stops at the same place.
proof fn lemma_elems_stuck(s: Seq<u8>, i: nat, n: nat, depth: nat)
    requires
        i <= n,
        !(decode_elems(s, i, depth) is Complete),
    ensures
        decode_elems(s, n, depth) == decode_elems(s, i, depth),
    decreases n - i,
{
    if i < n {
        lemma_elems_stuck(s, i, (n - 1) as nat, depth);
    }
}

/// A line before its first CR LF holds no CR LF.
proof fn lemma_line_no_crlf(s: Seq<u8>, e: int)
    requires
        first_crlf(s, 1) == Some(e),
    ensures
        1 <= e,
        e + 2 <= s.len(),
        no_crlf(s.subrange(1, e)),
{
    lemma_first_crlf(s, 1);
    let t = s.subrange(1, e);
    assert forall|i: int| !crlf_at(t, i) by {
        if crlf_at(t, i) {
            assert(crlf_at(s, i + 1));
        }
    }
}

/// A decoded value lies within the bytes it was decoded from, takes at
/// least one of them, and is well-formed; a violation lies within them too.
pub proof fn lemma_decode_bounds(s: Seq<u8>, depth: nat)
    ensures
        match decode_value(s, depth) {
            Outcome::Complete(v, k) => 0 < k <= s.len() && v.wf(depth),
            Outcome::Incomplete => true,
            Outcome::Malformed(o, r) => o < s.len(),
        },
    decreases depth, 0nat, 0nat,
{
    if s.len() > 0 {
        lemma_first_crlf(s, 1);
        if first_crlf(s, 1) is Some {
            lemma_line_no_crlf(s, first_crlf(s, 1).unwrap());
        }
        if s[0] == 42u8 {
            if let Outcome::Complete(n, h) = decode_length(s) {
                if n >= 0 && depth > 0 {
                    lemma_elems_bounds(s.skip(h as int), n as nat, (depth - 1) as nat);
                }
            }
        }
    }
}

/// A decoded run of elements lies within the bytes it was decoded from and
/// each element is well-formed.
pub proof fn lemma_elems_bounds(s: Seq<u8>, n: nat, depth: nat)
    ensures
        match decode_elems(s, n, depth) {
            Outcome::Complete(vs, k) => {
                &&& k <= s.len()
                &&& vs.len() == n
                &&& forall|i: int| 0 <= i < vs.len() ==> (#[trigger] vs[i]).wf(depth)
            },
            Outcome::Incomplete => true,
            Outcome::Malformed(o, r) => o < s.len(),
        },
    decreases depth, 1nat, n,
{
    if n > 0 {
        lemma_elems_bounds(s, (n - 1) as nat, depth);
        if let Outcome::Complete(vs, k) = decode_elems(s, (n - 1) as nat, depth) {
            lemma_decode_bounds(s.skip(k as int), depth);
        }
    }
}

/// A CR LF pair that was found is still the first when bytes are appended.
proof fn lemma_first_crlf_extend(s: Seq<u8>, t: Seq<u8>, from: int)
    requires
        0 <= from,
        first_crlf(s, from) is Some,
    ensures
        first_crlf(s + t, from) == first_crlf(s, from),
{
    lemma_first_crlf(s, from);
    let e = first_crlf(s, from).unwrap();
    assert(crlf_at(s + t, e));
    assert forall|j: int| from <= j < e implies !crlf_at(s + t, j) by {
        assert(!crlf_at(s, j));
        assert((s + t)[j] == s[j] && (s + t)[j + 1] == s[j + 1]);
    }
    crate::scan::lemma_first_crlf_is(s + t, from, e);
}

/// A length line that was read, or refused, reads the same when bytes are
/// appended.
proof fn lemma_length_extend(s: Seq<u8>, t: Seq<u8>)
    requires
        !(decode_length(s) is Incomplete),
    ensures
        decode_length(s + t) == decode_length(s),
{
    lemma_first_crlf(s, 1);
    lemma_first_crlf_extend(s, t, 1);
    let e = first_crlf(s, 1).unwrap();
    assert((s + t).subrange(1, e) =~= s.subrange(1, e));
}

/// Appending bytes to a buffer that decodes to a value, or is refused,
/// changes nothing: the decoder's answer depends only on the bytes it has
/// consumed, never on where the buffer happens to end.
pub proof fn lemma_decode_extend(s: Seq<u8>, t: Seq<u8>, depth: nat)
    requires
        !(decode_value(s, depth) is Incomplete),
    ensures
        decode_value(s + t, depth) == decode_value(s, depth),
    decreases depth, 0nat, 0nat,
{
    let st = s + t;
    assert(s.len() > 0);
    assert(st[0] == s[0]);
    if s[0] == 43u8 || s[0] == 45u8 || s[0] == 58u8 {
        lemma_first_crlf(s, 1);
        lemma_first_crlf_extend(s, t, 1);
        let e = first_crlf(s, 1).unwrap();
        assert(st.subrange(1, e) =~= s.subrange(1, e));
    } else if s[0] == 36u8 {
        lemma_length_extend(s, t);
        if let Outcome::Complete(n, h) = decode_length(s) {
            if n >= 0 {
                assert(st[h + n] == s[h + n] && st[h + n + 1] == s[h + n + 1]);
                assert(st.subrange(h as int, h + n) =~= s.subrange(h as int, h + n));
            }
        }
    } else if s[0] == 42u8 {
        lemma_length_extend(s, t);
        if let Outcome::Complete(n, h) = decode_length(s) {
            if n >= 0 && depth > 0 {
                lemma_first_crlf(s, 1);
                assert(st.skip(h as int) =~= s.skip(h as int) + t);
                lemma_elems_extend(s.skip(h as int), t, n as nat, (depth - 1) as nat);
            }
        }
    } else if s[0] == 95u8 {
        if s.len() >= 2 {
            assert(st[1] == s[1]);
        }
        if s.len() >= 3 {
            assert(st[2] == s[2]);
        }
    }
}

/// The same for a run of elements.
pub proof fn lemma_elems_extend(s: Seq<u8>, t: Seq<u8>, n: nat, depth: nat)
    requires
        !(decode_elems(s, n, depth) is Incomplete),
    ensures
        decode_elems(s + t, n, depth) == decode_elems(s, n, depth),
    decreases depth, 1nat, n,
{
    if n > 0 {
        lemma_elems_extend(s, t, (n - 1) as nat, depth);
        if let Outcome::Complete(vs, k) = decode_elems(s, (n - 1) as nat, depth) {
            lemma_elems_bounds(s, (n - 1) as nat, depth);
            assert((s + t).skip(k as int) =~= s.skip(k as int) + t);
            lemma_decode_extend(s.skip(k as int), t, depth);
        }
    }
}

/// A CR LF pair that was found is still the first when the bytes after it
/// are cut off.
proof fn lemma_first_crlf_take(s: Seq<u8>, from: int, m: int)
    requires
        0 <= from,
        first_crlf(s, from) is Some,
        first_crlf(s, from).unwrap() + 2 <= m <= s.len(),
    ensures
        first_crlf(s.take(m), from) == first_crlf(s, from),
{
    lemma_first_crlf(s, from);
    let e = first_crlf(s, from).unwrap();
    let p = s.take(m);
    assert(crlf_at(p, e));
    assert forall|j: int| from <= j < e implies !crlf_at(p, j) by {
        assert(!crlf_at(s, j));
    }
    crate::scan::lemma_first_crlf_is(p, from, e);
}

/// A decoded value is decoded from the bytes it consumed alone: cutting the
/// buffer right after them changes nothing.
pub proof fn lemma_decode_prefix(s: Seq<u8>, depth: nat)
    requires
        decode_value(s, depth) is Complete,
    ensures
        decode_value(s, depth)->Complete_1 <= s.len(),
        decode_value(s.take(decode_value(s, depth)->Complete_1 as int), depth) == decode_value(
            s,
            depth,
        ),
    decreases depth, 0nat, 0nat,
{
    lemma_decode_bounds(s, depth);
    let k = decode_value(s, depth)->Complete_1 as int;
    let p = s.take(k);
    assert(p[0] == s[0]);
    if s[0] == 43u8 || s[0] == 45u8 || s[0] == 58u8 {
        lemma_first_crlf(s, 1);
        lemma_first_crlf_take(s, 1, k);
        let e = first_crlf(s, 1).unwrap();
        assert(p.subrange(1, e) =~= s.subrange(1, e));
    } else if s[0] == 36u8 || s[0] == 42u8 {
        lemma_first_crlf(s, 1);
        let e = first_crlf(s, 1).unwrap();
        let n = decode_length(s)->Complete_0;
        let h = e + 2;
        if s[0] == 42u8 && n >= 0 {
            lemma_elems_bounds(s.skip(h), n as nat, (depth - 1) as nat);
        }
        lemma_first_crlf_take(s, 1, k);
        assert(p.subrange(1, e) =~= s.subrange(1, e));
        assert(decode_length(p) == decode_length(s));
        if n >= 0 {
            if s[0] == 36u8 {
                assert(p.subrange(h, h + n) =~= s.subrange(h, h + n));
            } else {
                lemma_elems_prefix(s.skip(h), n as nat, (depth - 1) as nat);
                assert(p.skip(h) =~= s.skip(h).take(k - h));
            }
        }
    } else {
        assert(s[0] == 95u8);
        assert(p[1] == s[1] && p[2] == s[2]);
    }
}

/// The same for a run of elements.
pub proof fn lemma_elems_prefix(s: Seq<u8>, n: nat, depth: nat)
    requires
        decode_elems(s, n, depth) is Complete,
    ensures
        decode_elems(s, n, depth)->Complete_1 <= s.len(),
        decode_elems(s.take(decode_elems(s, n, depth)->Complete_1 as int), n, depth)
            == decode_elems(s, n, depth),
    decreases depth, 1nat, n,
{
    lemma_elems_bounds(s, n, depth);
    let k = decode_elems(s, n, depth)->Complete_1 as int;
    if n > 0 {
        let k1 = decode_elems(s, (n - 1) as nat, depth)->Complete_1 as int;
        lemma_elems_bounds(s, (n - 1) as nat, depth);
        lemma_decode_bounds(s.skip(k1), depth);
        lemma_elems_prefix(s, (n - 1) as nat, depth);
        lemma_elems_extend(s.take(k1), s.subrange(k1, k), (n - 1) as nat, depth);
        assert(s.take(k1) + s.subrange(k1, k) =~= s.take(k));
        lemma_decode_prefix(s.skip(k1), depth);
        assert(s.take(k).skip(k1) =~= s.skip(k1).take(k - k1));
    }
}

/// Determinism: a value decoded from one buffer is decoded, with the same
/// size, from every buffer that starts with the same consumed bytes.
pub proof fn lemma_decode_depends_on_consumed(s1: Seq<u8>, s2: Seq<u8>, depth: nat)
    requires
        decode_value(s1, depth) is Complete,
        decode_value(s1, depth)->Complete_1 <= s2.len(),
        s2.take(decode_value(s1, depth)->Complete_1 as int) == s1.take(
            decode_value(s1, depth)->Complete_1 as int,
        ),
    ensures
        decode_value(s2, depth) == decode_value(s1, depth),
{
    let k = decode_value(s1, depth)->Complete_1 as int;
    lemma_decode_prefix(s1, depth);
    lemma_decode_extend(s1.take(k), s2.skip(k), depth);
    assert(s1.take(k) + s2.skip(k) =~= s2);
}

/// Reads the length line of a `$` or `*` header: the declared number and
/// the size of the header, `None` while the line is unfinished, or the
/// reason for which the line is refused.
pub fn parse_length(buf: &[u8]) -> (r: Result<Option<(i64, usize)>, Reason>)
    ensures
        match r {
            Ok(Some((n, h))) => decode_length(buf@) == Outcome::<int>::Complete(n as int, h as nat)
                && 3 <= h <= buf.len() && -1 <= n <= MAX_LEN,
            Ok(None) => decode_length(buf@) == Outcome::<int>::Incomplete,
            Err(reason) => decode_length(buf@) == Outcome::<int>::Malformed(1, reason),
        },
{
    match find_crlf(buf, 1) {
        None => Ok(None),
        Some(e) => match parse_decimal(buf, 1, e) {
            None => Err(Reason::BadLength),
            Some(n) => {
                if n < -1 {
                    Err(Reason::NegativeLength)
                } else if n > MAX_LEN as i64 {
                    Err(Reason::LengthTooLarge)
                } else {
                    Ok(Some((n, e + 2)))
                }
            },
        },
    }
}

/// Decodes the value at the front of `buf`, with arrays nested at most
/// `depth` deep.
pub fn parse_value(buf: &[u8], depth: usize) -> (r: Decoded)
    ensures
        r@ == decode_value(buf@, depth as nat),
        r.wf(),
    decreases depth,
{
    let len: usize = buf.len();
    if len == 0 {
        return Decoded::Incomplete;
    }
    let tag: u8 = buf[0];
    if tag == 43u8 || tag == 45u8 {
        match find_crlf(buf, 1) {
            None => Decoded::Incomplete,
            Some(e) => {
                let text: Vec<u8> = slice_to_vec(slice_subrange(buf, 1, e));
                if tag == 43u8 {
                    Decoded::Complete { value: DataType::SimpleString { content: text }, consumed: e + 2 }
                } else {
                    Decoded::Complete { value: DataType::RespError { message: text }, consumed: e + 2 }
                }
            },
        }
    } else if tag == 58u8 {
        match find_crlf(buf, 1) {
            None => Decoded::Incomplete,
            Some(e) => match parse_decimal(buf, 1, e) {
                None => Decoded::Malformed { offset: 1, reason: Reason::BadInteger },
                Some(v) => Decoded::Complete { value: DataType::Integer { value: v }, consumed: e + 2 },
            },
        }
    } else if tag == 36u8 {
        match parse_length(buf) {
            Err(reason) => Decoded::Malformed { offset: 1, reason },
            Ok(None) => Decoded::Incomplete,
            Ok(Some((n, h))) => {
                if n < 0 {
                    Decoded::Complete { value: DataType::NullString, consumed: h }
                } else {
                    let size: usize = n as usize;
                    if len - h < size + 2 {
                        Decoded::Incomplete
                    } else if buf[h + size] != 13u8 || buf[h + size + 1] != 10u8 {
                        Decoded::Malformed { offset: h + size, reason: Reason::MissingTerminator }
                    } else {
                        let content: Vec<u8> = slice_to_vec(slice_subrange(buf, h, h + size));
                        Decoded::Complete {
                            value: DataType::BulkString { len: size, content },
                            consumed: h + size + 2,
                        }
                    }
                }
            },
        }
    } else if tag == 42u8 {
        match parse_length(buf) {
            Err(reason) => Decoded::Malformed { offset: 1, reason },
            Ok(None) => Decoded::Incomplete,
            Ok(Some((n, h))) => {
                if n < 0 {
                    Decoded::Complete { value: DataType::NullArray, consumed: h }
                } else if depth == 0 {
                    Decoded::Malformed { offset: 0, reason: Reason::TooDeep }
                } else {
                    let count: usize = n as usize;
                    let rest: &[u8] = slice_subrange(buf, h, len);
                    proof {
                        assert(rest@ =~= buf@.skip(h as int));
                    }
                    let mut contents: Vec<DataType> = Vec::new();
                    let mut used: usize = 0;
                    let mut i: usize = 0;
                    proof {
                        assert(views(contents@) =~= Seq::<Value>::empty());
                    }
                    while i < count
                        invariant
                            depth > 0,
                            len == buf.len(),
                            len > 0,
                            buf@[0] == 42u8,
                            decode_length(buf@) == Outcome::<int>::Complete(n as int, h as nat),
                            count == n,
                            rest@ == buf@.skip(h as int),
                            i <= count,
                            used <= rest.len(),
                            h + rest.len() == len,
                            contents.len() == i,
                            decode_elems(rest@, i as nat, (depth - 1) as nat) == Outcome::Complete(
                                views(contents@),
                                used as nat,
                            ),
                            forall|j: int| 0 <= j < contents.len() ==> (#[trigger] contents[j]).wf(),
                        decreases count - i,
                    {
                        let tail: &[u8] = slice_subrange(rest, used, rest.len());
                        proof {
                            assert(tail@ =~= rest@.skip(used as int));
                            lemma_decode_bounds(tail@, (depth - 1) as nat);
                        }
                        match parse_value(tail, depth - 1) {
                            Decoded::Complete { value, consumed } => {
                                proof {
                                    assert(views(contents@.push(value)) =~= views(contents@).push(
                                        value@,
                                    ));
                                }
                                contents.push(value);
                                used = used + consumed;
                                i = i + 1;
                            },
                            Decoded::Incomplete => {
                                proof {
                                    lemma_elems_stuck(
                                        rest@,
                                        (i + 1) as nat,
                                        count as nat,
                                        (depth - 1) as nat,
                                    );
                                }
                                return Decoded::Incomplete;
                            },
                            Decoded::Malformed { offset, reason } => {
                                proof {
                                    lemma_elems_stuck(
                                        rest@,
                                        (i + 1) as nat,
                                        count as nat,
                                        (depth - 1) as nat,
                                    );
                                }
                                return Decoded::Malformed { offset: h + used + offset, reason };
                            },
                        }
                    }
                    let value = DataType::Array { len: count, contents };
                    proof {
                        assert(value@ == Value::Array(views(contents@))) by {
                            assert(value@->Array_0 =~= views(contents@));
                        }
                    }
                    Decoded::Complete { value, consumed: h + used }
                }
            },
        }
    } else if tag == 95u8 {
        if len >= 2 && buf[1] != 13u8 {
            Decoded::Malformed { offset: 1, reason: Reason::MissingTerminator }
        } else if len >= 3 && buf[2] != 10u8 {
            Decoded::Malformed { offset: 2, reason: Reason::MissingTerminator }
        } else if len < 3 {
            Decoded::Incomplete
        } else {
            Decoded::Complete { value: DataType::Null, consumed: 3 }
        }
    } else {
        Decoded::Malformed { offset: 0, reason: Reason::UnknownTag }
    }
}

impl DataType {
    /// Decodes one value from the front of `raw`.
    ///
    /// The result is `Complete` with the value and the number of bytes it
    /// occupied, `Incomplete` when `raw` ends before the value does, or
    /// `Malformed` with the offset and reason of the first violation. Bytes
    /// after the value are not looked at.
    pub fn parse_one(raw: &[u8]) -> (r: Decoded)
        ensures
            r@ == decode_value(raw@, MAX_DEPTH as nat),
            r.wf(),
            match r {
                Decoded::Complete { value, consumed } => 0 < consumed <= raw.len() && value@.wf(
                    MAX_DEPTH as nat,
                ),
                Decoded::Incomplete => true,
                Decoded::Malformed { offset, reason } => offset < raw.len(),
            },
    {
        proof {
            lemma_decode_bounds(raw@, MAX_DEPTH as nat);
        }
        parse_value(raw, MAX_DEPTH)
    }
}

} // verus!
