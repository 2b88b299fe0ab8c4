//! The encoder: the one wire form of each value.

use vstd::prelude::*;
use crate::value::{crlf_at, no_crlf, views, DataType, Value, MAX_LEN};
use crate::scan::{
    decimal_text, decimal_value, first_crlf, is_digit, lemma_decimal_text, lemma_first_crlf_is,
    push_decimal, push_digits,
};
use crate::decode::{decode_elems, decode_length, decode_value, Outcome};

verus! {

/// The line terminator.
pub open spec fn crlf() -> Seq<u8> {
    seq![13u8, 10u8]
}

/// The wire form of `v`.
pub open spec fn encoding(v: Value) -> Seq<u8>
    decreases v, 0nat,
{
    match v {
        Value::SimpleString(t) => seq![43u8] + t + crlf(),
        Value::Error(t) => seq![45u8] + t + crlf(),
        Value::Integer(i) => seq![58u8] + decimal_text(i) + crlf(),
        Value::BulkString(b) => seq![36u8] + decimal_text(b.len() as int) + crlf() + b + crlf(),
        Value::NullString => seq![36u8] + decimal_text(-1) + crlf(),
        Value::Array(vs) => seq![42u8] + decimal_text(vs.len() as int) + crlf() + encoding_all(
            vs,
            vs.len(),
        ),
        Value::NullArray => seq![42u8] + decimal_text(-1) + crlf(),
        Value::Null => seq![95u8] + crlf(),
    }
}

/// The wire forms of the first `n` values of `vs`, one after another.
pub open spec fn encoding_all(vs: Seq<Value>, n: nat) -> Seq<u8>
    decreases vs, n,
{
    if n == 0 || n > vs.len() {
        Seq::empty()
    } else {
        encoding_all(vs, (n - 1) as nat) + encoding(vs[n - 1])
    }
}

/// Appends `bytes` to `out`.
pub fn push_bytes(out: &mut Vec<u8>, bytes: &[u8])
    ensures
        final(out)@ == old(out)@ + bytes@,
{
    let mut i: usize = 0;
    while i < bytes.len()
        invariant
            i <= bytes.len(),
            out@ == old(out)@ + bytes@.take(i as int),
        decreases bytes.len() - i,
    {
        out.push(bytes[i]);
        proof {
            assert(out@ =~= old(out)@ + bytes@.take(i + 1));
        }
        i = i + 1;
    }
    proof {
        assert(bytes@.take(i as int) =~= bytes@);
    }
}

impl DataType {
    /// The wire form of the value. Bulk payloads are written byte for byte
    /// under their real length.
    pub fn encode(&self) -> (out: Vec<u8>)
        ensures
            out@ == encoding(self@),
    {
        let mut out: Vec<u8> = Vec::new();
        self.encode_into(&mut out);
        proof {
            assert(out@ =~= encoding(self@));
        }
        out
    }

    /// Appends the wire form of the value to `out`.
    #[verifier::loop_isolation(false)]
    pub fn encode_into(&self, out: &mut Vec<u8>)
        ensures
            final(out)@ == old(out)@ + encoding(self@),
        decreases self,
    {
        match self {
            DataType::SimpleString { content } => {
                out.push(43u8);
                push_bytes(out, content.as_slice());
                out.push(13u8);
                out.push(10u8);
                proof {
                    assert(out@ =~= old(out)@ + (seq![43u8] + content@ + crlf()));
                }
            },
            DataType::RespError { message } => {
                out.push(45u8);
                push_bytes(out, message.as_slice());
                out.push(13u8);
                out.push(10u8);
                proof {
                    assert(out@ =~= old(out)@ + (seq![45u8] + message@ + crlf()));
                }
            },
            DataType::Integer { value } => {
                out.push(58u8);
                push_decimal(out, *value);
                out.push(13u8);
                out.push(10u8);
                proof {
                    assert(out@ =~= old(out)@ + (seq![58u8] + decimal_text(*value as int) + crlf()));
                }
            },
            DataType::BulkString { len, content } => {
                out.push(36u8);
                push_digits(out, content.len() as u64);
                out.push(13u8);
                out.push(10u8);
                push_bytes(out, content.as_slice());
                out.push(13u8);
                out.push(10u8);
                proof {
                    assert(out@ =~= old(out)@ + (seq![36u8] + decimal_text(content@.len() as int)
                        + crlf() + content@ + crlf()));
                }
            },
            DataType::NullString => {
                out.push(36u8);
                push_decimal(out, -1);
                out.push(13u8);
                out.push(10u8);
                proof {
                    assert(out@ =~= old(out)@ + (seq![36u8] + decimal_text(-1) + crlf()));
                }
            },
            DataType::Array { len, contents } => {
                out.push(42u8);
                push_digits(out, contents.len() as u64);
                out.push(13u8);
                out.push(10u8);
                let ghost vs = views(contents@);
                let ghost head = seq![42u8] + decimal_text(contents@.len() as int) + crlf();
                proof {
                    assert(out@ =~= old(out)@ + head + encoding_all(vs, 0));
                    assert(self@->Array_0 =~= vs);
                }
                let mut i: usize = 0;
                while i < contents.len()
                    invariant
                        i <= contents.len(),
                        vs == views(contents@),
                        *self == (DataType::Array { len: *len, contents: *contents }),
                        out@ == old(out)@ + head + encoding_all(vs, i as nat),
                    decreases contents.len() - i,
                {
                    proof {
                        vstd::std_specs::vec::axiom_vec_index_decreases(*contents, i as int);
                        assert(decreases_to!(*contents => contents[i as int]));
                    }
                    contents[i].encode_into(out);
                    proof {
                        assert(vs[i as int] == contents@[i as int]@);
                        assert(out@ =~= old(out)@ + head + encoding_all(vs, (i + 1) as nat));
                    }
                    i = i + 1;
                }
                proof {
                    assert(out@ =~= old(out)@ + (head + encoding_all(vs, vs.len())));
                }
            },
            DataType::NullArray => {
                out.push(42u8);
                push_decimal(out, -1);
                out.push(13u8);
                out.push(10u8);
                proof {
                    assert(out@ =~= old(out)@ + (seq![42u8] + decimal_text(-1) + crlf()));
                }
            },
            DataType::Null => {
                out.push(95u8);
                out.push(13u8);
                out.push(10u8);
                proof {
                    assert(out@ =~= old(out)@ + (seq![95u8] + crlf()));
                }
            },
        }
    }
}

/// In a tag, a line without CR LF, a CR LF and anything after, the first
/// CR LF is the one written after the line.
proof fn lemma_line_end(tag: u8, line: Seq<u8>, rest: Seq<u8>)
    requires
        no_crlf(line),
    ensures
        first_crlf(seq![tag] + line + crlf() + rest, 1) == Some(1 + line.len() as int),
        (seq![tag] + line + crlf() + rest).subrange(1, 1 + line.len() as int) == line,
{
    let s = seq![tag] + line + crlf() + rest;
    let e = 1 + line.len() as int;
    assert(s[e] == 13u8 && s[e + 1] == 10u8);
    assert forall|j: int| 1 <= j < e implies !crlf_at(s, j) by {
        if crlf_at(s, j) {
            assert(s[j] == line[j - 1]);
            if j + 1 < e {
                assert(s[j + 1] == line[j]);
                assert(crlf_at(line, j - 1));
            }
        }
    }
    lemma_first_crlf_is(s, 1, e);
    assert(s.subrange(1, e) =~= line);
}

/// A header that declares `n` decodes to `n` and its own size.
proof fn lemma_length_header(tag: u8, n: int, rest: Seq<u8>)
    requires
        -1 <= n <= MAX_LEN,
    ensures
        decode_length(seq![tag] + decimal_text(n) + crlf() + rest) == Outcome::Complete(
            n,
            (decimal_text(n).len() + 3) as nat,
        ),
{
    lemma_number_line(tag, n, rest);
}

/// The decimal text of a 64-bit integer, written as a line, is read back
/// as that integer.
proof fn lemma_number_line(tag: u8, n: int, rest: Seq<u8>)
    requires
        i64::MIN <= n <= i64::MAX,
    ensures
        first_crlf(seq![tag] + decimal_text(n) + crlf() + rest, 1) == Some(
            1 + decimal_text(n).len() as int,
        ),
        decimal_value(
            (seq![tag] + decimal_text(n) + crlf() + rest).subrange(
                1,
                1 + decimal_text(n).len() as int,
            ),
        ) == Some(n),
{
    let text = decimal_text(n);
    lemma_decimal_text(n);
    assert forall|i: int| !crlf_at(text, i) by {
        if crlf_at(text, i) {
            assert(is_digit(text[i]) || text[i] == 45u8);
        }
    }
    lemma_line_end(tag, text, rest);
}

/// Round trip: decoding the wire form of a well-formed value gives the
/// value back and consumes the whole wire form.
pub proof fn lemma_round_trip(v: Value, depth: nat)
    requires
        v.wf(depth),
    ensures
        decode_value(encoding(v), depth) == Outcome::Complete(v, encoding(v).len()),
{
    lemma_round_trip_followed(v, Seq::empty(), depth);
    assert(encoding(v) + Seq::<u8>::empty() =~= encoding(v));
}

/// Round trip in a stream: decoding the wire form of a well-formed value,
/// whatever bytes follow it, gives the value back and consumes exactly the
/// wire form.
pub proof fn lemma_round_trip_followed(v: Value, rest: Seq<u8>, depth: nat)
    requires
        v.wf(depth),
    ensures
        decode_value(encoding(v) + rest, depth) == Outcome::Complete(v, encoding(v).len()),
    decreases v, 0nat,
{
    let s = encoding(v) + rest;
    match v {
        Value::SimpleString(t) => {
            assert(s =~= seq![43u8] + t + crlf() + rest);
            lemma_line_end(43u8, t, rest);
        },
        Value::Error(t) => {
            assert(s =~= seq![45u8] + t + crlf() + rest);
            lemma_line_end(45u8, t, rest);
        },
        Value::Integer(i) => {
            assert(s =~= seq![58u8] + decimal_text(i) + crlf() + rest);
            lemma_number_line(58u8, i, rest);
        },
        Value::BulkString(b) => {
            let text = decimal_text(b.len() as int);
            assert(s =~= seq![36u8] + text + crlf() + (b + crlf() + rest));
            lemma_length_header(36u8, b.len() as int, b + crlf() + rest);
            let h = (text.len() + 3) as int;
            assert(s[h + b.len()] == 13u8 && s[h + b.len() + 1] == 10u8);
            assert(s.subrange(h, h + b.len()) =~= b);
        },
        Value::NullString => {
            assert(s =~= seq![36u8] + decimal_text(-1) + crlf() + rest);
            lemma_length_header(36u8, -1, rest);
        },
        Value::Array(vs) => {
            let text = decimal_text(vs.len() as int);
            let body = encoding_all(vs, vs.len());
            assert(s =~= seq![42u8] + text + crlf() + (body + rest));
            lemma_length_header(42u8, vs.len() as int, body + rest);
            let h = (text.len() + 3) as int;
            assert(s.skip(h) =~= body + rest);
            lemma_round_trip_all(vs, vs.len(), rest, (depth - 1) as nat);
            assert(vs.take(vs.len() as int) =~= vs);
        },
        Value::NullArray => {
            assert(s =~= seq![42u8] + decimal_text(-1) + crlf() + rest);
            lemma_length_header(42u8, -1, rest);
        },
        Value::Null => {
            assert(s =~= seq![95u8, 13u8, 10u8] + rest);
        },
    }
}

/// Decoding `n` elements from the wire forms of the first `n` of `vs`,
/// whatever follows them, gives those values back.
pub proof fn lemma_round_trip_all(vs: Seq<Value>, n: nat, rest: Seq<u8>, depth: nat)
    requires
        n <= vs.len(),
        forall|i: int| 0 <= i < n ==> (#[trigger] vs[i]).wf(depth),
    ensures
        decode_elems(encoding_all(vs, n) + rest, n, depth) == Outcome::Complete(
            vs.take(n as int),
            encoding_all(vs, n).len(),
        ),
    decreases vs, n,
{
    let s = encoding_all(vs, n) + rest;
    if n == 0 {
        assert(vs.take(0) =~= Seq::<Value>::empty());
    } else {
        let front = encoding_all(vs, (n - 1) as nat);
        let last = vs[n - 1];
        assert(s =~= front + (encoding(last) + rest));
        lemma_round_trip_all(vs, (n - 1) as nat, encoding(last) + rest, depth);
        assert(s.skip(front.len() as int) =~= encoding(last) + rest);
        lemma_round_trip_followed(last, rest, depth);
        assert(vs.take(n - 1).push(last) =~= vs.take(n as int));
    }
}

} // verus!
