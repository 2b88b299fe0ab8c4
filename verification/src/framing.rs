//! Framing: from the chunks that a transport delivers to whole values.

use vstd::prelude::*;
use vstd::slice::slice_subrange;
use crate::value::{views, DataType, Value, MAX_DEPTH};
use crate::decode::{
    decode_value, lemma_decode_bounds, lemma_decode_extend, Decoded, Outcome, Reason,
};
use crate::encode::{encoding, encoding_all, lemma_round_trip, push_bytes};

verus! {

/// A violation of the wire format: its offset from the start of the value
/// that holds it, and what is wrong there.
#[derive(Clone, Copy, Debug, PartialEq, Eq)]
pub struct DecodeError {
    pub offset: usize,
    pub reason: Reason,
}

/// What decoding a byte sequence from its front, value after value, comes
/// to: the values in order, the bytes that are left, and the violation at
/// the front of those bytes if there is one.
#[verifier::ext_equal]
pub struct Drained {
    pub values: Seq<Value>,
    pub rest: Seq<u8>,
    pub error: Option<(nat, Reason)>,
}

/// Decodes values from the front of `s` until the bytes left are the
/// beginning of an unfinished value, or of no value.
pub open spec fn drain(s: Seq<u8>) -> Drained
    decreases s.len(),
{
    match decode_value(s, MAX_DEPTH as nat) {
        Outcome::Complete(v, k) => if 0 < k <= s.len() {
            let d = drain(s.skip(k as int));
            Drained { values: seq![v] + d.values, rest: d.rest, error: d.error }
        } else {
            Drained { values: Seq::empty(), rest: s, error: None }
        },
        Outcome::Incomplete => Drained { values: Seq::empty(), rest: s, error: None },
        Outcome::Malformed(o, r) => Drained { values: Seq::empty(), rest: s, error: Some((o, r)) },
    }
}

/// The state of one connection's framer: the bytes received and not yet
/// consumed, and the violation that closed the stream, if one did.
#[verifier::ext_equal]
pub struct FramerState {
    pub pending: Seq<u8>,
    pub failed: Option<(nat, Reason)>,
}

/// One transport read: the state after `chunk` has arrived, and the values
/// that it completed. A closed framer stays as it is.
pub open spec fn feed_step(st: FramerState, chunk: Seq<u8>) -> (FramerState, Seq<Value>) {
    if st.failed is Some {
        (st, Seq::empty())
    } else {
        let d = drain(st.pending + chunk);
        (FramerState { pending: d.rest, failed: d.error }, d.values)
    }
}

/// The state after a fresh framer was fed `chunks` in order, and all the
/// values that came out, in order.
pub open spec fn feed_chunks(chunks: Seq<Seq<u8>>) -> (FramerState, Seq<Value>)
    decreases chunks.len(),
{
    if chunks.len() == 0 {
        (FramerState { pending: Seq::empty(), failed: None }, Seq::empty())
    } else {
        let before = feed_chunks(chunks.drop_last());
        let step = feed_step(before.0, chunks.last());
        (step.0, before.1 + step.1)
    }
}

/// The chunks joined into one stream.
pub open spec fn joined(chunks: Seq<Seq<u8>>) -> Seq<u8>
    decreases chunks.len(),
{
    if chunks.len() == 0 {
        Seq::empty()
    } else {
        joined(chunks.drop_last()) + chunks.last()
    }
}

/// Draining `a` and then what is left of it together with `b` gives what
/// draining `a + b` in one pass gives; a violation found in `a` is found
/// at the same place in `a + b`, after the same values.
pub proof fn lemma_drain_append(a: Seq<u8>, b: Seq<u8>)
    ensures
        drain(a).error is None ==> drain(a + b) == (Drained {
            values: drain(a).values + drain(drain(a).rest + b).values,
            rest: drain(drain(a).rest + b).rest,
            error: drain(drain(a).rest + b).error,
        }),
        drain(a).error is Some ==> drain(a + b) == (Drained {
            values: drain(a).values,
            rest: drain(a).rest + b,
            error: drain(a).error,
        }),
    decreases a.len(),
{
    let depth = MAX_DEPTH as nat;
    lemma_decode_bounds(a, depth);
    match decode_value(a, depth) {
        Outcome::Complete(v, k) => {
            lemma_decode_extend(a, b, depth);
            let tail = a.skip(k as int);
            assert((a + b).skip(k as int) =~= tail + b);
            lemma_drain_append(tail, b);
            let d1 = drain(tail);
            if d1.error is None {
                let d2 = drain(d1.rest + b);
                assert(seq![v] + (d1.values + d2.values) =~= (seq![v] + d1.values) + d2.values);
            }
        },
        Outcome::Incomplete => {
            assert(Seq::<Value>::empty() + drain(a + b).values =~= drain(a + b).values);
        },
        Outcome::Malformed(o, r) => {
            lemma_decode_extend(a, b, depth);
        },
    }
}

/// However a byte stream is cut into chunks, a framer that is fed the
/// chunks in order hands out the values that decoding the whole stream in
/// one pass gives, ends with the same violation or none, and, where there
/// is none, holds the same unconsumed bytes.
pub proof fn lemma_chunk_invariance(chunks: Seq<Seq<u8>>)
    ensures
        feed_chunks(chunks).1 == drain(joined(chunks)).values,
        feed_chunks(chunks).0.failed == drain(joined(chunks)).error,
        feed_chunks(chunks).0.failed is None ==> feed_chunks(chunks).0.pending == drain(
            joined(chunks),
        ).rest,
    decreases chunks.len(),
{
    if chunks.len() == 0 {
        assert(joined(chunks).len() == 0);
    } else {
        lemma_chunk_invariance(chunks.drop_last());
        lemma_drain_append(joined(chunks.drop_last()), chunks.last());
        let before = feed_chunks(chunks.drop_last());
        if before.0.failed is Some {
            assert(before.1 + Seq::<Value>::empty() =~= before.1);
        }
    }
}

/// A stream made of the wire forms of well-formed values, and nothing
/// else, drains to exactly those values, with no byte left and no
/// violation.
pub proof fn lemma_drain_encodings(vs: Seq<Value>, n: nat)
    requires
        n <= vs.len(),
        forall|i: int| 0 <= i < n ==> (#[trigger] vs[i]).wf(MAX_DEPTH as nat),
    ensures
        drain(encoding_all(vs, n)) == (Drained {
            values: vs.take(n as int),
            rest: Seq::empty(),
            error: None,
        }),
    decreases n,
{
    let depth = MAX_DEPTH as nat;
    if n == 0 {
        assert(vs.take(0) =~= Seq::<Value>::empty());
    } else {
        let front = encoding_all(vs, (n - 1) as nat);
        let last = vs[n - 1];
        let wire = encoding(last);
        lemma_drain_encodings(vs, (n - 1) as nat);
        lemma_drain_append(front, wire);
        assert(Seq::<u8>::empty() + wire =~= wire);
        lemma_round_trip(last, depth);
        lemma_decode_bounds(wire, depth);
        assert(wire.skip(wire.len() as int) =~= Seq::<u8>::empty());
        assert(drain(Seq::<u8>::empty()).values =~= Seq::<Value>::empty());
        assert(seq![last] + Seq::<Value>::empty() =~= seq![last]);
        assert(drain(wire) =~= (Drained { values: seq![last], rest: Seq::empty(), error: None }));
        assert(vs.take(n - 1) + seq![last] =~= vs.take(n as int));
    }
}

/// What one call of `feed` hands back: the values that the chunk
/// completed, in order, and the violation that closed the stream, if any.
#[derive(Debug, PartialEq, Eq)]
pub struct Fed {
    pub values: Vec<DataType>,
    pub error: Option<DecodeError>,
}

/// The receive buffer of one connection.
pub struct Framer {
    buf: Vec<u8>,
    failed: Option<DecodeError>,
}

/// The model of an optional violation.
pub open spec fn error_model(e: Option<DecodeError>) -> Option<(nat, Reason)> {
    match e {
        Some(err) => Some((err.offset as nat, err.reason)),
        None => None,
    }
}

impl Framer {
    /// The unconsumed bytes and the violation that closed the stream.
    pub closed spec fn view(&self) -> FramerState {
        FramerState { pending: self.buf@, failed: error_model(self.failed) }
    }

    /// A framer with nothing received.
    pub fn new() -> (r: Framer)
        ensures
            r@ == (FramerState { pending: Seq::empty(), failed: None }),
    {
        let r = Framer { buf: Vec::new(), failed: None };
        proof {
            assert(r@ =~= (FramerState { pending: Seq::empty(), failed: None }));
        }
        r
    }

    /// Takes one chunk from the transport: appends it to the unconsumed
    /// bytes, decodes every value that is now complete, and keeps what is
    /// left for the next chunk. After a violation the framer is closed: it
    /// keeps its state and reports the violation again.
    pub fn feed(&mut self, chunk: &[u8]) -> (r: Fed)
        ensures
            (final(self)@, views(r.values@)) == feed_step(old(self)@, chunk@),
            error_model(r.error) == final(self)@.failed,
            forall|j: int| 0 <= j < r.values.len() ==> (#[trigger] r.values[j]).wf(),
    {
        let mut values: Vec<DataType> = Vec::new();
        proof {
            assert(views(values@) =~= Seq::<Value>::empty());
        }
        if self.failed.is_some() {
            return Fed { values, error: self.failed };
        }
        push_bytes(&mut self.buf, chunk);
        let ghost full = self.buf@;
        let mut pos: usize = 0;
        let mut done: bool = false;
        proof {
            assert(full.skip(0) =~= full);
            assert(views(values@) + drain(full).values =~= drain(full).values);
        }
        while !done
            invariant
                pos <= self.buf.len(),
                self.buf@ == full,
                !done ==> self.failed is None,
                drain(full).values == views(values@) + drain(full.skip(pos as int)).values,
                drain(full).rest == drain(full.skip(pos as int)).rest,
                drain(full).error == drain(full.skip(pos as int)).error,
                done ==> drain(full.skip(pos as int)) == (Drained {
                    values: Seq::empty(),
                    rest: full.skip(pos as int),
                    error: error_model(self.failed),
                }),
                forall|j: int| 0 <= j < values.len() ==> (#[trigger] values[j]).wf(),
            decreases
                    if done {
                        0
                    } else {
                        self.buf.len() - pos + 1
                    },
        {
            let tail: &[u8] = slice_subrange(self.buf.as_slice(), pos, self.buf.len());
            proof {
                assert(tail@ =~= full.skip(pos as int));
            }
            match DataType::parse_one(tail) {
                Decoded::Complete { value, consumed } => {
                    proof {
                        assert(views(values@.push(value)) =~= views(values@).push(value@));
                        assert(full.skip(pos as int).skip(consumed as int) =~= full.skip(
                            pos + consumed,
                        ));
                        let d = drain(full.skip(pos + consumed));
                        assert(views(values@) + (seq![value@] + d.values) =~= views(values@).push(
                            value@,
                        ) + d.values);
                    }
                    values.push(value);
                    pos = pos + consumed;
                },
                Decoded::Incomplete => {
                    done = true;
                },
                Decoded::Malformed { offset, reason } => {
                    self.failed = Some(DecodeError { offset, reason });
                    done = true;
                },
            }
        }
        let rest: Vec<u8> = self.buf.split_off(pos);
        self.buf = rest;
        proof {
            assert(self.buf@ =~= full.skip(pos as int));
            assert(views(values@) + Seq::<Value>::empty() =~= views(values@));
            assert(self@ =~= feed_step(old(self)@, chunk@).0);
        }
        Fed { values, error: self.failed }
    }
}

} // verus!
