//! Protocol values: the executable tree and its mathematical model.

use vstd::prelude::*;

verus! {

/// Largest bulk-string length and largest array count that the wire format
/// is allowed to declare.
pub const MAX_LEN: usize = 536870912;

/// Deepest nesting of arrays that is accepted: a scalar has depth zero, an
/// array one more than its deepest element.
pub const MAX_DEPTH: usize = 32;

/// The mathematical model of a protocol value.
#[verifier::ext_equal]
pub enum Value {
    SimpleString(Seq<u8>),
    Error(Seq<u8>),
    Integer(int),
    BulkString(Seq<u8>),
    NullString,
    Array(Seq<Value>),
    NullArray,
    Null,
}

/// Whether the two bytes at `i` and `i + 1` of `s` are CR LF.
pub open spec fn crlf_at(s: Seq<u8>, i: int) -> bool {
    0 <= i && i + 1 < s.len() && s[i] == 13u8 && s[i + 1] == 10u8
}

/// Whether `s` holds no CR LF pair.
pub open spec fn no_crlf(s: Seq<u8>) -> bool {
    forall|i: int| !crlf_at(s, i)
}

impl Value {
    /// Whether the value is well-formed within `depth` levels of array
    /// nesting: line texts hold no CR LF pair, integers fit 64 signed bits,
    /// lengths and counts stay within `MAX_LEN`. These are the values that
    /// the decoder produces and that survive a trip over the wire.
    pub open spec fn wf(self, depth: nat) -> bool
        decreases self,
    {
        match self {
            Value::SimpleString(t) => no_crlf(t),
            Value::Error(t) => no_crlf(t),
            Value::Integer(i) => i64::MIN <= i <= i64::MAX,
            Value::BulkString(b) => b.len() <= MAX_LEN,
            Value::Array(vs) => {
                &&& depth > 0
                &&& vs.len() <= MAX_LEN
                &&& forall|i: int| 0 <= i < vs.len() ==> (#[trigger] vs[i]).wf((depth - 1) as nat)
            },
            _ => true,
        }
    }
}

/// A protocol value as the decoder builds it and the encoder reads it.
#[derive(Debug, PartialEq, Eq)]
pub enum DataType {
    SimpleString { content: Vec<u8> },
    RespError { message: Vec<u8> },
    Integer { value: i64 },
    BulkString { len: usize, content: Vec<u8> },
    NullString,
    Array { len: usize, contents: Vec<DataType> },
    NullArray,
    Null,
}

impl DataType {
    /// The value that this tree stands for.
    pub open spec fn view(&self) -> Value
        decreases self,
    {
        match self {
            DataType::SimpleString { content } => Value::SimpleString(content@),
            DataType::RespError { message } => Value::Error(message@),
            DataType::Integer { value } => Value::Integer(*value as int),
            DataType::BulkString { len, content } => Value::BulkString(content@),
            DataType::NullString => Value::NullString,
            DataType::Array { len, contents } => Value::Array(
                Seq::new(
                    contents.len() as nat,
                    |i: int|
                        if 0 <= i < contents.len() {
                            contents[i].view()
                        } else {
                            Value::Null
                        },
                ),
            ),
            DataType::NullArray => Value::NullArray,
            DataType::Null => Value::Null,
        }
    }

    /// The stored lengths are the real ones, at every level.
    pub open spec fn wf(&self) -> bool
        decreases self,
    {
        match self {
            DataType::BulkString { len, content } => *len == content.len(),
            DataType::Array { len, contents } => {
                &&& *len == contents.len()
                &&& forall|i: int| 0 <= i < contents.len() ==> (#[trigger] contents[i]).wf()
            },
            _ => true,
        }
    }
}

/// The models of a sequence of trees, in order.
pub open spec fn views(items: Seq<DataType>) -> Seq<Value> {
    Seq::new(items.len(), |i: int| items[i].view())
}

} // verus!
