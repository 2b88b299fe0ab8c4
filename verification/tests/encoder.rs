use resp_wire::decode::Decoded;
use resp_wire::encode::push_bytes;
use resp_wire::scan::{push_decimal, push_digits};
use resp_wire::value::DataType;

fn simple(text: &str) -> DataType {
    DataType::SimpleString { content: text.as_bytes().to_vec() }
}

fn error(text: &str) -> DataType {
    DataType::RespError { message: text.as_bytes().to_vec() }
}

fn bulk(payload: &[u8]) -> DataType {
    DataType::BulkString { len: payload.len(), content: payload.to_vec() }
}

fn array(contents: Vec<DataType>) -> DataType {
    DataType::Array { len: contents.len(), contents }
}

fn sample() -> Vec<DataType> {
    vec![
        simple("OK"),
        simple(""),
        error("ERR unknown command 'foobar'"),
        DataType::Integer { value: 0 },
        DataType::Integer { value: 12 },
        DataType::Integer { value: -12 },
        DataType::Integer { value: i64::MAX },
        DataType::Integer { value: i64::MIN },
        bulk("ciao".as_bytes()),
        bulk(&[]),
        bulk("foo\r\nbar".as_bytes()),
        bulk(&[0, 255, 13, 10, 13, 10, 128]),
        DataType::NullString,
        DataType::NullArray,
        DataType::Null,
        array(vec![]),
        array(vec![bulk("foo".as_bytes()), bulk("bar".as_bytes())]),
        array(vec![
            array(vec![simple("One"), DataType::Integer { value: 2 }]),
            bulk("end".as_bytes()),
            DataType::NullString,
            DataType::NullArray,
            DataType::Null,
            array(vec![array(vec![array(vec![])])]),
        ]),
    ]
}

#[test]
fn each_variant_has_its_wire_form() {
    assert_eq!(simple("OK").encode(), "+OK\r\n".as_bytes());
    assert_eq!(error("ERR x").encode(), "-ERR x\r\n".as_bytes());
    assert_eq!(DataType::Integer { value: 0 }.encode(), ":0\r\n".as_bytes());
    assert_eq!(DataType::Integer { value: 1234567890 }.encode(), ":1234567890\r\n".as_bytes());
    assert_eq!(DataType::Integer { value: -12 }.encode(), ":-12\r\n".as_bytes());
    assert_eq!(
        DataType::Integer { value: i64::MIN }.encode(),
        ":-9223372036854775808\r\n".as_bytes()
    );
    assert_eq!(
        DataType::Integer { value: i64::MAX }.encode(),
        ":9223372036854775807\r\n".as_bytes()
    );
    assert_eq!(bulk("ciao".as_bytes()).encode(), "$4\r\nciao\r\n".as_bytes());
    assert_eq!(bulk(&[]).encode(), "$0\r\n\r\n".as_bytes());
    assert_eq!(bulk("a\r\nb".as_bytes()).encode(), "$4\r\na\r\nb\r\n".as_bytes());
    assert_eq!(bulk("0123456789".as_bytes()).encode(), "$10\r\n0123456789\r\n".as_bytes());
    assert_eq!(DataType::NullString.encode(), "$-1\r\n".as_bytes());
    assert_eq!(DataType::NullArray.encode(), "*-1\r\n".as_bytes());
    assert_eq!(DataType::Null.encode(), "_\r\n".as_bytes());
    assert_eq!(array(vec![]).encode(), "*0\r\n".as_bytes());
    assert_eq!(
        array(vec![bulk("foo".as_bytes()), DataType::Integer { value: 7 }, array(vec![simple("x")])])
            .encode(),
        "*3\r\n$3\r\nfoo\r\n:7\r\n*1\r\n+x\r\n".as_bytes()
    );
}

#[test]
fn the_real_length_is_written() {
    let odd = DataType::BulkString { len: 99, content: "abc".as_bytes().to_vec() };
    assert_eq!(odd.encode(), "$3\r\nabc\r\n".as_bytes());
    let odd = DataType::Array { len: 0, contents: vec![DataType::Null] };
    assert_eq!(odd.encode(), "*1\r\n_\r\n".as_bytes());
}

#[test]
fn encode_into_appends() {
    let mut out: Vec<u8> = "+A\r\n".as_bytes().to_vec();
    DataType::Integer { value: 5 }.encode_into(&mut out);
    assert_eq!(out, "+A\r\n:5\r\n".as_bytes());
}

#[test]
fn decoding_an_encoding_gives_the_value_back() {
    for value in sample() {
        let wire = value.encode();
        match DataType::parse_one(&wire) {
            Decoded::Complete { value: back, consumed } => {
                assert_eq!(back, value);
                assert_eq!(consumed, wire.len());
            }
            other => panic!("{:?}", other),
        }
    }
}

#[test]
fn decoding_an_encoding_ignores_what_follows() {
    for value in sample() {
        let mut wire = value.encode();
        let size = wire.len();
        wire.extend_from_slice("\r\n$5\r\n".as_bytes());
        match DataType::parse_one(&wire) {
            Decoded::Complete { value: back, consumed } => {
                assert_eq!(back, value);
                assert_eq!(consumed, size);
            }
            other => panic!("{:?}", other),
        }
    }
}

#[test]
fn a_thirty_two_deep_array_round_trips_and_a_deeper_one_does_not() {
    let mut value = DataType::Integer { value: 1 };
    for _ in 0..32 {
        value = array(vec![value]);
    }
    let wire = value.encode();
    assert_eq!(DataType::parse_one(&wire), Decoded::Complete { value, consumed: wire.len() });
    let mut value = DataType::Integer { value: 1 };
    for _ in 0..33 {
        value = array(vec![value]);
    }
    let wire = value.encode();
    assert!(matches!(DataType::parse_one(&wire), Decoded::Malformed { .. }));
}

#[test]
fn digits_and_decimals_are_appended() {
    let mut out: Vec<u8> = vec![120];
    push_digits(&mut out, 0);
    push_digits(&mut out, 907);
    push_digits(&mut out, u64::MAX);
    assert_eq!(out, "x090718446744073709551615".as_bytes());
    let mut out: Vec<u8> = Vec::new();
    push_decimal(&mut out, -1);
    push_decimal(&mut out, 10);
    push_decimal(&mut out, i64::MIN);
    assert_eq!(out, "-110-9223372036854775808".as_bytes());
    let mut out: Vec<u8> = vec![1];
    push_bytes(&mut out, &[2, 3]);
    push_bytes(&mut out, &[]);
    assert_eq!(out, vec![1, 2, 3]);
}
