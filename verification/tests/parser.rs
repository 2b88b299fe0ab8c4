use resp_wire::decode::Decoded;
use resp_wire::value::DataType;

/// Decodes one value from the front of `raw` and returns it with the text
/// that follows it.
fn parse_one(raw: String) -> (DataType, String) {
    match DataType::parse_one(raw.as_bytes()) {
        Decoded::Complete { value, consumed } => {
            (value, String::from_utf8(raw.as_bytes()[consumed..].to_vec()).unwrap())
        }
        other => panic!("no complete value in {:?}: {:?}", raw, other),
    }
}

fn bytes(text: &str) -> Vec<u8> {
    text.as_bytes().to_vec()
}

#[test]
fn test_parse_string() {
    // Test simple string
    assert_eq!(
        parse_one("+ciao\r\n".to_string()),
        (
            DataType::SimpleString {
                content: bytes("ciao")
            },
            "".into()
        ),
        "Failed to parse simple string"
    );

    // Test simple string with remainder
    assert_eq!(
        parse_one("+ciao\r\n-hola\r\n".to_string()),
        (
            DataType::SimpleString {
                content: bytes("ciao")
            },
            "-hola\r\n".into()
        ),
        "Failed to parse simple string with remainder"
    );

    // Test empty simple string
    assert_eq!(
        parse_one("+\r\n".to_string()),
        (
            DataType::SimpleString {
                content: bytes("")
            },
            "".into()
        ),
        "Failed to parse empty simple string"
    );
}

#[test]
fn test_parse_err() {
    // Test simple error
    assert_eq!(
        parse_one("-ciao\r\n".to_string()),
        (
            DataType::RespError {
                message: bytes("ciao")
            },
            "".into()
        ),
        "Failed to parse simple error"
    );

    // Test simple error with remainder
    assert_eq!(
        parse_one("-ciao\r\n+pippo\r\n".to_string()),
        (
            DataType::RespError {
                message: bytes("ciao")
            },
            "+pippo\r\n".into()
        ),
        "Failed to parse simple error with remainder"
    );

    // Test error with spaces
    assert_eq!(
        parse_one("-ERR unknown command 'foobar'\r\n".to_string()),
        (
            DataType::RespError {
                message: bytes("ERR unknown command 'foobar'")
            },
            "".into()
        ),
        "Failed to parse error with spaces"
    );
}

#[test]
fn test_parse_int() {
    // Test positive integer
    assert_eq!(
        parse_one(":+12\r\n".to_string()),
        (DataType::Integer { value: 12 }, "".into()),
        "Failed to parse positive integer"
    );

    // Test negative integer
    assert_eq!(
        parse_one(":-12\r\n".to_string()),
        (DataType::Integer { value: -12 }, "".into()),
        "Failed to parse negative integer"
    );

    // Test zero
    assert_eq!(
        parse_one(":0\r\n".to_string()),
        (DataType::Integer { value: 0 }, "".into()),
        "Failed to parse zero integer"
    );

    // Test positive integer with remainder
    assert_eq!(
        parse_one(":+12\r\n+OK\r\n".to_string()),
        (DataType::Integer { value: 12 }, "+OK\r\n".into()),
        "Failed to parse positive integer with remainder"
    );

    // Test negative integer with remainder
    assert_eq!(
        parse_one(":-12\r\n+OK\r\n".to_string()),
        (DataType::Integer { value: -12 }, "+OK\r\n".into()),
        "Failed to parse negative integer with remainder"
    );

    // Test large number (i64 max)
    assert_eq!(
        parse_one(":9223372036854775807\r\n".to_string()),
        (
            DataType::Integer {
                value: 9223372036854775807
            },
            "".into()
        ),
        "Failed to parse i64 max value"
    );

    // Test large negative number (i64 min)
    assert_eq!(
        parse_one(":-9223372036854775808\r\n".to_string()),
        (
            DataType::Integer {
                value: -9223372036854775808
            },
            "".into()
        ),
        "Failed to parse i64 min value"
    );
}

#[test]
fn test_bulk_str() {
    // Test standard bulk string
    assert_eq!(
        parse_one("$4\r\nciao\r\n".to_string()),
        (
            DataType::BulkString {
                len: 4,
                content: bytes("ciao")
            },
            "".into()
        ),
        "Failed to parse standard bulk string"
    );

    // Test Null Bulk String
    assert_eq!(
        parse_one("$-1\r\n".to_string()),
        (DataType::NullString, "".into()),
        "Failed to parse null bulk string"
    );

    // Test standard bulk string with remainder
    assert_eq!(
        parse_one("$4\r\nciao\r\n+Ok\r\n".to_string()),
        (
            DataType::BulkString {
                len: 4,
                content: bytes("ciao")
            },
            "+Ok\r\n".into()
        ),
        "Failed to parse standard bulk string with remainder"
    );

    // Test Null Bulk String with remainder
    assert_eq!(
        parse_one("$-1\r\n+Ok\r\n".to_string()),
        (DataType::NullString, "+Ok\r\n".into()),
        "Failed to parse null bulk string with remainder"
    );

    // Test Empty Bulk String
    assert_eq!(
        parse_one("$0\r\n\r\n".to_string()),
        (
            DataType::BulkString {
                len: 0,
                content: bytes("")
            },
            "".into()
        ),
        "Failed to parse empty bulk string"
    );

    // Test bulk string containing \r\n
    assert_eq!(
        parse_one("$8\r\nfoo\r\nbar\r\n".to_string()),
        (
            DataType::BulkString {
                len: 8,
                content: bytes("foo\r\nbar")
            },
            "".into()
        ),
        "Failed to parse bulk string containing CRLF"
    );
}

#[test]
fn test_parse_null() {
    // Test RESP3 Null
    assert_eq!(
        parse_one("_\r\n".to_string()),
        (DataType::Null, "".into()),
        "Failed to parse RESP3 Null"
    );

    // Test RESP3 Null with remainder
    assert_eq!(
        parse_one("_\r\n:123\r\n".to_string()),
        (DataType::Null, ":123\r\n".into()),
        "Failed to parse RESP3 Null with remainder"
    );
}

#[test]
fn test_parse_array() {
    // Test Null Array
    assert_eq!(
        parse_one("*-1\r\n".to_string()),
        (DataType::NullArray, "".into()),
        "Failed to parse Null Array"
    );

    // Test Empty Array
    assert_eq!(
        parse_one("*0\r\n".to_string()),
        (
            DataType::Array {
                len: 0,
                contents: vec![]
            },
            "".into()
        ),
        "Failed to parse Empty Array"
    );

    // Test Null Array with remainder
    assert_eq!(
        parse_one("*-1\r\n+OK\r\n".to_string()),
        (DataType::NullArray, "+OK\r\n".into()),
        "Failed to parse Null Array with remainder"
    );

    // Test Array of two bulk strings
    let array_str = "*2\r\n$3\r\nfoo\r\n$3\r\nbar\r\n";
    let expected_data = DataType::Array {
        len: 2,
        contents: vec![
            DataType::BulkString {
                len: 3,
                content: bytes("foo"),
            },
            DataType::BulkString {
                len: 3,
                content: bytes("bar"),
            },
        ],
    };
    assert_eq!(
        parse_one(array_str.to_string()),
        (expected_data, "".into()),
        "Failed to parse array of two bulk strings"
    );

    // Test Array of mixed types with remainder
    let mixed_array_str = "*3\r\n:1\r\n+Hello\r\n-Error\r\n$4\r\nciao\r\n";
    let expected_mixed_data = DataType::Array {
        len: 3,
        contents: vec![
            DataType::Integer { value: 1 },
            DataType::SimpleString {
                content: bytes("Hello"),
            },
            DataType::RespError {
                message: bytes("Error"),
            },
        ],
    };
    assert_eq!(
        parse_one(mixed_array_str.to_string()),
        (expected_mixed_data, "$4\r\nciao\r\n".into()),
        "Failed to parse array of mixed types with remainder"
    );

    // Test Nested Array
    let nested_array_str = "*2\r\n*2\r\n+One\r\n:2\r\n$3\r\nend\r\n";
    let expected_nested_data = DataType::Array {
        len: 2,
        contents: vec![
            DataType::Array {
                len: 2,
                contents: vec![
                    DataType::SimpleString {
                        content: bytes("One"),
                    },
                    DataType::Integer { value: 2 },
                ],
            },
            DataType::BulkString {
                len: 3,
                content: bytes("end"),
            },
        ],
    };
    assert_eq!(
        parse_one(nested_array_str.to_string()),
        (expected_nested_data, "".into()),
        "Failed to parse nested array"
    );

    // Test array containing nulls
    let array_with_nulls = "*3\r\n$-1\r\n*-1\r\n_\r\n";
    let expected_nulls_data = DataType::Array {
        len: 3,
        contents: vec![DataType::NullString, DataType::NullArray, DataType::Null],
    };
    assert_eq!(
        parse_one(array_with_nulls.to_string()),
        (expected_nulls_data, "".into()),
        "Failed to parse array containing nulls"
    );
}
