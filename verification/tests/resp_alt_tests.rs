use coral_redis::frame::RespValue;
use coral_redis::resp::RespParser;

#[test]
fn resp_test_simple_string_serialization() {
    let value = RespValue::SimpleString(b"OK".to_vec());
    assert_eq!(value.to_bytes(), b"+OK\r\n");
}

#[test]
fn resp_test_error_serialization() {
    let value = RespValue::Error(b"ERROR message".to_vec());
    assert_eq!(value.to_bytes(), b"-ERROR message\r\n");
}

#[test]
fn resp_test_integer_serialization() {
    let value = RespValue::Integer(42);
    assert_eq!(value.to_bytes(), b":42\r\n");
}

#[test]
fn resp_test_bulk_string_serialization() {
    let value = RespValue::BulkString(Some(b"hello".to_vec()));
    assert_eq!(value.to_bytes(), b"$5\r\nhello\r\n");
}

#[test]
fn resp_test_null_bulk_string_serialization() {
    let value = RespValue::BulkString(None);
    assert_eq!(value.to_bytes(), b"$-1\r\n");
}

#[test]
fn resp_test_array_serialization() {
    let value = RespValue::Array(Some(vec![
        RespValue::SimpleString(b"OK".to_vec()),
        RespValue::Integer(42),
    ]));
    assert_eq!(value.to_bytes(), b"*2\r\n+OK\r\n:42\r\n");
}

#[test]
fn resp_test_simple_string_parsing() {
    let mut parser = RespParser::new();
    parser.add_data(b"+OK\r\n");

    let result = parser.parse().unwrap().unwrap();
    match result {
        RespValue::SimpleString(s) => assert_eq!(s, b"OK"),
        _ => panic!("Expected SimpleString"),
    }
}

#[test]
fn resp_test_integer_parsing() {
    let mut parser = RespParser::new();
    parser.add_data(b":42\r\n");

    let result = parser.parse().unwrap().unwrap();
    match result {
        RespValue::Integer(i) => assert_eq!(i, 42),
        _ => panic!("Expected Integer"),
    }
}

#[test]
fn resp_test_bulk_string_parsing() {
    let mut parser = RespParser::new();
    parser.add_data(b"$5\r\nhello\r\n");

    let result = parser.parse().unwrap().unwrap();
    match result {
        RespValue::BulkString(Some(s)) => assert_eq!(s, b"hello"),
        _ => panic!("Expected BulkString"),
    }
}

#[test]
fn resp_test_null_bulk_string_parsing() {
    let mut parser = RespParser::new();
    parser.add_data(b"$-1\r\n");

    let result = parser.parse().unwrap().unwrap();
    match result {
        RespValue::BulkString(None) => {}
        _ => panic!("Expected null BulkString"),
    }
}

#[test]
fn resp_test_array_parsing() {
    let mut parser = RespParser::new();
    parser.add_data(b"*2\r\n+OK\r\n:42\r\n");

    let result = parser.parse().unwrap().unwrap();
    match result {
        RespValue::Array(Some(arr)) => {
            assert_eq!(arr.len(), 2);
            match &arr[0] {
                RespValue::SimpleString(s) => assert_eq!(s, b"OK"),
                _ => panic!("Expected SimpleString"),
            }
            match &arr[1] {
                RespValue::Integer(i) => assert_eq!(*i, 42),
                _ => panic!("Expected Integer"),
            }
        }
        _ => panic!("Expected Array"),
    }
}

#[test]
fn resp_test_incomplete_data() {
    let mut parser = RespParser::new();
    parser.add_data(b"+OK");

    let result = parser.parse().unwrap();
    assert!(result.is_none());
}

#[test]
fn resp_test_invalid_type() {
    // with auto-detection, unknown first bytes become inline commands, so
    // a malformed RESP structure is needed: a negative bulk length
    let mut parser = RespParser::new();
    parser.add_data(b"$-5\r\n");

    let result = parser.parse();
    assert!(result.is_err());
}

#[test]
fn resp_test_multiple_commands() {
    let mut parser = RespParser::new();
    parser.add_data(b"+OK\r\n:42\r\n");

    let first = parser.parse().unwrap().unwrap();
    let second = parser.parse().unwrap().unwrap();

    match first {
        RespValue::SimpleString(s) => assert_eq!(s, b"OK"),
        _ => panic!("Expected SimpleString"),
    }

    match second {
        RespValue::Integer(i) => assert_eq!(i, 42),
        _ => panic!("Expected Integer"),
    }
}
