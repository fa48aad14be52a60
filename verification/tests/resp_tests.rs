use coral_redis::frame::RespValue;
use coral_redis::resp::RespParser;

#[test]
fn test_simple_string_serialization() {
    let value = RespValue::SimpleString(b"OK".to_vec());
    assert_eq!(value.to_bytes(), b"+OK\r\n");
}

#[test]
fn test_error_serialization() {
    let value = RespValue::Error(b"ERROR message".to_vec());
    assert_eq!(value.to_bytes(), b"-ERROR message\r\n");
}

#[test]
fn test_integer_serialization() {
    let value = RespValue::Integer(42);
    assert_eq!(value.to_bytes(), b":42\r\n");
}

#[test]
fn test_bulk_string_serialization() {
    let value = RespValue::BulkString(Some(b"hello".to_vec()));
    assert_eq!(value.to_bytes(), b"$5\r\nhello\r\n");
}

#[test]
fn test_null_bulk_string_serialization() {
    let value = RespValue::BulkString(None);
    assert_eq!(value.to_bytes(), b"$-1\r\n");
}

#[test]
fn test_array_serialization() {
    let value = RespValue::Array(Some(vec![
        RespValue::SimpleString(b"OK".to_vec()),
        RespValue::Integer(42),
    ]));
    assert_eq!(value.to_bytes(), b"*2\r\n+OK\r\n:42\r\n");
}

#[test]
fn test_simple_string_parsing() {
    let mut parser = RespParser::new();
    parser.add_data(b"+OK\r\n");

    let result = parser.parse().unwrap().unwrap();
    match result {
        RespValue::SimpleString(s) => assert_eq!(s, b"OK"),
        _ => panic!("Expected SimpleString"),
    }
}

#[test]
fn test_integer_parsing() {
    let mut parser = RespParser::new();
    parser.add_data(b":42\r\n");

    let result = parser.parse().unwrap().unwrap();
    match result {
        RespValue::Integer(i) => assert_eq!(i, 42),
        _ => panic!("Expected Integer"),
    }
}

#[test]
fn test_bulk_string_parsing() {
    let mut parser = RespParser::new();
    parser.add_data(b"$5\r\nhello\r\n");

    let result = parser.parse().unwrap().unwrap();
    match result {
        RespValue::BulkString(Some(s)) => assert_eq!(s, b"hello"),
        _ => panic!("Expected BulkString"),
    }
}

#[test]
fn test_null_bulk_string_parsing() {
    let mut parser = RespParser::new();
    parser.add_data(b"$-1\r\n");

    let result = parser.parse().unwrap().unwrap();
    match result {
        RespValue::BulkString(None) => {}
        _ => panic!("Expected null BulkString"),
    }
}

#[test]
fn test_array_parsing() {
    let mut parser = RespParser::new();
    parser.add_data(b"*2\r\n+OK\r\n:42\r\n");

    let result = parser.parse().unwrap().unwrap();
    match result {
        RespValue::Array(Some(arr)) => {
            assert_eq!(arr.len(), 2);
            match &arr[0] {
                RespValue::SimpleString(s) => assert_eq!(s, b"OK"),
                _ => panic!("Expected SimpleString"),
            }
            match &arr[1] {
                RespValue::Integer(i) => assert_eq!(*i, 42),
                _ => panic!("Expected Integer"),
            }
        }
        _ => panic!("Expected Array"),
    }
}

#[test]
fn test_incomplete_data() {
    let mut parser = RespParser::new();
    parser.add_data(b"+OK");

    let result = parser.parse().unwrap();
    assert!(result.is_none());
}

#[test]
fn test_invalid_type() {
    // with auto-detection, unknown first bytes become inline commands, so
    // a malformed RESP structure is needed: a negative bulk length
    let mut parser = RespParser::new();
    parser.add_data(b"$-5\r\n");

    let result = parser.parse();
    assert!(result.is_err());
}

#[test]
fn test_multiple_commands() {
    let mut parser = RespParser::new();
    parser.add_data(b"+OK\r\n:42\r\n");

    let first = parser.parse().unwrap().unwrap();
    let second = parser.parse().unwrap().unwrap();

    match first {
        RespValue::SimpleString(s) => assert_eq!(s, b"OK"),
        _ => panic!("Expected SimpleString"),
    }

    match second {
        RespValue::Integer(i) => assert_eq!(i, 42),
        _ => panic!("Expected Integer"),
    }
}

#[test]
fn test_null_serialization() {
    let value = RespValue::Null;
    assert_eq!(value.to_bytes(), b"_\r\n");
}

#[test]
fn test_boolean_serialization() {
    let value_true = RespValue::Boolean(true);
    assert_eq!(value_true.to_bytes(), b"#t\r\n");

    let value_false = RespValue::Boolean(false);
    assert_eq!(value_false.to_bytes(), b"#f\r\n");
}

#[test]
fn test_double_serialization() {
    let value = RespValue::Double(b"3.14".to_vec());
    assert_eq!(value.to_bytes(), b",3.14\r\n");

    let value_neg = RespValue::Double(b"-2.5".to_vec());
    assert_eq!(value_neg.to_bytes(), b",-2.5\r\n");
}

#[test]
fn test_set_serialization() {
    let value = RespValue::SetValue(vec![
        RespValue::SimpleString(b"hello".to_vec()),
        RespValue::Integer(42),
    ]);
    assert_eq!(value.to_bytes(), b"~2\r\n+hello\r\n:42\r\n");
}

#[test]
fn test_map_serialization() {
    let value = RespValue::MapValue(vec![
        (RespValue::SimpleString(b"key1".to_vec()), RespValue::Integer(1)),
        (RespValue::SimpleString(b"key2".to_vec()), RespValue::Integer(2)),
    ]);
    assert_eq!(value.to_bytes(), b"%2\r\n+key1\r\n:1\r\n+key2\r\n:2\r\n");
}

#[test]
fn test_null_parsing() {
    let mut parser = RespParser::new();
    parser.add_data(b"_\r\n");

    let result = parser.parse().unwrap().unwrap();
    match result {
        RespValue::Null => {}
        _ => panic!("Expected Null"),
    }
}

#[test]
fn test_boolean_parsing() {
    let mut parser = RespParser::new();
    parser.add_data(b"#t\r\n");

    let result = parser.parse().unwrap().unwrap();
    match result {
        RespValue::Boolean(true) => {}
        _ => panic!("Expected Boolean(true)"),
    }

    let mut parser2 = RespParser::new();
    parser2.add_data(b"#f\r\n");

    let result2 = parser2.parse().unwrap().unwrap();
    match result2 {
        RespValue::Boolean(false) => {}
        _ => panic!("Expected Boolean(false)"),
    }
}

#[test]
fn test_double_parsing() {
    let mut parser = RespParser::new();
    parser.add_data(b",3.14\r\n");

    let result = parser.parse().unwrap().unwrap();
    match result {
        RespValue::Double(d) => assert_eq!(d, b"3.14"),
        _ => panic!("Expected Double"),
    }
}

#[test]
fn test_set_parsing() {
    let mut parser = RespParser::new();
    parser.add_data(b"~2\r\n+hello\r\n:42\r\n");

    let result = parser.parse().unwrap().unwrap();
    match result {
        RespValue::SetValue(items) => {
            assert_eq!(items.len(), 2);
            match &items[0] {
                RespValue::SimpleString(s) => assert_eq!(s, b"hello"),
                _ => panic!("Expected SimpleString"),
            }
            match &items[1] {
                RespValue::Integer(i) => assert_eq!(*i, 42),
                _ => panic!("Expected Integer"),
            }
        }
        _ => panic!("Expected Set"),
    }
}

#[test]
fn test_map_parsing() {
    let mut parser = RespParser::new();
    parser.add_data(b"%2\r\n+key1\r\n:1\r\n+key2\r\n:2\r\n");

    let result = parser.parse().unwrap().unwrap();
    match result {
        RespValue::MapValue(pairs) => {
            assert_eq!(pairs.len(), 2);
            match (&pairs[0].0, &pairs[0].1) {
                (RespValue::SimpleString(k), RespValue::Integer(v)) => {
                    assert_eq!(k, b"key1");
                    assert_eq!(*v, 1);
                }
                _ => panic!("Expected SimpleString key and Integer value"),
            }
        }
        _ => panic!("Expected Map"),
    }
}

#[test]
fn test_nested_resp3_types() {
    // a map whose value is a set
    let mut parser = RespParser::new();
    parser.add_data(b"%1\r\n+mykey\r\n~2\r\n+val1\r\n+val2\r\n");

    let result = parser.parse().unwrap().unwrap();
    match result {
        RespValue::MapValue(pairs) => {
            assert_eq!(pairs.len(), 1);
            match (&pairs[0].0, &pairs[0].1) {
                (RespValue::SimpleString(k), RespValue::SetValue(items)) => {
                    assert_eq!(k, b"mykey");
                    assert_eq!(items.len(), 2);
                }
                _ => panic!("Expected SimpleString and Set"),
            }
        }
        _ => panic!("Expected Map"),
    }
}

#[test]
fn test_inline_command_integration() {
    let mut parser = RespParser::new();
    parser.add_data(b"PING\r\n");

    let result = parser.parse().unwrap().unwrap();
    match result {
        RespValue::Array(Some(parts)) => {
            assert_eq!(parts.len(), 1);
            match &parts[0] {
                RespValue::BulkString(Some(s)) => assert_eq!(s, b"PING"),
                _ => panic!("Expected BulkString"),
            }
        }
        _ => panic!("Expected Array"),
    }
}

#[test]
fn test_inline_set_command() {
    let mut parser = RespParser::new();
    parser.add_data(b"SET mykey myvalue\r\n");

    let result = parser.parse().unwrap().unwrap();
    match result {
        RespValue::Array(Some(parts)) => {
            assert_eq!(parts.len(), 3);
        }
        _ => panic!("Expected Array"),
    }
}

#[test]
fn test_mixed_inline_and_resp() {
    let mut parser = RespParser::new();
    // first an inline command
    parser.add_data(b"PING\r\n");
    let first = parser.parse().unwrap().unwrap();
    match first {
        RespValue::Array(_) => {} // inline becomes an array
        _ => panic!("Expected Array from inline"),
    }

    // then a RESP command
    parser.add_data(b"*1\r\n$4\r\nPING\r\n");
    let second = parser.parse().unwrap().unwrap();
    match second {
        RespValue::Array(_) => {}
        _ => panic!("Expected Array from RESP"),
    }
}

#[test]
fn test_parser_reset() {
    let mut parser = RespParser::new();

    // invalid bulk string length
    parser.add_data(b"$-5\r\n");
    assert!(parser.parse().is_err());

    // reset parser
    parser.reset();

    // a new command parses
    parser.add_data(b"+OK\r\n");
    let result = parser.parse().unwrap();
    assert!(matches!(result, Some(RespValue::SimpleString(_))));
}

#[test]
fn test_error_recovery() {
    let mut parser = RespParser::new();

    // parse error with invalid length
    parser.add_data(b"$-5\r\n");
    let result = parser.parse();
    assert!(result.is_err());

    // clear the buffer
    parser.reset();

    // the next valid command parses correctly
    parser.add_data(b"*1\r\n$4\r\nPING\r\n");
    let result = parser.parse().unwrap();
    assert!(matches!(result, Some(RespValue::Array(_))));
}
