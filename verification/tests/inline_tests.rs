use coral_redis::frame::RespValue;
use coral_redis::inline::InlineParser;

#[test]
fn test_simple_command() {
    let result = InlineParser::parse(b"PING\r\n").unwrap().unwrap();
    match result {
        RespValue::Array(Some(parts)) => {
            assert_eq!(parts.len(), 1);
            match &parts[0] {
                RespValue::BulkString(Some(s)) => assert_eq!(s, b"PING"),
                _ => panic!("Expected BulkString"),
            }
        }
        _ => panic!("Expected Array"),
    }
}

#[test]
fn test_command_with_args() {
    let result = InlineParser::parse(b"SET mykey myvalue\r\n").unwrap().unwrap();
    match result {
        RespValue::Array(Some(parts)) => {
            assert_eq!(parts.len(), 3);
            match &parts[0] {
                RespValue::BulkString(Some(s)) => assert_eq!(s, b"SET"),
                _ => panic!("Expected BulkString"),
            }
            match &parts[1] {
                RespValue::BulkString(Some(s)) => assert_eq!(s, b"mykey"),
                _ => panic!("Expected BulkString"),
            }
            match &parts[2] {
                RespValue::BulkString(Some(s)) => assert_eq!(s, b"myvalue"),
                _ => panic!("Expected BulkString"),
            }
        }
        _ => panic!("Expected Array"),
    }
}

#[test]
fn test_quoted_argument() {
    let result = InlineParser::parse(b"SET key \"value with spaces\"\r\n")
        .unwrap()
        .unwrap();
    match result {
        RespValue::Array(Some(parts)) => {
            assert_eq!(parts.len(), 3);
            match &parts[2] {
                RespValue::BulkString(Some(s)) => assert_eq!(s, b"value with spaces"),
                _ => panic!("Expected BulkString"),
            }
        }
        _ => panic!("Expected Array"),
    }
}

#[test]
fn test_escape_sequences() {
    let result = InlineParser::parse(b"SET key \"line1\\nline2\"\r\n")
        .unwrap()
        .unwrap();
    match result {
        RespValue::Array(Some(parts)) => {
            match &parts[2] {
                RespValue::BulkString(Some(s)) => assert_eq!(s, b"line1\nline2"),
                _ => panic!("Expected BulkString"),
            }
        }
        _ => panic!("Expected Array"),
    }
}

#[test]
fn test_incomplete_command() {
    let result = InlineParser::parse(b"PING").unwrap();
    assert!(result.is_none());
}

#[test]
fn test_unclosed_quote() {
    let result = InlineParser::parse(b"SET key \"unclosed\r\n");
    assert!(result.is_err());
}

#[test]
fn test_multiple_spaces() {
    let result = InlineParser::parse(b"SET   key    value\r\n").unwrap().unwrap();
    match result {
        RespValue::Array(Some(parts)) => {
            assert_eq!(parts.len(), 3);
        }
        _ => panic!("Expected Array"),
    }
}

#[test]
fn test_tabs() {
    let result = InlineParser::parse(b"SET\tkey\tvalue\r\n").unwrap().unwrap();
    match result {
        RespValue::Array(Some(parts)) => {
            assert_eq!(parts.len(), 3);
        }
        _ => panic!("Expected Array"),
    }
}

#[test]
fn test_bytes_consumed() {
    assert_eq!(InlineParser::bytes_consumed(b"PING\r\n"), 6);
    assert_eq!(InlineParser::bytes_consumed(b"SET key val\r\n"), 13);
    assert_eq!(InlineParser::bytes_consumed(b"PING"), 0);
}

#[test]
fn test_whitespace_only_line_incomplete() {
    // a line of only whitespace is incomplete, not a zero-length command
    let result = InlineParser::parse(b"   \r\n").unwrap();
    assert!(result.is_none());
    let result = InlineParser::parse(b"\r\n").unwrap();
    assert!(result.is_none());
}

#[test]
fn test_parse_command_line_tokens() {
    let parts = InlineParser::parse_command_line(b"GET  \"a b\"  c").unwrap();
    assert_eq!(parts.len(), 3);
    assert_eq!(parts[0], b"GET");
    assert_eq!(parts[1], b"a b");
    assert_eq!(parts[2], b"c");
}
