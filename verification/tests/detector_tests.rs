use coral_redis::detector::{detect_format, ProtocolFormat};

#[test]
fn test_detect_resp2() {
    assert_eq!(detect_format(b"+OK\r\n"), Some(ProtocolFormat::Resp));
    assert_eq!(detect_format(b"-Error\r\n"), Some(ProtocolFormat::Resp));
    assert_eq!(detect_format(b":42\r\n"), Some(ProtocolFormat::Resp));
    assert_eq!(detect_format(b"$5\r\nhello\r\n"), Some(ProtocolFormat::Resp));
    assert_eq!(detect_format(b"*2\r\n"), Some(ProtocolFormat::Resp));
}

#[test]
fn test_detect_resp3() {
    assert_eq!(detect_format(b"_\r\n"), Some(ProtocolFormat::Resp));
    assert_eq!(detect_format(b"#t\r\n"), Some(ProtocolFormat::Resp));
    assert_eq!(detect_format(b",3.14\r\n"), Some(ProtocolFormat::Resp));
    assert_eq!(detect_format(b"~2\r\n"), Some(ProtocolFormat::Resp));
    assert_eq!(detect_format(b"%2\r\n"), Some(ProtocolFormat::Resp));
}

#[test]
fn test_detect_inline() {
    assert_eq!(detect_format(b"PING\r\n"), Some(ProtocolFormat::Inline));
    assert_eq!(detect_format(b"SET key value\r\n"), Some(ProtocolFormat::Inline));
    assert_eq!(detect_format(b"GET mykey\r\n"), Some(ProtocolFormat::Inline));
}

#[test]
fn test_detect_empty() {
    assert_eq!(detect_format(b""), None);
}
