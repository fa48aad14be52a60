//! End-to-end exchanges: bytes in through the codec, dispatch, bytes out.

use coral_redis::frame::RespValue;
use coral_redis::handler::Handler;
use coral_redis::memory::MemoryStorage;
use coral_redis::resp::RespParser;
use coral_redis::cli::{Cli, StorageBackend};
use coral_redis::config::{Config, ServerConfig, StorageConfig};
use coral_redis::error::ConfigError;
use coral_redis::storage::batch_keys;
use coral_redis::record::{record_decode, record_encode};
use coral_redis::resp::ProtocolError;
use coral_redis::storage::StorageValue;

fn new_session() -> (RespParser, Handler) {
    (RespParser::new(), Handler::new(MemoryStorage::new()))
}

/// Feed bytes, dispatch the one decoded frame, return the response bytes.
fn exchange(parser: &mut RespParser, handler: &mut Handler, input: &[u8]) -> Vec<u8> {
    parser.add_data(input);
    match parser.parse() {
        Ok(Some(frame)) => handler.handle_command(frame).to_bytes(),
        Ok(None) => panic!("incomplete frame"),
        Err(e) => {
            parser.reset();
            let mut msg = b"ERR Protocol error: ".to_vec();
            msg.extend_from_slice(&e.message());
            RespValue::Error(msg).to_bytes()
        }
    }
}

#[test]
fn test_session_ping() {
    let (mut parser, mut handler) = new_session();
    let out = exchange(&mut parser, &mut handler, b"*1\r\n$4\r\nPING\r\n");
    assert_eq!(out, b"+PONG\r\n");
}

#[test]
fn test_session_inline_set_then_resp_get() {
    let (mut parser, mut handler) = new_session();
    let out = exchange(&mut parser, &mut handler, b"SET foo bar\r\n");
    assert_eq!(out, b"+OK\r\n");
    let out = exchange(&mut parser, &mut handler, b"*2\r\n$3\r\nGET\r\n$3\r\nfoo\r\n");
    assert_eq!(out, b"$3\r\nbar\r\n");
}

#[test]
fn test_session_set_with_expiry_then_get_later() {
    // inline `SET k v EX 1`, then a read more than one second later:
    // dispatch happens at explicit instants
    let mut parser = RespParser::new();
    let mut handler = Handler::new(MemoryStorage::new());
    let t0: u64 = 10_000_000;

    parser.add_data(b"SET k v EX 1\r\n");
    let frame = parser.parse().unwrap().unwrap();
    let out = handler.handle_command_at(frame, t0).to_bytes();
    assert_eq!(out, b"+OK\r\n");

    // two seconds later the record has expired
    parser.add_data(b"GET k\r\n");
    let frame = parser.parse().unwrap().unwrap();
    let out = handler.handle_command_at(frame, t0 + 2000).to_bytes();
    assert_eq!(out, b"$-1\r\n");
}

#[test]
fn test_session_malformed_then_ping() {
    let (mut parser, mut handler) = new_session();
    let out = exchange(&mut parser, &mut handler, b"$-5\r\n");
    assert!(out.starts_with(b"-ERR Protocol error: "));
    assert!(out.ends_with(b"\r\n"));
    // the connection stays usable after the reset
    let out = exchange(&mut parser, &mut handler, b"*1\r\n$4\r\nPING\r\n");
    assert_eq!(out, b"+PONG\r\n");
}

#[test]
fn test_session_hello_3_negotiates_map() {
    let (mut parser, mut handler) = new_session();
    let out = exchange(&mut parser, &mut handler, b"*2\r\n$5\r\nHELLO\r\n$1\r\n3\r\n");
    assert!(out.starts_with(b"%5\r\n"));
    let text = String::from_utf8_lossy(&out).to_string();
    assert!(text.contains("proto"));
    assert!(text.contains(":3\r\n"));
    assert_eq!(
        handler.protocol_version(),
        coral_redis::resp::ProtocolVersion::Resp3
    );
}

#[test]
fn test_session_config_get_all() {
    let (mut parser, mut handler) = new_session();
    let out = exchange(&mut parser, &mut handler, b"CONFIG GET *\r\n");
    let text = String::from_utf8_lossy(&out).to_string();
    assert!(text.starts_with("*16\r\n"));
    for key in [
        "port",
        "bind",
        "storage-backend",
        "maxmemory",
        "maxmemory-policy",
        "save",
        "appendonly",
        "databases",
    ] {
        assert!(text.contains(key), "missing {}", key);
    }
}

#[test]
fn test_split_feed_two_frames() {
    // two encoded frames, fed in an arbitrary byte-wise split, come out
    // in order
    let f1 = RespValue::Array(Some(vec![RespValue::BulkString(Some(b"PING".to_vec()))]));
    let f2 = RespValue::Integer(42);
    let mut bytes = f1.to_bytes();
    bytes.extend_from_slice(&f2.to_bytes());

    for split in 0..=bytes.len() {
        let mut parser = RespParser::new();
        parser.add_data(&bytes[..split]);
        let mut got = Vec::new();
        loop {
            match parser.parse().unwrap() {
                Some(f) => got.push(f),
                None => break,
            }
        }
        parser.add_data(&bytes[split..]);
        loop {
            match parser.parse().unwrap() {
                Some(f) => got.push(f),
                None => break,
            }
        }
        assert_eq!(got.len(), 2, "split at {}", split);
        assert!(matches!(&got[0], RespValue::Array(Some(_))));
        assert!(matches!(&got[1], RespValue::Integer(42)));
    }
}

#[test]
fn test_empty_bulk_distinct_from_null() {
    // a zero-length bulk encodes as $0\r\n\r\n and round-trips as an
    // empty payload, distinct from the null bulk
    let empty = RespValue::BulkString(Some(Vec::new()));
    assert_eq!(empty.to_bytes(), b"$0\r\n\r\n");

    let mut parser = RespParser::new();
    parser.add_data(b"$0\r\n\r\n");
    match parser.parse().unwrap().unwrap() {
        RespValue::BulkString(Some(d)) => assert_eq!(d.len(), 0),
        _ => panic!("Expected empty bulk"),
    }

    let mut parser = RespParser::new();
    parser.add_data(b"$-1\r\n");
    match parser.parse().unwrap().unwrap() {
        RespValue::BulkString(None) => {}
        _ => panic!("Expected null bulk"),
    }
}

#[test]
fn test_round_trip_nested_frame() {
    // decode(encode(f)) == f for a nested frame
    let f = RespValue::Array(Some(vec![
        RespValue::SimpleString(b"OK".to_vec()),
        RespValue::Integer(-7),
        RespValue::BulkString(Some(b"payload".to_vec())),
        RespValue::Null,
        RespValue::Boolean(true),
        RespValue::Double(b"2.5e3".to_vec()),
        RespValue::SetValue(vec![RespValue::Integer(1), RespValue::Integer(2)]),
        RespValue::MapValue(vec![(
            RespValue::BulkString(Some(b"k".to_vec())),
            RespValue::BulkString(Some(b"v".to_vec())),
        )]),
    ]));
    let bytes = f.to_bytes();
    let mut parser = RespParser::new();
    parser.add_data(&bytes);
    let decoded = parser.parse().unwrap().unwrap();
    assert_eq!(decoded.to_bytes(), bytes);
}

#[test]
fn test_del_three_keys_one_exists() {
    let mut handler = Handler::new(MemoryStorage::new());
    handler.handle_command(RespValue::Array(Some(vec![
        RespValue::BulkString(Some(b"SET".to_vec())),
        RespValue::BulkString(Some(b"a".to_vec())),
        RespValue::BulkString(Some(b"1".to_vec())),
    ])));
    let out = handler.handle_command(RespValue::Array(Some(vec![
        RespValue::BulkString(Some(b"DEL".to_vec())),
        RespValue::BulkString(Some(b"a".to_vec())),
        RespValue::BulkString(Some(b"b".to_vec())),
        RespValue::BulkString(Some(b"c".to_vec())),
    ])));
    match out {
        RespValue::Integer(n) => assert_eq!(n, 1),
        _ => panic!("Expected Integer"),
    }
}

#[test]
fn test_exists_same_key_twice() {
    let mut handler = Handler::new(MemoryStorage::new());
    handler.handle_command(RespValue::Array(Some(vec![
        RespValue::BulkString(Some(b"SET".to_vec())),
        RespValue::BulkString(Some(b"a".to_vec())),
        RespValue::BulkString(Some(b"1".to_vec())),
    ])));
    let out = handler.handle_command(RespValue::Array(Some(vec![
        RespValue::BulkString(Some(b"EXISTS".to_vec())),
        RespValue::BulkString(Some(b"a".to_vec())),
        RespValue::BulkString(Some(b"a".to_vec())),
    ])));
    match out {
        RespValue::Integer(n) => assert_eq!(n, 2),
        _ => panic!("Expected Integer"),
    }
}

#[test]
fn test_protocol_error_messages() {
    // one input for each protocol fault the codec reports
    let cases: Vec<(&[u8], ProtocolError)> = vec![
        (b":abc\r\n", ProtocolError::InvalidInteger),
        (b"$x\r\n", ProtocolError::InvalidBulkLength),
        (b"$-5\r\n", ProtocolError::InvalidBulkLength),
        (b"$2\r\nabXY", ProtocolError::InvalidBulkTerminator),
        (b"*-5\r\n", ProtocolError::InvalidArrayLength),
        (b"~-1\r\n", ProtocolError::InvalidSetLength),
        (b"%-1\r\n", ProtocolError::InvalidMapLength),
        (b"#x\r\n", ProtocolError::InvalidBoolean(b'x')),
        (b",abc\r\n", ProtocolError::InvalidDouble),
        (b"_x\r\n", ProtocolError::InvalidNull),
        (b"GET \"oops\r\n", ProtocolError::UnclosedQuote),
    ];
    for (input, expected) in cases {
        let mut parser = RespParser::new();
        parser.add_data(input);
        let err = parser.parse().unwrap_err();
        assert_eq!(err, expected, "input {:?}", input);
        assert!(!err.message().is_empty());
    }
}

#[test]
fn test_double_literal_forms() {
    // the double field accepts what f64 parsing accepts
    for ok in ["1", "3.14", "-2.5", ".5", "2.", "1e10", "1E-3", "inf", "-Infinity", "nan", "+4"] {
        let mut parser = RespParser::new();
        parser.add_data(format!(",{}\r\n", ok).as_bytes());
        assert!(parser.parse().unwrap().is_some(), "should accept {}", ok);
    }
    for bad in ["", "abc", "1.2.3", "1e", "e3", "--5", "in", "infx"] {
        let mut parser = RespParser::new();
        parser.add_data(format!(",{}\r\n", bad).as_bytes());
        assert!(parser.parse().is_err(), "should reject {}", bad);
    }
}

#[test]
fn test_integer_frame_bounds() {
    let mut parser = RespParser::new();
    parser.add_data(b":9223372036854775807\r\n");
    match parser.parse().unwrap().unwrap() {
        RespValue::Integer(n) => assert_eq!(n, i64::MAX),
        _ => panic!("Expected Integer"),
    }
    let mut parser = RespParser::new();
    parser.add_data(b":-9223372036854775808\r\n");
    match parser.parse().unwrap().unwrap() {
        RespValue::Integer(n) => assert_eq!(n, i64::MIN),
        _ => panic!("Expected Integer"),
    }
    assert_eq!(RespValue::Integer(i64::MIN).to_bytes(), b":-9223372036854775808\r\n");
    // one past the range is malformed
    let mut parser = RespParser::new();
    parser.add_data(b":9223372036854775808\r\n");
    assert!(parser.parse().is_err());
}

#[test]
fn test_incomplete_never_consumes() {
    // an incomplete frame leaves the buffer untouched; completing it works
    let mut parser = RespParser::new();
    parser.add_data(b"$5\r\nhel");
    assert!(parser.parse().unwrap().is_none());
    parser.add_data(b"lo\r\n");
    match parser.parse().unwrap().unwrap() {
        RespValue::BulkString(Some(s)) => assert_eq!(s, b"hello"),
        _ => panic!("Expected BulkString"),
    }
}

#[test]
fn test_record_blob_round_trip() {

    let plain = StorageValue::new(b"payload".to_vec());
    let blob = record_encode(&plain);
    let back = record_decode(&blob).unwrap();
    assert_eq!(back.data, b"payload");
    assert_eq!(back.expires_at, None);

    let with_expiry = StorageValue::new_with_expiry_at(b"p2".to_vec(), 1_700_000_000_123, 5_000);
    let blob = record_encode(&with_expiry);
    let back = record_decode(&blob).unwrap();
    assert_eq!(back.data, b"p2");
    assert_eq!(back.expires_at, Some(1_700_000_000_123 + 5_000));

    // a truncated expiry blob is rejected
    assert!(record_decode(b"\x01abc").is_none());
    assert!(record_decode(b"").is_none());
}

#[test]
fn test_config_merge_precedence() {

    let cli = Cli {
        host: None,
        port: Some(7000),
        storage: None,
        lmdb_path: None,
        s3_bucket: None,
        s3_prefix: None,
        aws_region: None,
        config: None,
        verbose: false,
        debug: false,
    };
    let file = Config {
        server: ServerConfig { host: "10.0.0.1".to_string(), port: 6500 },
        storage: StorageConfig::Memory,
    };
    let env = Config {
        server: ServerConfig { host: "10.0.0.2".to_string(), port: 6600 },
        storage: StorageConfig::Memory,
    };
    // command line beats file beats environment
    let merged = Config::from_sources(&cli, Some(&file), &env).unwrap();
    assert_eq!(merged.server.port, 7000);
    assert_eq!(merged.server.host, "10.0.0.1");

    let merged = Config::from_sources(&cli, None, &env).unwrap();
    assert_eq!(merged.server.host, "10.0.0.2");
}

#[test]
fn test_config_validation_missing_params() {

    let cli = Cli {
        host: None,
        port: None,
        storage: Some(StorageBackend::Lmdb),
        lmdb_path: None,
        s3_bucket: None,
        s3_prefix: None,
        aws_region: None,
        config: None,
        verbose: false,
        debug: false,
    };
    match Config::resolve_storage(&cli) {
        Err(ConfigError::MissingField(f)) => assert!(f.contains("lmdb_path")),
        _ => panic!("Expected MissingField"),
    }

    let cli = Cli { storage: Some(StorageBackend::S3), ..cli };
    match Config::resolve_storage(&cli) {
        Err(ConfigError::MissingField(f)) => assert!(f.contains("s3_bucket")),
        _ => panic!("Expected MissingField"),
    }
}

#[test]
fn test_storage_value_expiry_flag() {

    let v = StorageValue::new(b"x".to_vec());
    assert!(!v.is_expired());
    let v = StorageValue::new_with_expiry_at(b"x".to_vec(), 1000, 50);
    assert!(!v.is_expired_at(1050));
    assert!(v.is_expired_at(1051));
}

#[test]
fn test_hello_version_errors() {
    // any numeric version other than 2 or 3 is unsupported, with the
    // number echoed; only a non-numeric argument is a number error;
    // neither changes the connection's version
    let mut handler = Handler::new(MemoryStorage::new());

    let out = handler.handle_hello(&[RespValue::BulkString(Some(b"1000".to_vec()))]);
    match out {
        RespValue::Error(msg) => {
            assert_eq!(msg, b"ERR unsupported protocol version: 1000");
        }
        _ => panic!("Expected Error"),
    }
    assert_eq!(
        handler.protocol_version(),
        coral_redis::resp::ProtocolVersion::Resp2
    );

    let out = handler.handle_hello(&[RespValue::BulkString(Some(b"abc".to_vec()))]);
    match out {
        RespValue::Error(msg) => {
            assert_eq!(msg, b"ERR protocol version must be a number");
        }
        _ => panic!("Expected Error"),
    }
    assert_eq!(
        handler.protocol_version(),
        coral_redis::resp::ProtocolVersion::Resp2
    );
}

#[test]
fn test_protocol_error_frame_format() {
    let mut parser = RespParser::new();
    parser.add_data(b"$-5\r\n");
    let err = parser.parse().unwrap_err();
    assert_eq!(
        err.to_error_frame().to_bytes(),
        b"-ERR Protocol error: Invalid bulk string length\r\n"
    );
}

#[test]
fn test_batch_keys_split() {
    let keys: Vec<String> = (0..7).map(|i| format!("k{}", i)).collect();
    let batches = batch_keys(&keys, 3);
    assert_eq!(batches.len(), 3);
    assert_eq!(batches[0], vec!["k0", "k1", "k2"]);
    assert_eq!(batches[1], vec!["k3", "k4", "k5"]);
    assert_eq!(batches[2], vec!["k6"]);

    let flat: Vec<String> = batches.into_iter().flatten().collect();
    assert_eq!(flat, keys);

    assert!(batch_keys(&Vec::new(), 1000).is_empty());
}

#[test]
fn test_normalize_command_names() {

    assert_eq!(Handler::normalize_command(&b"PING".to_vec()), b"ping");
    assert_eq!(Handler::normalize_command(&b"FlushDb".to_vec()), b"flushdb");
    // unknown commands keep their spelling
    assert_eq!(Handler::normalize_command(&b"NoSuch".to_vec()), b"NoSuch");
}
