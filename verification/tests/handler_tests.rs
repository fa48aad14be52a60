use coral_redis::frame::RespValue;
use coral_redis::handler::Handler;
use coral_redis::memory::MemoryStorage;
use coral_redis::resp::ProtocolVersion;

fn create_handler() -> Handler {
    Handler::new(MemoryStorage::new())
}

fn bulk(s: &[u8]) -> RespValue {
    RespValue::BulkString(Some(s.to_vec()))
}

#[test]
fn test_ping_no_args() {
    let handler = create_handler();
    let result = handler.handle_ping(&[]);

    match result {
        RespValue::SimpleString(s) => assert_eq!(s, b"PONG"),
        _ => panic!("Expected SimpleString"),
    }
}

#[test]
fn test_ping_with_message() {
    let handler = create_handler();
    let args = vec![bulk(b"hello")];
    let result = handler.handle_ping(&args);

    match result {
        RespValue::BulkString(Some(s)) => assert_eq!(s, b"hello"),
        _ => panic!("Expected BulkString"),
    }
}

#[test]
fn test_set_get() {
    let mut handler = create_handler();

    let set_args = vec![bulk(b"mykey"), bulk(b"myvalue")];
    let set_result = handler.handle_set(&set_args);

    match set_result {
        RespValue::SimpleString(s) => assert_eq!(s, b"OK"),
        _ => panic!("Expected OK"),
    }

    let get_args = vec![bulk(b"mykey")];
    let get_result = handler.handle_get(&get_args);

    match get_result {
        RespValue::BulkString(Some(s)) => assert_eq!(s, b"myvalue"),
        _ => panic!("Expected BulkString with value"),
    }
}

#[test]
fn test_get_nonexistent() {
    let mut handler = create_handler();
    let args = vec![bulk(b"nonexistent")];
    let result = handler.handle_get(&args);

    match result {
        RespValue::BulkString(None) => {}
        _ => panic!("Expected null BulkString"),
    }
}

#[test]
fn test_del() {
    let mut handler = create_handler();

    let set_args = vec![bulk(b"key1"), bulk(b"value1")];
    handler.handle_set(&set_args);

    let del_args = vec![bulk(b"key1")];
    let result = handler.handle_del(&del_args);

    match result {
        RespValue::Integer(i) => assert_eq!(i, 1),
        _ => panic!("Expected Integer 1"),
    }

    let del_args = vec![bulk(b"nonexistent")];
    let result = handler.handle_del(&del_args);

    match result {
        RespValue::Integer(i) => assert_eq!(i, 0),
        _ => panic!("Expected Integer 0"),
    }
}

#[test]
fn test_exists() {
    let mut handler = create_handler();

    let set_args = vec![bulk(b"key1"), bulk(b"value1")];
    handler.handle_set(&set_args);

    let exists_args = vec![bulk(b"key1")];
    let result = handler.handle_exists(&exists_args);

    match result {
        RespValue::Integer(i) => assert_eq!(i, 1),
        _ => panic!("Expected Integer 1"),
    }

    let exists_args = vec![bulk(b"nonexistent")];
    let result = handler.handle_exists(&exists_args);

    match result {
        RespValue::Integer(i) => assert_eq!(i, 0),
        _ => panic!("Expected Integer 0"),
    }
}

#[test]
fn test_dbsize() {
    let mut handler = create_handler();

    let result = handler.handle_dbsize();
    match result {
        RespValue::Integer(i) => assert_eq!(i, 0),
        _ => panic!("Expected Integer 0"),
    }

    let set_args = vec![bulk(b"key1"), bulk(b"value1")];
    handler.handle_set(&set_args);

    let result = handler.handle_dbsize();
    match result {
        RespValue::Integer(i) => assert_eq!(i, 1),
        _ => panic!("Expected Integer 1"),
    }
}

#[test]
fn test_flushdb() {
    let mut handler = create_handler();

    let set_args = vec![bulk(b"key1"), bulk(b"value1")];
    handler.handle_set(&set_args);

    let result = handler.handle_flushdb();
    match result {
        RespValue::SimpleString(s) => assert_eq!(s, b"OK"),
        _ => panic!("Expected OK"),
    }

    let dbsize_result = handler.handle_dbsize();
    match dbsize_result {
        RespValue::Integer(i) => assert_eq!(i, 0),
        _ => panic!("Expected Integer 0"),
    }
}

#[test]
fn test_invalid_commands() {
    let mut handler = create_handler();

    let result = handler.handle_set(&[]);
    match result {
        RespValue::Error(_) => {}
        _ => panic!("Expected Error"),
    }

    let result = handler.handle_get(&[]);
    match result {
        RespValue::Error(_) => {}
        _ => panic!("Expected Error"),
    }
}

#[test]
fn test_hello_no_args() {
    let mut handler = create_handler();

    let result = handler.handle_hello(&[]);

    // the default is RESP2, so the response is an array
    match result {
        RespValue::Array(Some(items)) => {
            assert_eq!(items.len(), 10); // 5 key-value pairs
        }
        _ => panic!("Expected Array for RESP2 response"),
    }
}

#[test]
fn test_hello_resp2() {
    let mut handler = create_handler();

    let args = vec![bulk(b"2")];
    let result = handler.handle_hello(&args);

    match result {
        RespValue::Array(Some(items)) => {
            assert_eq!(items.len(), 10); // 5 key-value pairs
        }
        _ => panic!("Expected Array for RESP2 response"),
    }

    assert_eq!(handler.protocol_version(), ProtocolVersion::Resp2);
}

#[test]
fn test_hello_resp3() {
    let mut handler = create_handler();

    let args = vec![bulk(b"3")];
    let result = handler.handle_hello(&args);

    match result {
        RespValue::MapValue(pairs) => {
            assert_eq!(pairs.len(), 5);

            let proto_field = pairs.iter().find(|(k, _)| {
                matches!(k, RespValue::BulkString(Some(s)) if s == b"proto")
            });
            assert!(proto_field.is_some());

            if let Some((_, RespValue::Integer(proto))) = proto_field {
                assert_eq!(*proto, 3);
            }
        }
        _ => panic!("Expected Map for RESP3 response"),
    }

    assert_eq!(handler.protocol_version(), ProtocolVersion::Resp3);
}

#[test]
fn test_hello_invalid_version() {
    let mut handler = create_handler();

    let args = vec![bulk(b"99")];
    let result = handler.handle_hello(&args);

    match result {
        RespValue::Error(msg) => {
            let text = String::from_utf8(msg).unwrap();
            assert!(text.contains("unsupported protocol version"));
        }
        _ => panic!("Expected Error for invalid version"),
    }

    assert_eq!(handler.protocol_version(), ProtocolVersion::Resp2);
}

#[test]
fn test_config_get_port() {
    let handler = create_handler();

    let args = vec![bulk(b"GET"), bulk(b"port")];
    let result = handler.handle_config(&args);

    match result {
        RespValue::Array(Some(items)) => {
            assert_eq!(items.len(), 2);
            match (&items[0], &items[1]) {
                (RespValue::BulkString(Some(key)), RespValue::BulkString(Some(value))) => {
                    assert_eq!(key, b"port");
                    assert_eq!(value, b"6379");
                }
                _ => panic!("Expected BulkString pairs"),
            }
        }
        _ => panic!("Expected Array response"),
    }
}

#[test]
fn test_config_get_bind() {
    let handler = create_handler();

    let args = vec![bulk(b"GET"), bulk(b"bind")];
    let result = handler.handle_config(&args);

    match result {
        RespValue::Array(Some(items)) => {
            assert_eq!(items.len(), 2);
            match (&items[0], &items[1]) {
                (RespValue::BulkString(Some(key)), RespValue::BulkString(Some(value))) => {
                    assert_eq!(key, b"bind");
                    assert_eq!(value, b"127.0.0.1");
                }
                _ => panic!("Expected BulkString pairs"),
            }
        }
        _ => panic!("Expected Array response"),
    }
}

#[test]
fn test_config_get_multiple() {
    let handler = create_handler();

    let args = vec![bulk(b"GET"), bulk(b"port"), bulk(b"bind")];
    let result = handler.handle_config(&args);

    match result {
        RespValue::Array(Some(items)) => {
            assert_eq!(items.len(), 4); // 2 key-value pairs
        }
        _ => panic!("Expected Array response"),
    }
}

#[test]
fn test_config_get_storage_backend() {
    let handler = create_handler();

    let args = vec![bulk(b"GET"), bulk(b"storage-backend")];
    let result = handler.handle_config(&args);

    match result {
        RespValue::Array(Some(items)) => {
            assert_eq!(items.len(), 2);
            match (&items[0], &items[1]) {
                (RespValue::BulkString(Some(key)), RespValue::BulkString(Some(value))) => {
                    assert_eq!(key, b"storage-backend");
                    assert_eq!(value, b"memory");
                }
                _ => panic!("Expected BulkString pairs"),
            }
        }
        _ => panic!("Expected Array response"),
    }
}

#[test]
fn test_config_get_unknown_param() {
    let handler = create_handler();

    let args = vec![bulk(b"GET"), bulk(b"unknown-param")];
    let result = handler.handle_config(&args);

    // unknown parameters contribute nothing
    match result {
        RespValue::Array(Some(items)) => {
            assert_eq!(items.len(), 0);
        }
        _ => panic!("Expected empty Array response"),
    }
}

#[test]
fn test_config_get_wildcard() {
    let handler = create_handler();

    let args = vec![bulk(b"GET"), bulk(b"*")];
    let result = handler.handle_config(&args);

    match result {
        RespValue::Array(Some(items)) => {
            assert!(items.len() >= 10); // at least 5 key-value pairs
        }
        _ => panic!("Expected Array response"),
    }
}

#[test]
fn test_config_no_args() {
    let handler = create_handler();

    let result = handler.handle_config(&[]);

    match result {
        RespValue::Error(_) => {}
        _ => panic!("Expected Error for no arguments"),
    }
}

#[test]
fn test_config_invalid_subcommand() {
    let handler = create_handler();

    let args = vec![bulk(b"SET"), bulk(b"port"), bulk(b"8080")];
    let result = handler.handle_config(&args);

    match result {
        RespValue::Error(msg) => {
            let text = String::from_utf8(msg).unwrap();
            assert!(text.contains("Unknown CONFIG subcommand"));
        }
        _ => panic!("Expected Error for unsupported subcommand"),
    }
}

#[test]
fn test_config_get_case_insensitive() {
    let handler = create_handler();

    let args = vec![bulk(b"get"), bulk(b"PORT")];
    let result = handler.handle_config(&args);

    match result {
        RespValue::Array(Some(items)) => {
            assert_eq!(items.len(), 2);
        }
        _ => panic!("Expected Array response"),
    }
}
