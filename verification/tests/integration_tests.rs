use coral_redis::frame::RespValue;
use coral_redis::resp::RespParser;
use coral_redis::handler::Handler;
use coral_redis::memory::MemoryStorage;

fn bulk(s: &[u8]) -> RespValue {
    RespValue::BulkString(Some(s.to_vec()))
}

fn cmd(parts: Vec<RespValue>) -> RespValue {
    RespValue::Array(Some(parts))
}

#[test]
fn test_server_integration_basic_commands() {
    let storage = MemoryStorage::new();
    let mut handler = Handler::new(storage);

    // PING
    let ping_response = handler.handle_command(cmd(vec![bulk(b"PING")]));
    match ping_response {
        RespValue::SimpleString(s) => assert_eq!(s, b"PONG"),
        _ => panic!("Expected PONG"),
    }

    // SET
    let set_response = handler.handle_command(cmd(vec![
        bulk(b"SET"),
        bulk(b"testkey"),
        bulk(b"testvalue"),
    ]));
    match set_response {
        RespValue::SimpleString(s) => assert_eq!(s, b"OK"),
        _ => panic!("Expected OK"),
    }

    // GET
    let get_response = handler.handle_command(cmd(vec![bulk(b"GET"), bulk(b"testkey")]));
    match get_response {
        RespValue::BulkString(Some(s)) => assert_eq!(s, b"testvalue"),
        _ => panic!("Expected testvalue"),
    }
}

#[test]
fn test_multiple_clients() {
    // two connections in turn over the same storage
    let storage = MemoryStorage::new();
    let mut handler1 = Handler::new(storage);

    handler1.handle_command(cmd(vec![
        bulk(b"SET"),
        bulk(b"shared_key"),
        bulk(b"shared_value"),
    ]));

    let mut handler2 = Handler::new(handler1.into_storage());
    let response = handler2.handle_command(cmd(vec![bulk(b"GET"), bulk(b"shared_key")]));
    match response {
        RespValue::BulkString(Some(s)) => assert_eq!(s, b"shared_value"),
        _ => panic!("Expected shared_value"),
    }
}

#[test]
fn test_error_handling() {
    let mut handler = Handler::new(MemoryStorage::new());

    // unknown command
    let response = handler.handle_command(cmd(vec![bulk(b"NOSUCH")]));
    match response {
        RespValue::Error(msg) => {
            let text = String::from_utf8(msg).unwrap();
            assert!(text.contains("Unknown command"));
        }
        _ => panic!("Expected Error"),
    }

    // not an array of bulk strings
    let response = handler.handle_command(RespValue::Integer(7));
    match response {
        RespValue::Error(msg) => {
            let text = String::from_utf8(msg).unwrap();
            assert!(text.contains("Invalid command format"));
        }
        _ => panic!("Expected Error"),
    }
}

#[test]
fn test_protocol_error_recovery() {
    let mut parser = RespParser::new();

    // a malformed frame errors but preserves the session: the parser is
    // reset and the next frame parses
    parser.add_data(b"$-5\r\n");
    assert!(parser.parse().is_err());
    parser.reset();

    parser.add_data(b"*1\r\n$4\r\nPING\r\n");
    let frame = parser.parse().unwrap().unwrap();
    let mut handler = Handler::new(MemoryStorage::new());
    let response = handler.handle_command(frame);
    assert_eq!(response.to_bytes(), b"+PONG\r\n");
}

#[test]
fn test_config_get_integration() {
    let mut handler = Handler::new(MemoryStorage::new());
    let response = handler.handle_command(cmd(vec![
        bulk(b"CONFIG"),
        bulk(b"GET"),
        bulk(b"port"),
    ]));
    match response {
        RespValue::Array(Some(items)) => {
            assert_eq!(items.len(), 2);
            match (&items[0], &items[1]) {
                (RespValue::BulkString(Some(key)), RespValue::BulkString(Some(value))) => {
                    assert_eq!(key, b"port");
                    assert_eq!(value, b"6379");
                }
                _ => panic!("Expected BulkString pair"),
            }
        }
        _ => panic!("Expected Array"),
    }
}
