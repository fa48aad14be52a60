use coral_redis::frame::RespValue;
use coral_redis::handler::Handler;
use coral_redis::memory::MemoryStorage;

fn create_handler() -> Handler {
    Handler::new(MemoryStorage::new())
}

fn bulk(s: &[u8]) -> RespValue {
    RespValue::BulkString(Some(s.to_vec()))
}

#[test]
fn handler_test_ping_no_args() {
    let handler = create_handler();
    let result = handler.handle_ping(&[]);

    match result {
        RespValue::SimpleString(s) => assert_eq!(s, b"PONG"),
        _ => panic!("Expected SimpleString"),
    }
}

#[test]
fn handler_test_ping_with_message() {
    let handler = create_handler();
    let args = vec![bulk(b"hello")];
    let result = handler.handle_ping(&args);

    match result {
        RespValue::BulkString(Some(s)) => assert_eq!(s, b"hello"),
        _ => panic!("Expected BulkString"),
    }
}

#[test]
fn handler_test_set_get() {
    let mut handler = create_handler();

    let set_args = vec![bulk(b"mykey"), bulk(b"myvalue")];
    let set_result = handler.handle_set(&set_args);

    match set_result {
        RespValue::SimpleString(s) => assert_eq!(s, b"OK"),
        _ => panic!("Expected OK"),
    }

    let get_args = vec![bulk(b"mykey")];
    let get_result = handler.handle_get(&get_args);

    match get_result {
        RespValue::BulkString(Some(s)) => assert_eq!(s, b"myvalue"),
        _ => panic!("Expected BulkString with value"),
    }
}

#[test]
fn handler_test_get_nonexistent() {
    let mut handler = create_handler();
    let args = vec![bulk(b"nonexistent")];
    let result = handler.handle_get(&args);

    match result {
        RespValue::BulkString(None) => {}
        _ => panic!("Expected null BulkString"),
    }
}

#[test]
fn handler_test_del() {
    let mut handler = create_handler();

    let set_args = vec![bulk(b"key1"), bulk(b"value1")];
    handler.handle_set(&set_args);

    let del_args = vec![bulk(b"key1")];
    let result = handler.handle_del(&del_args);

    match result {
        RespValue::Integer(i) => assert_eq!(i, 1),
        _ => panic!("Expected Integer 1"),
    }

    let del_args = vec![bulk(b"nonexistent")];
    let result = handler.handle_del(&del_args);

    match result {
        RespValue::Integer(i) => assert_eq!(i, 0),
        _ => panic!("Expected Integer 0"),
    }
}

#[test]
fn handler_test_exists() {
    let mut handler = create_handler();

    let set_args = vec![bulk(b"key1"), bulk(b"value1")];
    handler.handle_set(&set_args);

    let exists_args = vec![bulk(b"key1")];
    let result = handler.handle_exists(&exists_args);

    match result {
        RespValue::Integer(i) => assert_eq!(i, 1),
        _ => panic!("Expected Integer 1"),
    }

    let exists_args = vec![bulk(b"nonexistent")];
    let result = handler.handle_exists(&exists_args);

    match result {
        RespValue::Integer(i) => assert_eq!(i, 0),
        _ => panic!("Expected Integer 0"),
    }
}

#[test]
fn handler_test_dbsize() {
    let mut handler = create_handler();

    let result = handler.handle_dbsize();
    match result {
        RespValue::Integer(i) => assert_eq!(i, 0),
        _ => panic!("Expected Integer 0"),
    }

    let set_args = vec![bulk(b"key1"), bulk(b"value1")];
    handler.handle_set(&set_args);

    let result = handler.handle_dbsize();
    match result {
        RespValue::Integer(i) => assert_eq!(i, 1),
        _ => panic!("Expected Integer 1"),
    }
}

#[test]
fn handler_test_flushdb() {
    let mut handler = create_handler();

    let set_args = vec![bulk(b"key1"), bulk(b"value1")];
    handler.handle_set(&set_args);

    let result = handler.handle_flushdb();
    match result {
        RespValue::SimpleString(s) => assert_eq!(s, b"OK"),
        _ => panic!("Expected OK"),
    }

    let dbsize_result = handler.handle_dbsize();
    match dbsize_result {
        RespValue::Integer(i) => assert_eq!(i, 0),
        _ => panic!("Expected Integer 0"),
    }
}

#[test]
fn handler_test_invalid_commands() {
    let mut handler = create_handler();

    let result = handler.handle_set(&[]);
    match result {
        RespValue::Error(_) => {}
        _ => panic!("Expected Error"),
    }

    let result = handler.handle_get(&[]);
    match result {
        RespValue::Error(_) => {}
        _ => panic!("Expected Error"),
    }
}
