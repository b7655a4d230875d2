use kvs::resp::{encode_input, handler, ping, split_words, RESP};

#[test]
fn resp_serialize_each_kind() {
    assert_eq!(RESP::SimpleString("OK".to_string()).serialize(), "+OK\r\n");
    assert_eq!(RESP::Error("ERR x".to_string()).serialize(), "-ERR x\r\n");
    assert_eq!(RESP::BulkString("héllo".to_string()).serialize(), "$6\r\nhéllo\r\n");
    let arr = RESP::Array(vec![
        RESP::BulkString("PING".to_string()),
        RESP::BulkString("hi".to_string()),
    ]);
    assert_eq!(arr.serialize(), "*2\r\n$4\r\nPING\r\n$2\r\nhi\r\n");
    assert_eq!(RESP::Array(Vec::new()).serialize(), "*0\r\n");
}

#[test]
fn resp_deserialize_round_trip() {
    let arr = RESP::Array(vec![
        RESP::BulkString("PING".to_string()),
        RESP::SimpleString("x".to_string()),
        RESP::Array(vec![RESP::Error("e".to_string())]),
    ]);
    assert_eq!(RESP::deserialize(&arr.serialize()).unwrap(), arr);
}

#[test]
fn resp_deserialize_rejects_bad_input() {
    assert!(RESP::deserialize("").is_err());
    assert!(RESP::deserialize("$3\r\nab\r\n").is_err());
    assert!(RESP::deserialize("*2\r\n$1\r\na\r\n").is_err());
    assert!(RESP::deserialize("?what").is_err());
    assert!(RESP::deserialize("$x\r\nab").is_err());
}

#[test]
fn words_split_at_white_space() {
    assert_eq!(split_words("  PING \t hello\n"), vec!["PING".to_string(), "hello".to_string()]);
    assert_eq!(split_words(""), Vec::<String>::new());
    assert_eq!(split_words("a\u{3000}b"), vec!["a".to_string(), "b".to_string()]);
}

#[test]
fn ping_replies() {
    let ping1 = RESP::Array(vec![RESP::BulkString("PING".to_string())]);
    assert_eq!(ping(&ping1), RESP::SimpleString("PONG".to_string()));
    let ping2 = RESP::Array(vec![RESP::BulkString("PING".to_string()), RESP::BulkString("hey".to_string())]);
    assert_eq!(ping(&ping2), RESP::BulkString("hey".to_string()));
    let other = RESP::Array(vec![RESP::BulkString("GET".to_string())]);
    assert_eq!(ping(&other), RESP::Error("ERR unknown command".to_string()));
    assert_eq!(
        ping(&RESP::SimpleString("PING".to_string())),
        RESP::Error("ERR wrong number of arguments for 'ping' command".to_string())
    );
}

#[test]
fn client_encoding_and_server_handler() {
    let encoded = encode_input("PING hello\n").unwrap();
    assert_eq!(encoded, "*2\\r\\n$4\\r\\nPING\\r\\n$5\\r\\nhello\\r\\n");
    let wire = format!("\"{}\"", encoded);
    assert_eq!(handler(wire.as_bytes()).unwrap(), RESP::BulkString("hello".to_string()));
    assert_eq!(
        handler(b"\"*1\\r\\n$4\\r\\nPING\\r\\n\"").unwrap(),
        RESP::SimpleString("PONG".to_string())
    );
    assert!(handler(b"not json").is_err());
}
