use multiping::{Error, Message};

#[test]
fn encode_ping_exact() {
    assert_eq!(Message::Ping.encode(), "\"Ping\"\n");
}

#[test]
fn encode_disconnect_exact() {
    assert_eq!(Message::Disconnect.encode(), "\"Disconnect\"\n");
}

#[test]
fn encode_invalid_message_exact() {
    assert_eq!(Message::InvalidMessage.encode(), "\"InvalidMessage\"\n");
}

#[test]
fn encode_text_exact() {
    assert_eq!(Message::Text("hi".to_string()).encode(), "{\"Text\":\"hi\"}\n");
}

#[test]
fn encode_error_exact() {
    assert_eq!(Message::Error("bad".to_string()).encode(), "{\"Error\":\"bad\"}\n");
}

#[test]
fn encode_escapes_quotes_and_backslashes() {
    let m = Message::Text("a\"b\\c".to_string());
    assert_eq!(m.encode(), "{\"Text\":\"a\\\"b\\\\c\"}\n");
}

#[test]
fn encode_escapes_control_characters() {
    let m = Message::Text("\n\t\r\u{8}\u{c}\u{1f}".to_string());
    assert_eq!(m.encode(), "{\"Text\":\"\\n\\t\\r\\b\\f\\u001f\"}\n");
}

#[test]
fn encode_ends_in_one_newline() {
    let s = Message::Text("x".to_string()).encode();
    assert!(s.ends_with('\n'));
    assert!(!s[..s.len() - 1].contains('\n'));
}

#[test]
fn round_trip_unit_variants() {
    for m in [Message::Ping, Message::Disconnect, Message::InvalidMessage] {
        let line = m.encode();
        assert_eq!(Message::decode(&line).unwrap(), m);
    }
}

#[test]
fn round_trip_empty_text() {
    let m = Message::Text(String::new());
    assert_eq!(Message::decode(&m.encode()).unwrap(), m);
}

#[test]
fn round_trip_text_with_quotes_and_unicode() {
    let m = Message::Text("he said \"héllo\" \u{1f30d} \\ end".to_string());
    assert_eq!(Message::decode(&m.encode()).unwrap(), m);
}

#[test]
fn round_trip_text_with_controls() {
    let m = Message::Text("line1\nline2\ttab\u{0}\u{1f}".to_string());
    assert_eq!(Message::decode(&m.encode()).unwrap(), m);
}

#[test]
fn round_trip_error_payload() {
    let m = Message::Error("broken \"pipe\"\n".to_string());
    assert_eq!(Message::decode(&m.encode()).unwrap(), m);
}

#[test]
fn decode_accepts_line_without_newline() {
    assert_eq!(Message::decode("\"Ping\"").unwrap(), Message::Ping);
    assert_eq!(
        Message::decode("{\"Text\":\"hi\"}").unwrap(),
        Message::Text("hi".to_string())
    );
}

#[test]
fn decode_unicode_escape_both_cases() {
    assert_eq!(
        Message::decode("{\"Text\":\"\\u001f\"}\n").unwrap(),
        Message::Text("\u{1f}".to_string())
    );
    assert_eq!(
        Message::decode("{\"Text\":\"\\u001F\"}\n").unwrap(),
        Message::Text("\u{1f}".to_string())
    );
}

#[test]
fn decode_rejects_garbage() {
    assert!(matches!(Message::decode("not json\n"), Err(Error::JsonError)));
    assert!(matches!(Message::decode(""), Err(Error::JsonError)));
    assert!(matches!(Message::decode("\"Pong\"\n"), Err(Error::JsonError)));
    assert!(matches!(
        Message::decode("{\"Frob\":\"x\"}\n"),
        Err(Error::JsonError)
    ));
}

#[test]
fn decode_rejects_bad_escapes() {
    assert!(matches!(
        Message::decode("{\"Text\":\"\\q\"}\n"),
        Err(Error::JsonError)
    ));
    assert!(matches!(
        Message::decode("{\"Text\":\"\\u00\"}\n"),
        Err(Error::JsonError)
    ));
    // this decoder only reads back the control-range escapes it writes
    assert!(matches!(
        Message::decode("{\"Text\":\"\\u0041\"}\n"),
        Err(Error::JsonError)
    ));
}

#[test]
fn decode_rejects_unclosed_payload() {
    assert!(matches!(
        Message::decode("{\"Text\":\"abc\n"),
        Err(Error::JsonError)
    ));
}

#[test]
fn encoded_unit_variant_is_json() {
    let v: serde_json::Value = serde_json::from_str(Message::Ping.encode().as_str()).unwrap();
    assert_eq!(v, serde_json::Value::String("Ping".to_string()));
}

#[test]
fn encoded_text_is_json() {
    let payload = "a\"b\\c\nπ";
    let m = Message::Text(payload.to_string());
    let v: serde_json::Value = serde_json::from_str(m.encode().as_str()).unwrap();
    let mut obj = serde_json::Map::new();
    obj.insert(
        "Text".to_string(),
        serde_json::Value::String(payload.to_string()),
    );
    assert_eq!(v, serde_json::Value::Object(obj));
}

#[test]
fn serde_encoded_object_decodes() {
    let payload = "line1\nline2\t\u{1f} \"quoted\"";
    let mut obj = serde_json::Map::new();
    obj.insert(
        "Error".to_string(),
        serde_json::Value::String(payload.to_string()),
    );
    let line = serde_json::to_string(&serde_json::Value::Object(obj)).unwrap();
    assert_eq!(
        Message::decode(&line).unwrap(),
        Message::Error(payload.to_string())
    );
}

#[test]
fn serde_encoded_string_decodes() {
    let line = serde_json::to_string(&serde_json::Value::String("Disconnect".to_string())).unwrap();
    assert_eq!(Message::decode(&line).unwrap(), Message::Disconnect);
}

#[test]
fn message_clone_preserves_value() {
    let m = Message::Text("payload".to_string());
    assert_eq!(m.clone(), m);
}

#[test]
fn describe_shows_the_payload() {
    assert_eq!(Message::Ping.describe(), "Ping");
    assert_eq!(Message::InvalidMessage.describe(), "Invalid message");
    assert_eq!(Message::Text("hi".to_string()).describe(), "'hi'");
    assert_eq!(Message::Error("oops".to_string()).describe(), "error: oops");
}
