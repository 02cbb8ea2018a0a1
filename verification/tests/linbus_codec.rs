use i3more::linbus::conn::{
    auth_accepted, auth_line, hex_encode_uid, line_status, match_reply, name_request_result,
    parse_bus_address, take_message, unique_name_of, LineStatus, ReplyMatch,
};
use i3more::linbus::dispatch::{handler_reply, route, PropertyStore, Route};
use i3more::linbus::error::LinbusError;
use i3more::linbus::marshal;
use i3more::linbus::message::{marshal_message, message_length, read_message, Message, MessageType};
use i3more::linbus::signature;
use i3more::linbus::unmarshal::Reader;
use i3more::linbus::value::Value;

#[test]
fn test_signature_parsing() {
    let types = signature::split_signature("su").unwrap();
    assert_eq!(types, vec!["s", "u"]);

    let types = signature::split_signature("a{sv}").unwrap();
    assert_eq!(types, vec!["a{sv}"]);

    let types = signature::split_signature("(iiibiiay)").unwrap();
    assert_eq!(types, vec!["(iiibiiay)"]);

    let types = signature::split_signature("ua{sv}av").unwrap();
    assert_eq!(types, vec!["u", "a{sv}", "av"]);

    assert_eq!(signature::alignment_of("i"), 4);
    assert_eq!(signature::alignment_of("(ii)"), 8);
    assert_eq!(signature::alignment_of("a{sv}"), 4);
    assert_eq!(signature::alignment_of("y"), 1);
    assert_eq!(signature::alignment_of("t"), 8);
}

#[test]
fn test_marshal_unmarshal_roundtrip() {
    let values = vec![
        Value::String("hello".into()),
        Value::U32(42),
        Value::Bool(true),
        Value::I32(-7),
        Value::Byte(0xff),
        Value::Array(vec![Value::String("a".into()), Value::String("b".into())]),
    ];

    let (body, sig) = marshal::marshal_body(&values);
    assert_eq!(sig, "subiyas");

    let mut reader = Reader::new(&body);
    let parsed = reader.read_body(&sig).unwrap();

    assert_eq!(parsed.len(), values.len());
    assert_eq!(parsed[0].as_str(), Some("hello"));
    assert_eq!(parsed[1].as_u32(), Some(42));
    assert_eq!(parsed[2].as_bool(), Some(true));
    assert_eq!(parsed[3].as_i32(), Some(-7));
    assert_eq!(parsed[4].as_u8(), Some(0xff));

    let arr = parsed[5].as_array().unwrap();
    assert_eq!(arr.len(), 2);
    assert_eq!(arr[0].as_str(), Some("a"));
    assert_eq!(arr[1].as_str(), Some("b"));
}

#[test]
fn test_marshal_unmarshal_variant() {
    let values = vec![Value::Variant(Box::new(Value::String("wrapped".into())))];
    let (body, sig) = marshal::marshal_body(&values);
    assert_eq!(sig, "v");

    let mut reader = Reader::new(&body);
    let parsed = reader.read_body(&sig).unwrap();
    let inner = parsed[0].as_variant().unwrap();
    assert_eq!(inner.as_str(), Some("wrapped"));
}

#[test]
fn test_marshal_unmarshal_dict() {
    let values = vec![Value::Dict(vec![
        (Value::String("key1".into()), Value::Variant(Box::new(Value::I32(100)))),
        (Value::String("key2".into()), Value::Variant(Box::new(Value::Bool(false)))),
    ])];

    let (body, sig) = marshal::marshal_body(&values);
    assert_eq!(sig, "a{sv}");

    let mut reader = Reader::new(&body);
    let parsed = reader.read_body(&sig).unwrap();
    let map = parsed[0].to_string_dict().unwrap();
    assert_eq!(map.len(), 2);

    let get = |k: &str| map.iter().find(|(key, _)| key == k).map(|(_, v)| v);
    let v1 = get("key1").unwrap().as_variant().unwrap();
    assert_eq!(v1.as_i32(), Some(100));
    let v2 = get("key2").unwrap().as_variant().unwrap();
    assert_eq!(v2.as_bool(), Some(false));
}

#[test]
fn test_marshal_unmarshal_struct() {
    let values = vec![Value::Struct(vec![
        Value::I32(1),
        Value::String("two".into()),
        Value::Bool(true),
    ])];

    let (body, sig) = marshal::marshal_body(&values);
    assert_eq!(sig, "(isb)");

    let mut reader = Reader::new(&body);
    let parsed = reader.read_body(&sig).unwrap();
    let fields = parsed[0].as_struct_fields().unwrap();
    assert_eq!(fields[0].as_i32(), Some(1));
    assert_eq!(fields[1].as_str(), Some("two"));
    assert_eq!(fields[2].as_bool(), Some(true));
}

#[test]
fn split_signature_rejects_unbalanced() {
    assert!(matches!(signature::split_signature("a{sv"), Err(LinbusError::InvalidSignature(_))));
    assert!(matches!(signature::split_signature("(ii"), Err(LinbusError::InvalidSignature(_))));
}

#[test]
fn marshal_body_exact_bytes() {
    let (body, sig) = marshal::marshal_body(&[Value::Byte(1), Value::U32(2)]);
    assert_eq!(sig, "yu");
    assert_eq!(body, vec![1, 0, 0, 0, 2, 0, 0, 0]);
}

#[test]
fn read_past_end_is_an_error() {
    let data = [1u8, 0];
    let mut reader = Reader::new(&data);
    assert!(reader.read_u32().is_err());
}

#[test]
fn message_roundtrip_keeps_fields() {
    let msg = Message::method_call("org.example", "/org/example", "org.example.Iface", "Do")
        .with_body(vec![Value::String("arg".into()), Value::U32(7)]);
    let bytes = marshal_message(&msg, 9);
    assert_eq!(message_length(&bytes), Some(bytes.len()));
    let (back, used) = read_message(&bytes).unwrap();
    assert_eq!(used, bytes.len());
    assert_eq!(back.msg_type, MessageType::MethodCall);
    assert_eq!(back.serial, 9);
    assert_eq!(back.destination.as_deref(), Some("org.example"));
    assert_eq!(back.path.as_deref(), Some("/org/example"));
    assert_eq!(back.interface.as_deref(), Some("org.example.Iface"));
    assert_eq!(back.member.as_deref(), Some("Do"));
    assert_eq!(back.signature.as_deref(), Some("su"));
    assert_eq!(back.body[0].as_str(), Some("arg"));
    assert_eq!(back.body[1].as_u32(), Some(7));
}

#[test]
fn take_message_splits_stream() {
    let a = marshal_message(&Message::signal("/a", "org.a", "A"), 1);
    let b = marshal_message(&Message::signal("/b", "org.b", "B"), 2);
    let mut buf = a.clone();
    buf.extend_from_slice(&b[..10]);
    let first = take_message(&mut buf).unwrap().unwrap();
    assert_eq!(first.member.as_deref(), Some("A"));
    assert_eq!(buf.len(), 10);
    assert!(take_message(&mut buf).unwrap().is_none());
    assert_eq!(buf.len(), 10);
}

#[test]
fn bus_address_forms() {
    assert_eq!(parse_bus_address("unix:path=/run/user/1000/bus").as_deref(), Some("/run/user/1000/bus"));
    assert_eq!(
        parse_bus_address("unix:abstract=/tmp/dbus-x,guid=abc").as_deref(),
        Some("\0/tmp/dbus-x")
    );
    assert_eq!(
        parse_bus_address("tcp:host=localhost;unix:path=/tmp/s").as_deref(),
        Some("/tmp/s")
    );
    assert_eq!(parse_bus_address("tcp:host=localhost,port=1"), None);
}

#[test]
fn auth_exchange_text() {
    assert_eq!(hex_encode_uid(1000), "31303030");
    assert_eq!(auth_line(1000), "AUTH EXTERNAL 31303030\r\n");
    assert!(auth_accepted("OK 1234deadbeef"));
    assert!(!auth_accepted("REJECTED EXTERNAL"));
}

#[test]
fn line_status_cases() {
    assert!(matches!(line_status(b"OK abc"), LineStatus::Pending));
    match line_status(b"OK abc\r\n") {
        LineStatus::Line(s) => assert_eq!(s, "OK abc"),
        _ => panic!("expected a line"),
    }
    assert!(matches!(line_status(&[0xff, b'\r', b'\n']), LineStatus::Invalid));
    assert!(matches!(line_status(&vec![b'x'; 4097]), LineStatus::TooLong));
}

#[test]
fn reply_matching() {
    let mut ret = Message::method_return(5).with_body(vec![Value::String(":1.42".into())]);
    ret.serial = 3;
    assert!(matches!(match_reply(ret, 6), ReplyMatch::Other));
    let ret = Message::method_return(5).with_body(vec![Value::String(":1.42".into())]);
    match match_reply(ret, 5) {
        ReplyMatch::Reply(m) => assert_eq!(unique_name_of(&m), ":1.42"),
        _ => panic!("expected the reply"),
    }
    let err = Message::error(5, "org.example.Failed", "went wrong");
    match match_reply(err, 5) {
        ReplyMatch::Failed(LinbusError::MethodError { name, message }) => {
            assert_eq!(name, "org.example.Failed");
            assert_eq!(message, "went wrong");
        }
        _ => panic!("expected the failure"),
    }
}

#[test]
fn name_request_codes() {
    assert!(name_request_result(&[Value::U32(1)]).is_ok());
    assert!(name_request_result(&[Value::U32(4)]).is_ok());
    assert!(matches!(name_request_result(&[Value::U32(3)]), Err(LinbusError::NameRequestFailed(3))));
}

#[test]
fn routes_and_properties() {
    let ping = Message::method_call("x", "/", "org.freedesktop.DBus.Peer", "Ping");
    assert_eq!(route(&ping, false), Route::Ping);
    let get = Message::method_call("x", "/", "org.freedesktop.DBus.Properties", "Get");
    assert_eq!(route(&get, false), Route::PropertiesGet);
    let other = Message::method_call("x", "/", "org.example", "Do");
    assert_eq!(route(&other, true), Route::Handler);
    assert_eq!(route(&other, false), Route::Unknown);
    assert_eq!(route(&Message::signal("/", "org.example", "S"), true), Route::NotACall);

    let mut store = PropertyStore::new();
    store.set_property("org.example", "Volume", Value::U32(10));
    store.set_property("org.example", "Volume", Value::U32(20));
    let v = store.get(&"org.example".to_string(), &"Volume".to_string()).unwrap();
    assert_eq!(v.as_u32(), Some(20));
    assert!(store.get(&"org.example".to_string(), &"Muted".to_string()).is_none());
    assert_eq!(store.get_all(&"org.example".to_string()).len(), 1);

    let mut call = Message::method_call("x", "/", "org.example", "Do");
    call.serial = 12;
    let reply = handler_reply(&call, Err("boom".to_string())).unwrap();
    assert_eq!(reply.msg_type, MessageType::Error);
    assert_eq!(reply.reply_serial, Some(12));
    assert_eq!(reply.body[0].as_str(), Some("boom"));
}

#[test]
fn setting_one_property_keeps_the_others() {
    let mut store = PropertyStore::new();
    store.set_property("org.example", "Volume", Value::U32(20));
    store.set_property("org.example", "Muted", Value::Bool(false));
    store.set_property("org.other", "Volume", Value::U32(5));
    store.set_property("org.example", "Muted", Value::Bool(true));
    let get = |i: &str, n: &str| store.get(&i.to_string(), &n.to_string()).map(|v| format!("{:?}", v));
    assert_eq!(get("org.example", "Volume"), Some(format!("{:?}", Value::U32(20))));
    assert_eq!(get("org.other", "Volume"), Some(format!("{:?}", Value::U32(5))));
    assert_eq!(get("org.example", "Muted"), Some(format!("{:?}", Value::Bool(true))));
    assert_eq!(store.get_all(&"org.example".to_string()).len(), 2);
}

#[test]
fn message_with_empty_body_has_no_signature() {
    let msg = Message::method_call("org.freedesktop.DBus", "/org/freedesktop/DBus", "org.freedesktop.DBus", "Hello");
    let bytes = marshal_message(&msg, 1);
    let (back, used) = read_message(&bytes).unwrap();
    assert_eq!(used, bytes.len());
    assert!(back.signature.is_none());
    assert!(back.body.is_empty());
    assert!(back.sender.is_none());
    assert_eq!(back.member.as_deref(), Some("Hello"));
}

#[test]
fn empty_structs_round_trip() {
    let values = vec![
        Value::Byte(1),
        Value::Struct(vec![]),
        Value::Struct(vec![Value::Struct(vec![]), Value::U32(9)]),
        Value::Variant(Box::new(Value::Struct(vec![]))),
    ];
    let (body, sig) = marshal::marshal_body(&values);
    assert_eq!(sig, "y()(()u)v");
    let mut reader = Reader::new(&body);
    let parsed = reader.read_body(&sig).unwrap();
    assert_eq!(parsed, values);
    assert_eq!(reader.pos, body.len());
}
