use show_and_tell::json::decode_frame;
use show_and_tell::json::encode_message_in;
use show_and_tell::json::encode_message_out;
use show_and_tell::record::record_message_in;
use show_and_tell::record::record_message_out;
use show_and_tell::messages::MessageIn;
use show_and_tell::messages::MessageOut;
use show_and_tell::messages::Object;

#[test]
fn decode_simple_frame() {
    let frame = br#"{"publisher":"p1","id":"m1","objects":[{"id":"5","x":"1"}]}"#;
    let msg = decode_frame(frame).expect("frame should decode");
    assert_eq!(msg.publisher, "p1");
    assert_eq!(msg.id, "m1");
    assert_eq!(msg.objects.len(), 1);
    assert_eq!(msg.objects[0].get("id").unwrap(), "5");
    assert_eq!(msg.objects[0].get("x").unwrap(), "1");
    assert!(msg.objects[0].get("y").is_none());
}

#[test]
fn decode_tolerates_whitespace_and_field_order() {
    let frame = b" \t\r\n{ \"objects\" : [ ] , \"id\" : \"m2\" , \"publisher\" : \"p2\" } \n";
    let msg = decode_frame(frame).expect("frame should decode");
    assert_eq!(msg.publisher, "p2");
    assert_eq!(msg.id, "m2");
    assert_eq!(msg.objects.len(), 0);
}

#[test]
fn decode_ignores_extra_members() {
    let frame = br#"{"publisher":"p","id":"m","note":null,"count":-12.5e+3,"flag":true,"extra":{"deep":[false,"x"]},"objects":[]}"#;
    let msg = decode_frame(frame).expect("frame should decode");
    assert_eq!(msg.publisher, "p");
    assert_eq!(msg.id, "m");
}

#[test]
fn decode_later_duplicate_member_wins() {
    let frame = br#"{"publisher":"old","publisher":"new","id":"m","objects":[{"k":"1","k":"2"}]}"#;
    let msg = decode_frame(frame).expect("frame should decode");
    assert_eq!(msg.publisher, "new");
    assert_eq!(msg.objects[0].get("k").unwrap(), "2");
}

#[test]
fn decode_resolves_escapes() {
    let frame = br#"{"publisher":"a\"b\\c","id":"line\nbreak\ttab\/slash","objects":[]}"#;
    let msg = decode_frame(frame).expect("frame should decode");
    assert_eq!(msg.publisher, "a\"b\\c");
    assert_eq!(msg.id, "line\nbreak\ttab/slash");
}

#[test]
fn decode_accepts_multibyte_text() {
    let frame = "{\"publisher\":\"müll\",\"id\":\"héllo\",\"objects\":[]}".as_bytes();
    let msg = decode_frame(frame).expect("frame should decode");
    assert_eq!(msg.publisher, "müll");
    assert_eq!(msg.id, "héllo");
}

#[test]
fn decode_rejects_malformed_frames() {
    // not an object
    assert!(decode_frame(b"[1,2,3]").is_none());
    // missing required field
    assert!(decode_frame(br#"{"publisher":"p","objects":[]}"#).is_none());
    // wrong type for a required field
    assert!(decode_frame(br#"{"publisher":7,"id":"m","objects":[]}"#).is_none());
    // objects must be an array of flat string maps
    assert!(decode_frame(br#"{"publisher":"p","id":"m","objects":[{"k":1}]}"#).is_none());
    assert!(decode_frame(br#"{"publisher":"p","id":"m","objects":"no"}"#).is_none());
    // trailing garbage after the object
    assert!(decode_frame(br#"{"publisher":"p","id":"m","objects":[]}x"#).is_none());
    // unterminated string
    assert!(decode_frame(br#"{"publisher":"p"#).is_none());
    // invalid UTF-8 inside a string value
    assert!(decode_frame(b"{\"publisher\":\"\xff\",\"id\":\"m\",\"objects\":[]}").is_none());
    // empty input
    assert!(decode_frame(b"").is_none());
    assert!(decode_frame(b"   ").is_none());
}

#[test]
fn decode_resolves_unicode_escapes() {
    let frame = br#"{"publisher":"\u0041\u00e9\u20ac","id":"\ud83d\ude00","objects":[]}"#;
    let msg = decode_frame(frame).expect("unicode escapes should decode");
    assert_eq!(msg.publisher, "A\u{e9}\u{20ac}");
    assert_eq!(msg.id, "\u{1f600}");
}

#[test]
fn decode_rejects_malformed_unicode_escapes() {
    // a lone high surrogate
    assert!(decode_frame(br#"{"publisher":"\ud800","id":"m","objects":[]}"#).is_none());
    // a lone low surrogate
    assert!(decode_frame(br#"{"publisher":"\udc00","id":"m","objects":[]}"#).is_none());
    // a high surrogate followed by a non-surrogate escape
    assert!(decode_frame(br#"{"publisher":"\ud800\n","id":"m","objects":[]}"#).is_none());
    // bad and truncated hex digits
    assert!(decode_frame(br#"{"publisher":"\u12g4","id":"m","objects":[]}"#).is_none());
    assert!(decode_frame(br#"{"publisher":"\u12"#).is_none());
}

#[test]
fn records_are_debug_formatted_lines() {
    let mut attrs = Object::new();
    attrs.insert(String::from("id"), String::from("5"));
    attrs.insert(String::from("x"), String::from("1"));
    let msg = MessageIn {
        publisher: String::from("p1"),
        id: String::from("m1"),
        objects: vec![attrs],
    };
    assert_eq!(
        String::from_utf8(record_message_in(&msg)).unwrap(),
        r#"MessageIn { publisher: "p1", id: "m1", objects: [{"id": "5", "x": "1"}] }"#
    );
    let reply = MessageOut {
        publisher: String::from("p\"1"),
        id: String::from("m1"),
        object_id: 42,
        key_code: String::from("up"),
    };
    assert_eq!(
        String::from_utf8(record_message_out(&reply)).unwrap(),
        "MessageOut { publisher: \"p\\\"1\", id: \"m1\", object_id: 42, key_code: \"up\" }"
    );
}

#[test]
fn decode_rejects_malformed_numbers_in_extras() {
    assert!(decode_frame(br#"{"publisher":"p","id":"m","n":01,"objects":[]}"#).is_none());
    assert!(decode_frame(br#"{"publisher":"p","id":"m","n":1.,"objects":[]}"#).is_none());
    assert!(decode_frame(br#"{"publisher":"p","id":"m","n":1e,"objects":[]}"#).is_none());
    assert!(decode_frame(br#"{"publisher":"p","id":"m","n":1.5e+10,"objects":[]}"#).is_some());
    assert!(decode_frame(br#"{"publisher":"p","id":"m","n":0,"objects":[]}"#).is_some());
}

#[test]
fn encode_outbound_is_one_json_object() {
    let msg = MessageOut {
        publisher: String::from("p1"),
        id: String::from("m1"),
        object_id: 5,
        key_code: String::from("up"),
    };
    let line = encode_message_out(&msg);
    assert_eq!(
        String::from_utf8(line).unwrap(),
        r#"{"publisher":"p1","id":"m1","objectId":5,"keyCode":"up"}"#
    );
}

#[test]
fn encode_outbound_escapes_and_large_ids() {
    let msg = MessageOut {
        publisher: String::from("a\"b"),
        id: String::from("x\\y"),
        object_id: 4294967295,
        key_code: String::from("tab\there"),
    };
    let line = encode_message_out(&msg);
    assert_eq!(
        String::from_utf8(line).unwrap(),
        "{\"publisher\":\"a\\\"b\",\"id\":\"x\\\\y\",\"objectId\":4294967295,\"keyCode\":\"tab\\there\"}"
    );
}

#[test]
fn encode_inbound_round_trips_through_the_decoder() {
    let mut attrs = Object::new();
    attrs.insert(String::from("id"), String::from("5"));
    attrs.insert(String::from("x"), String::from("1"));
    let msg = MessageIn {
        publisher: String::from("p1"),
        id: String::from("m1"),
        objects: vec![attrs],
    };
    let record = encode_message_in(&msg);
    assert_eq!(
        String::from_utf8(record.clone()).unwrap(),
        r#"{"publisher":"p1","id":"m1","objects":[{"id":"5","x":"1"}]}"#
    );
    let back = decode_frame(&record).expect("the record is itself a frame");
    assert_eq!(back.publisher, msg.publisher);
    assert_eq!(back.id, msg.id);
    assert_eq!(back.objects.len(), 1);
    assert_eq!(back.objects[0].get("id").unwrap(), "5");
    assert_eq!(back.objects[0].get("x").unwrap(), "1");
}

#[test]
fn object_insert_overwrites() {
    let mut o = Object::new();
    o.insert(String::from("k"), String::from("1"));
    o.insert(String::from("k"), String::from("2"));
    o.insert(String::from("other"), String::from("3"));
    assert_eq!(o.len(), 2);
    assert_eq!(o.get("k").unwrap(), "2");
    assert_eq!(o.get("other").unwrap(), "3");
}
