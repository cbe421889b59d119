use show_and_tell::framer::MessageParser;
use show_and_tell::messages::MessageIn;

fn drain(parser: &mut MessageParser) -> Vec<MessageIn> {
    let mut out = Vec::new();
    while let Some(msg) = parser.pop() {
        out.push(msg);
    }
    out
}

const STREAM: &[u8] = br#"{"publisher":"p1","id":"m1","objects":[{"id":"1"}]} junk {"publisher":"p2","id":"m2","objects":[]}{"publisher":"p3","id":"m3","objects":[]}"#;

#[test]
fn frames_split_anywhere_decode_the_same() {
    // the whole stream at once
    let mut whole = MessageParser::new();
    assert_eq!(whole.push(STREAM), 0);
    let expected: Vec<MessageIn> = drain(&mut whole);
    assert_eq!(expected.len(), 3);

    // one byte at a time
    let mut chunked = MessageParser::new();
    for b in STREAM {
        assert_eq!(chunked.push(&[*b]), 0);
    }
    let got = drain(&mut chunked);
    assert_eq!(got.len(), expected.len());
    for (a, b) in got.iter().zip(expected.iter()) {
        assert_eq!(a.publisher, b.publisher);
        assert_eq!(a.id, b.id);
        assert_eq!(a.objects.len(), b.objects.len());
    }

    // a few uneven cuts
    for cut in [1, 7, 25, 52, 53, STREAM.len() - 1] {
        let mut parser = MessageParser::new();
        let dropped = parser.push(&STREAM[..cut]) + parser.push(&STREAM[cut..]);
        assert_eq!(dropped, 0);
        let got = drain(&mut parser);
        assert_eq!(got.len(), 3, "cut at {cut}");
        assert_eq!(got[0].publisher, "p1");
        assert_eq!(got[1].publisher, "p2");
        assert_eq!(got[2].publisher, "p3");
    }
}

#[test]
fn partial_frame_waits_for_the_rest() {
    let mut parser = MessageParser::new();
    assert_eq!(parser.push(br#"{"publisher":"p","id":"#), 0);
    assert!(parser.pop().is_none());
    assert_eq!(parser.push(br#""m","objects":[]}"#), 0);
    let msg = parser.pop().expect("completed frame should decode");
    assert_eq!(msg.publisher, "p");
    assert_eq!(msg.id, "m");
    assert!(parser.pop().is_none());
}

#[test]
fn malformed_frame_is_dropped_and_scanning_continues() {
    let mut parser = MessageParser::new();
    let dropped = parser.push(br#"{"not json"} {"publisher":"p","id":"m","objects":[]}"#);
    assert_eq!(dropped, 1);
    let msg = parser.pop().expect("the later frame still decodes");
    assert_eq!(msg.publisher, "p");
    assert!(parser.pop().is_none());
}

#[test]
fn text_outside_braces_is_dropped_silently() {
    let mut parser = MessageParser::new();
    // no frame was cut, so nothing counts as dropped
    assert_eq!(parser.push(b"   garbage } ] no frames here\n"), 0);
    assert!(parser.pop().is_none());
}

#[test]
fn invalid_utf8_frame_is_dropped() {
    let mut parser = MessageParser::new();
    assert_eq!(parser.push(b"{\"publisher\":\"\xff\xfe\",\"id\":\"m\",\"objects\":[]}"), 1);
    assert!(parser.pop().is_none());
    assert_eq!(parser.push(br#"{"publisher":"p","id":"m","objects":[]}"#), 0);
    assert!(parser.pop().is_some());
}

#[test]
fn braces_inside_strings_cut_frames_early() {
    // Framing counts raw braces and is not string-literal-aware: a `}` in
    // a value ends the frame early, the truncated frame fails to decode
    // and is dropped.
    let mut parser = MessageParser::new();
    let dropped = parser.push(br#"{"publisher":"a}b","id":"m","objects":[]}"#);
    assert!(dropped >= 1);
    assert!(parser.pop().is_none());
}

#[test]
fn nested_objects_stay_in_one_frame() {
    let mut parser = MessageParser::new();
    assert_eq!(parser.push(br#"{"publisher":"p","id":"m","objects":[{"a":"1"},{"b":"2"}]}"#), 0);
    let msg = parser.pop().expect("nested braces balance out");
    assert_eq!(msg.objects.len(), 2);
}
