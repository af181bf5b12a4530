use kvs_server::codec::{encode_get_response, encode_mut_response, encode_request};
use kvs_server::parse::{decode_request, Decoded};
use kvs_server::protocol::{GetResponse, MutResponse, Request};

fn chars(s: &str) -> Vec<char> {
    s.chars().collect()
}

#[test]
fn encode_get_request_wire_form() {
    let enc = encode_request(&Request::Get { key: "a".to_string() });
    assert_eq!(enc, "{\"Get\":{\"key\":\"a\"}}");
}

#[test]
fn encode_put_request_wire_form() {
    let enc = encode_request(&Request::Put { key: "a".to_string(), value: "1".to_string() });
    assert_eq!(enc, "{\"Set\":{\"key\":\"a\",\"value\":\"1\"}}");
}

#[test]
fn encode_remove_request_wire_form() {
    let enc = encode_request(&Request::Remove { key: "a".to_string() });
    assert_eq!(enc, "{\"Remove\":{\"key\":\"a\"}}");
}

#[test]
fn encode_responses_wire_form() {
    assert_eq!(encode_get_response(&GetResponse::Value(Some("1".to_string()))), "{\"Ok\":\"1\"}");
    assert_eq!(encode_get_response(&GetResponse::Value(None)), "{\"Ok\":null}");
    assert_eq!(encode_get_response(&GetResponse::Fail("boom".to_string())), "{\"Err\":\"boom\"}");
    assert_eq!(encode_mut_response(&MutResponse::Done), "{\"Ok\":null}");
    assert_eq!(encode_mut_response(&MutResponse::Fail("boom".to_string())), "{\"Err\":\"boom\"}");
}

#[test]
fn encode_escapes_specials() {
    let enc = encode_request(&Request::Get { key: "a\"b\\c\nd".to_string() });
    assert_eq!(enc, "{\"Get\":{\"key\":\"a\\\"b\\\\c\\nd\"}}");
}

#[test]
fn requests_parse_as_json() {
    for req in [
        Request::Get { key: "some key".to_string() },
        Request::Put { key: "k\t1".to_string(), value: "v \"quoted\"".to_string() },
        Request::Remove { key: "gone".to_string() },
    ] {
        let enc = encode_request(&req);
        let v: serde_json::Value = serde_json::from_str(&enc).expect("wire text must be JSON");
        match req {
            Request::Get { key } => assert_eq!(v["Get"]["key"], serde_json::Value::String(key)),
            Request::Put { key, value } => {
                assert_eq!(v["Set"]["key"], serde_json::Value::String(key));
                assert_eq!(v["Set"]["value"], serde_json::Value::String(value));
            }
            Request::Remove { key } => {
                assert_eq!(v["Remove"]["key"], serde_json::Value::String(key))
            }
        }
    }
}

#[test]
fn decode_round_trips_requests() {
    for req in [
        Request::Get { key: "k".to_string() },
        Request::Put { key: "weird \"key\"\\".to_string(), value: "line\nbreak\tand\rmore".to_string() },
        Request::Remove { key: "".to_string() },
    ] {
        let enc = encode_request(&req);
        let buf = chars(&enc);
        match decode_request(&buf, 0) {
            Decoded::Value { req: got, next } => {
                assert_eq!(got, req);
                assert_eq!(next, buf.len());
            }
            _ => panic!("round trip failed for {:?}", req),
        }
    }
}

#[test]
fn decode_back_to_back_values() {
    let a = encode_request(&Request::Put { key: "a".to_string(), value: "1".to_string() });
    let b = encode_request(&Request::Get { key: "a".to_string() });
    let buf = chars(&format!("{}{}", a, b));
    let next = match decode_request(&buf, 0) {
        Decoded::Value { req, next } => {
            assert_eq!(req, Request::Put { key: "a".to_string(), value: "1".to_string() });
            next
        }
        _ => panic!("first value not decoded"),
    };
    match decode_request(&buf, next) {
        Decoded::Value { req, next } => {
            assert_eq!(req, Request::Get { key: "a".to_string() });
            assert_eq!(next, buf.len());
        }
        _ => panic!("second value not decoded"),
    }
}

#[test]
fn decode_accepts_whitespace_and_escapes() {
    let buf = chars(" {\t\"Set\" : { \"key\" : \"a\\\"b\" , \"value\" : \"x\\/y\" } } ");
    match decode_request(&buf, 0) {
        Decoded::Value { req, next } => {
            assert_eq!(req, Request::Put { key: "a\"b".to_string(), value: "x/y".to_string() });
            match decode_request(&buf, next) {
                Decoded::End => {}
                _ => panic!("trailing whitespace must read as a clean end"),
            }
        }
        _ => panic!("value not decoded"),
    }
}

#[test]
fn decode_accepts_unicode_escapes() {
    let buf = chars("{\"Get\":{\"key\":\"a\\u0041b\"}}");
    match decode_request(&buf, 0) {
        Decoded::Value { req, next } => {
            assert_eq!(req, Request::Get { key: "aAb".to_string() });
            assert_eq!(next, buf.len());
        }
        _ => panic!("unicode escape not decoded"),
    }
    // An escape naming a code point past the byte range is refused.
    let big = chars("{\"Get\":{\"key\":\"\\u0100\"}}");
    assert!(matches!(decode_request(&big, 0), Decoded::Malformed));
}

#[test]
fn control_characters_round_trip_escaped() {
    let req = Request::Put { key: "k\u{1}\u{1f}".to_string(), value: "v\u{8}\u{c}".to_string() };
    let enc = encode_request(&req);
    assert_eq!(enc, "{\"Set\":{\"key\":\"k\\u0001\\u001f\",\"value\":\"v\\b\\f\"}}");
    // And the wire text is strict JSON.
    let v: serde_json::Value = serde_json::from_str(&enc).expect("wire text must be JSON");
    assert_eq!(v["Set"]["key"], serde_json::Value::String("k\u{1}\u{1f}".to_string()));
    let buf = chars(&enc);
    match decode_request(&buf, 0) {
        Decoded::Value { req: got, next } => {
            assert_eq!(got, req);
            assert_eq!(next, buf.len());
        }
        _ => panic!("control characters must round trip"),
    }
}

#[test]
fn decode_whitespace_only_is_clean_end() {
    let buf = chars("  \r\n\t ");
    assert!(matches!(decode_request(&buf, 0), Decoded::End));
    let empty: Vec<char> = Vec::new();
    assert!(matches!(decode_request(&empty, 0), Decoded::End));
}

#[test]
fn decode_partial_value_is_incomplete() {
    for text in ["{", "{\"Get\"", "{\"Get\":{\"key\":\"a", "{\"Get\":{\"key\":\"a\"}"] {
        let buf = chars(text);
        assert!(
            matches!(decode_request(&buf, 0), Decoded::Incomplete),
            "expected incomplete for {:?}",
            text
        );
    }
}

#[test]
fn decode_malformed_value_is_error() {
    for text in ["x", "[1]", "{\"Push\":{\"key\":\"a\"}}", "{\"Get\":[]}", "{\"Get\":{\"k\":\"a\"}}"] {
        let buf = chars(text);
        assert!(
            matches!(decode_request(&buf, 0), Decoded::Malformed),
            "expected malformed for {:?}",
            text
        );
    }
}
