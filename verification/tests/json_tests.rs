//! The JSON codec against real documents and against serde_json.

use openai_hub::json::parse::parse;
use openai_hub::json::{to_bytes, JsonValue};

fn obj(members: Vec<(&str, JsonValue)>) -> JsonValue {
    JsonValue::Obj(
        members.into_iter().map(|(k, v)| (k.as_bytes().to_vec(), v)).collect(),
    )
}

fn s(text: &str) -> JsonValue {
    JsonValue::Str(text.as_bytes().to_vec())
}

#[test]
fn serializes_chat_request() {
    let v = obj(vec![
        ("model", s("gpt-4")),
        (
            "messages",
            JsonValue::Arr(vec![obj(vec![("role", s("user")), ("content", s("hi"))])]),
        ),
    ]);
    let bytes = to_bytes(&v);
    assert_eq!(
        String::from_utf8(bytes).unwrap(),
        r#"{"model":"gpt-4","messages":[{"role":"user","content":"hi"}]}"#
    );
}

#[test]
fn round_trips_via_parse() {
    let v = obj(vec![
        ("a", JsonValue::Int(-42)),
        ("b", JsonValue::Bool(true)),
        ("c", JsonValue::Null),
        ("d", JsonValue::NumRaw(b"1.5e3".to_vec())),
        ("e", JsonValue::Arr(vec![JsonValue::Int(1), s("x\"y\\z")])),
    ]);
    let bytes = to_bytes(&v);
    let parsed = parse(&bytes).expect("own output parses");
    let again = to_bytes(&parsed);
    assert_eq!(bytes, again);
}

#[test]
fn parses_whitespace_and_escapes() {
    let text = br#" { "a" : "line\nfeed" , "n" : [ 1 , 22 ] } "#;
    let v = parse(text).expect("parses");
    let a = v.get(b"a").unwrap().as_str_bytes().unwrap();
    assert_eq!(a.as_slice(), b"line\nfeed");
    // control bytes are re-emitted as \u00XX escapes
    let out = String::from_utf8(to_bytes(&v)).unwrap();
    assert_eq!(out, "{\"a\":\"line\\u000afeed\",\"n\":[1,22]}");
}

#[test]
fn agrees_with_serde_on_integers() {
    for text in ["0", "-7", "9223372036854775807", "-9223372036854775808"] {
        let mine = parse(text.as_bytes()).expect("parses");
        let theirs: serde_json::Value = serde_json::from_str(text).unwrap();
        assert_eq!(
            String::from_utf8(to_bytes(&mine)).unwrap(),
            serde_json::to_string(&theirs).unwrap()
        );
    }
}

#[test]
fn keeps_fraction_and_exponent_lexemes_verbatim() {
    for text in ["12.5", "3e8", "-0.25e-2", "18446744073709551615"] {
        let mine = parse(text.as_bytes()).expect("parses");
        assert_eq!(String::from_utf8(to_bytes(&mine)).unwrap(), text);
    }
}

#[test]
fn rejects_malformed_documents() {
    for text in ["{", "[1,", "\"unterminated", "01", "tru", "{\"a\" 1}", ""] {
        assert!(parse(text.as_bytes()).is_none(), "accepted {text:?}");
    }
}

#[test]
fn get_takes_last_duplicate_key() {
    let v = parse(br#"{"m":"a","m":"b"}"#).unwrap();
    assert_eq!(v.get(b"m").unwrap().as_str_bytes().unwrap().as_slice(), b"b");
}

#[test]
fn surrogate_pair_escapes_decode() {
    let v = parse(br#""\ud83d\ude00""#).unwrap();
    match v {
        JsonValue::Str(bytes) => assert_eq!(String::from_utf8(bytes).unwrap(), "\u{1f600}"),
        _ => panic!("expected a string"),
    }
}
