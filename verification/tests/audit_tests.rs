//! The audit records and their serialized lines.

use base64::Engine;
use openai_hub::audit::{AccessLog, HeaderMapExt, RawHeaders, TokenUsage, TokenUsageLog};

#[test]
fn fresh_record_carries_a_sixteen_char_alnum_ray_id() {
    let log = AccessLog::fresh(1700000000000);
    let ray = log.ray_id_header();
    assert_eq!(ray.len(), 16);
    assert!(ray.chars().all(|c| c.is_ascii_alphanumeric()));
    // the header echoed upstream is the very id the record bears
    let line = String::from_utf8(log.to_json_line()).unwrap();
    assert!(line.contains(&format!("\"ray_id\":\"{}\"", ray)));
}

#[test]
fn distinct_requests_draw_distinct_ray_ids() {
    let a = AccessLog::fresh(0).ray_id_header();
    let b = AccessLog::fresh(0).ray_id_header();
    assert_ne!(a, b);
}

#[test]
fn absent_fields_are_omitted_from_the_line() {
    let log = AccessLog::fresh(42);
    let line = String::from_utf8(log.to_json_line()).unwrap();
    assert!(line.starts_with("{\"timestamp\":42,\"ray_id\":\""));
    assert!(line.ends_with("\"}\n"));
    assert!(!line.contains("\"method\""));
    assert!(!line.contains("\"user\""));
}

#[test]
fn captured_fields_appear_in_record_order() {
    let mut log = AccessLog::fresh(7);
    log.user = Some("alice".to_string());
    log.method = Some("POST".to_string());
    log.uri = Some("/chat/completions".to_string());
    log.body = Some(b"{\"model\":\"gpt-4\"}".to_vec());
    log.response_status = Some(200);
    let line = String::from_utf8(log.to_json_line()).unwrap();
    let user_at = line.find("\"user\":\"alice\"").unwrap();
    let ray_at = line.find("\"ray_id\"").unwrap();
    let method_at = line.find("\"method\":\"POST\"").unwrap();
    let body_at = line.find("\"body\":\"{\\\"model\\\":\\\"gpt-4\\\"}\"").unwrap();
    let status_at = line.find("\"response_status\":200").unwrap();
    assert!(user_at < ray_at && ray_at < method_at && method_at < body_at && body_at < status_at);
}

#[test]
fn binary_bodies_are_shown_as_base64() {
    let mut log = AccessLog::fresh(7);
    let raw = vec![0xFFu8, 0x00, 0x7F, 0xC3];
    log.body = Some(raw.clone());
    let line = String::from_utf8(log.to_json_line()).unwrap();
    let expected = base64::engine::general_purpose::STANDARD.encode(&raw);
    assert!(line.contains(&format!("\"body\":\"{}\"", expected)));
}

#[test]
fn header_map_sorts_names_and_keeps_the_last_duplicate() {
    let raw = RawHeaders(vec![
        ("x-late".to_string(), b"1".to_vec()),
        ("accept".to_string(), b"text/plain".to_vec()),
        ("x-late".to_string(), b"2".to_vec()),
        ("content-type".to_string(), b"application/json".to_vec()),
    ]);
    let shown = raw.as_btree_map();
    // the same pairs collected into a BTreeMap: sorted, last value wins
    let expected: Vec<(String, String)> = vec![
        ("accept".to_string(), "text/plain".to_string()),
        ("content-type".to_string(), "application/json".to_string()),
        ("x-late".to_string(), "2".to_string()),
    ];
    assert_eq!(shown, expected);
}

#[test]
fn header_values_keep_text_and_encode_binary() {
    let raw = RawHeaders(vec![
        ("accept".to_string(), b"application/json".to_vec()),
        ("x-bin".to_string(), vec![0xFF, 0xFE]),
    ]);
    let shown = raw.as_btree_map();
    assert_eq!(shown[0], ("accept".to_string(), "application/json".to_string()));
    assert_eq!(shown[1].0, "x-bin");
    assert_eq!(
        shown[1].1,
        base64::engine::general_purpose::STANDARD.encode([0xFFu8, 0xFE])
    );
}

#[test]
fn token_record_serializes_every_field() {
    let log = TokenUsageLog {
        timestamp_ms: 99,
        user: Some("bob".to_string()),
        ray_id: "RAYRAYRAYRAYRAY1".to_string(),
        model: b"gpt-4".to_vec(),
        usage: TokenUsage { prompt_tokens: 8, completion_tokens: 9, total_tokens: 17 },
        is_estimated: true,
    };
    let line = String::from_utf8(log.to_json_line()).unwrap();
    assert_eq!(
        line,
        "{\"timestamp\":99,\"user\":\"bob\",\"ray_id\":\"RAYRAYRAYRAYRAY1\",\"model\":\"gpt-4\",\
         \"usage\":{\"prompt_tokens\":8,\"completion_tokens\":9,\"total_tokens\":17},\
         \"is_estimated\":true}\n"
    );
}
