//! Token accounting: the admission checks, the event framing and the
//! estimators, cross-checked against tiktoken itself.

use openai_hub::config::StreamTokensPolicy;
use openai_hub::json::parse::parse;
use openai_hub::tokens::{
    account_response, count_chat_tokens, count_completions_tokens, frames_of, get_events,
    tokens_gate, TokensGate,
};
use tiktoken_rs::{get_bpe_from_tokenizer, num_tokens_from_messages, tokenizer::get_tokenizer};

fn endpoints() -> Vec<String> {
    vec!["/completions".to_string(), "/chat/completions".to_string()]
}

#[test]
fn gate_passes_through_uncovered_paths() {
    let g = tokens_gate(
        true,
        &endpoints(),
        StreamTokensPolicy::Estimate,
        b"/v1/models",
        b"{}",
    );
    assert!(matches!(g, TokensGate::Forward));
    let g2 = tokens_gate(
        false,
        &endpoints(),
        StreamTokensPolicy::Estimate,
        b"/completions",
        b"{}",
    );
    assert!(matches!(g2, TokensGate::Forward));
}

#[test]
fn gate_rejects_bad_bodies_and_missing_models() {
    let g = tokens_gate(
        true,
        &endpoints(),
        StreamTokensPolicy::Estimate,
        b"/completions",
        b"not json",
    );
    assert!(matches!(g, TokensGate::RejectBody));
    let g2 = tokens_gate(
        true,
        &endpoints(),
        StreamTokensPolicy::Estimate,
        b"/completions",
        b"{\"prompt\":\"hi\"}",
    );
    assert!(matches!(g2, TokensGate::RejectModel));
}

#[test]
fn gate_applies_the_stream_policy() {
    let body = br#"{"model":"gpt-4","stream":true}"#;
    let rejected = tokens_gate(
        true,
        &endpoints(),
        StreamTokensPolicy::Reject,
        b"/completions",
        body,
    );
    assert!(matches!(rejected, TokensGate::RejectStream));
    match tokens_gate(true, &endpoints(), StreamTokensPolicy::Estimate, b"/completions", body) {
        TokensGate::Account { model, stream, .. } => {
            assert_eq!(model, Some(b"gpt-4".to_vec()));
            assert!(stream);
        },
        _ => panic!("expected the request to be accounted"),
    }
}

#[test]
fn frames_split_on_blank_lines() {
    let got = frames_of(b"a\n\nbb\n\nc");
    assert_eq!(got, vec![b"a".to_vec(), b"bb".to_vec(), b"c".to_vec()]);
    assert_eq!(frames_of(b""), vec![b"".to_vec()]);
}

#[test]
fn events_stop_cleanly_without_a_done_mark() {
    // the stream was cut off before `data: [DONE]`: every complete frame
    // still parses
    let body = b"data: {\"choices\":[]}\n\ndata: {\"choices\":[{\"text\":\"x\",\"index\":0}]}\n\n";
    let evs = get_events(body).expect("events parse");
    assert_eq!(evs.len(), 2);
}

#[test]
fn truncated_trailing_frame_is_ignored() {
    // the stream broke off inside a frame: the complete frames still count,
    // the ragged tail does not spoil them
    let body = b"data: {\"choices\":[]}\n\ndata: {\"cho";
    let evs = get_events(body).expect("complete frames parse");
    assert_eq!(evs.len(), 1);
    // a stream that never completed a single frame yields no events
    assert_eq!(get_events(b"data: {\"choices\":[]}").expect("no complete frame").len(), 0);
}

#[test]
fn later_roles_never_displace_the_first() {
    let req = parse(
        br#"{"model":"gpt-4","messages":[{"role":"user","content":"hi"}],"stream":true}"#,
    )
    .unwrap();
    let events = get_events(
        b"data: {\"choices\":[{\"delta\":{\"role\":\"assistant\",\"content\":\"Hi\"},\"index\":0}]}\n\n\
          data: {\"choices\":[{\"delta\":{\"role\":\"system\",\"content\":\"!\"},\"index\":0}]}\n\n\
          data: [DONE]\n\n",
    )
    .unwrap();
    let usage = count_chat_tokens(b"gpt-4", &req, &events).expect("estimates");
    // the first delta.role fixes the role for the rebuilt messages
    let rebuilt = vec![tiktoken_rs::ChatCompletionRequestMessage {
        role: "assistant".to_string(),
        content: Some("Hi!".to_string()),
        name: None,
        ..Default::default()
    }];
    assert_eq!(usage.completion_tokens, num_tokens_from_messages("gpt-4", &rebuilt).unwrap());
}

#[test]
fn done_mark_and_foreign_frames_are_skipped() {
    let body = b": comment\n\ndata: {\"choices\":[]}\n\ndata: [DONE]\n\n";
    let evs = get_events(body).expect("events parse");
    assert_eq!(evs.len(), 1);
    assert!(get_events(b"data: not-json\n\n").is_none());
}

#[test]
fn completions_estimate_matches_tiktoken() {
    let req = parse(br#"{"model":"gpt-4","prompt":"Hello there, world"}"#).unwrap();
    let events = get_events(
        b"data: {\"choices\":[{\"text\":\"General \",\"index\":0}]}\n\n\
          data: {\"choices\":[{\"text\":\"Kenobi\",\"index\":0}]}\n\ndata: [DONE]\n\n",
    )
    .unwrap();
    let usage = count_completions_tokens(b"gpt-4", &req, &events).expect("estimates");
    let bpe = get_bpe_from_tokenizer(get_tokenizer("gpt-4").unwrap()).unwrap();
    let expect_prompt = bpe.encode_with_special_tokens("Hello there, world").len();
    let expect_completion = bpe.encode_with_special_tokens("General Kenobi").len();
    assert_eq!(usage.prompt_tokens, expect_prompt);
    assert_eq!(usage.completion_tokens, expect_completion);
    assert_eq!(usage.total_tokens, expect_prompt + expect_completion);
}

#[test]
fn chat_estimate_matches_the_chat_formula() {
    let req = parse(
        br#"{"model":"gpt-4","messages":[{"role":"user","content":"hi"}],"stream":true}"#,
    )
    .unwrap();
    let events = get_events(
        b"data: {\"choices\":[{\"delta\":{\"role\":\"assistant\"},\"index\":0}]}\n\n\
          data: {\"choices\":[{\"delta\":{\"content\":\"Hello! How can I help?\"},\"index\":0}]}\n\n\
          data: [DONE]\n\n",
    )
    .unwrap();
    let usage = count_chat_tokens(b"gpt-4", &req, &events).expect("estimates");
    let prompt = vec![tiktoken_rs::ChatCompletionRequestMessage {
        role: "user".to_string(),
        content: Some("hi".to_string()),
        name: None,
        ..Default::default()
    }];
    let rebuilt = vec![tiktoken_rs::ChatCompletionRequestMessage {
        role: "assistant".to_string(),
        content: Some("Hello! How can I help?".to_string()),
        name: None,
        ..Default::default()
    }];
    assert_eq!(usage.prompt_tokens, num_tokens_from_messages("gpt-4", &prompt).unwrap());
    assert_eq!(usage.completion_tokens, num_tokens_from_messages("gpt-4", &rebuilt).unwrap());
}

#[test]
fn plain_responses_report_their_own_usage() {
    let req = parse(br#"{"model":"gpt-4"}"#).unwrap();
    let res = br#"{"id":"x","usage":{"prompt_tokens":3,"completion_tokens":5,"total_tokens":8}}"#;
    let (usage, estimated) = account_response(
        b"/chat/completions",
        StreamTokensPolicy::Estimate,
        false,
        &req,
        Some(res),
    )
    .expect("records");
    assert!(!estimated);
    assert_eq!((usage.prompt_tokens, usage.completion_tokens, usage.total_tokens), (3, 5, 8));
    // a response without usage numbers records nothing
    let bare = account_response(
        b"/chat/completions",
        StreamTokensPolicy::Estimate,
        false,
        &req,
        Some(br#"{"id":"x"}"#),
    );
    assert!(bare.is_none());
}

#[test]
fn skip_policy_records_nothing_for_streams() {
    let req = parse(br#"{"model":"gpt-4"}"#).unwrap();
    let none = account_response(
        b"/completions",
        StreamTokensPolicy::Skip,
        true,
        &req,
        Some(b"data: [DONE]\n\n"),
    );
    assert!(none.is_none());
}

#[test]
fn unsupported_endpoints_are_not_estimated() {
    let req = parse(br#"{"model":"gpt-4","prompt":"x"}"#).unwrap();
    let none = account_response(
        b"/edits",
        StreamTokensPolicy::Estimate,
        true,
        &req,
        Some(b"data: {\"choices\":[]}\n\n"),
    );
    assert!(none.is_none());
}
