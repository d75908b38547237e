//! The wildcard and endpoint matchers, cross-checked against the regex
//! crate on the language they model.

use openai_hub::matcher::{compile_path_template, endpoints_to_regex, wildcards_to_regex};

fn rules(items: &[&str]) -> Vec<Vec<u8>> {
    items.iter().map(|s| s.as_bytes().to_vec()).collect()
}

#[test]
fn wildcard_matches_like_anchored_regex() {
    let set = wildcards_to_regex(rules(&["gpt-*", "text-davinci-003"]));
    let re = regex::Regex::new(r"^(?:(?:gpt\-.*)|(?:text\-davinci\-003))$").unwrap();
    for cand in ["gpt-4", "gpt-", "text-davinci-003", "gpt", "agpt-4", "text-davinci-0034"] {
        assert_eq!(set.is_match(cand.as_bytes()), re.is_match(cand), "on {cand}");
    }
}

#[test]
fn star_rule_matches_every_string() {
    let set = wildcards_to_regex(rules(&["nothing-else", "*"]));
    for cand in ["", "anything", "with\nnewline", "gpt-4"] {
        assert!(set.is_match(cand.as_bytes()));
    }
}

#[test]
fn empty_wildcard_set_matches_nothing() {
    let set = wildcards_to_regex(Vec::new());
    assert!(!set.is_match(b""));
    assert!(!set.is_match(b"gpt-4"));
}

#[test]
fn endpoint_placeholder_matches_one_segment() {
    let set = endpoints_to_regex(rules(&["/v1/{name}/completions", "/v1/models"]));
    assert!(set.is_match(b"/v1/anything/completions"));
    assert!(set.is_match(b"/v1/models"));
    assert!(!set.is_match(b"/v1//completions"));
    assert!(!set.is_match(b"/v1/a/b/completions"));
    assert!(!set.is_match(b"/v1/models/"));
    let re = regex::Regex::new(r"^(?:(?:/v1/(?:[^/]+)/completions)|(?:/v1/models))$").unwrap();
    for cand in ["/v1/x/completions", "/v1/models", "/v1//completions", "/v2/x/completions"] {
        assert_eq!(set.is_match(cand.as_bytes()), re.is_match(cand), "on {cand}");
    }
}

#[test]
fn template_captures_the_model_segment() {
    let t = compile_path_template(b"/v1/engines/{model}/completions".to_vec());
    let got = t.capture(b"/v1/engines/ada/completions").unwrap();
    assert_eq!(got, b"ada".to_vec());
    assert!(t.capture(b"/v1/engines//completions").is_none());
    assert!(t.capture(b"/v1/engines/a/b/completions").is_none());
    assert!(t.matches(b"/v1/engines/zz/completions"));
    assert!(!t.matches(b"/v1/engines/zz/edits"));
}

#[test]
fn template_without_placeholder_matches_only_itself() {
    let t = compile_path_template(b"/v1/edits".to_vec());
    assert!(t.matches(b"/v1/edits"));
    assert!(!t.matches(b"/v1/edits/x"));
    assert!(t.capture(b"/v1/edits").is_none());
}
