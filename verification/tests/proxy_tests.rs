//! The error envelope and the upstream request plan.

use openai_hub::acl::{AclError, Method};
use openai_hub::proxy::{
    request_error_into_response, upstream_headers, upstream_url, ErrorResponse,
};

#[test]
fn envelope_shape_is_exact() {
    let e = ErrorResponse::new(405, b"Method DELETE not allowed".to_vec());
    assert_eq!(e.status_code(), 405);
    assert_eq!(
        String::from_utf8(e.body()).unwrap(),
        r#"{"error":{"message":"Method DELETE not allowed"}}"#
    );
}

#[test]
fn acl_errors_map_to_their_statuses() {
    let m = ErrorResponse::of_acl_error(&AclError::MethodNotAllowed(Method::Delete));
    assert_eq!(m.status_code(), 405);
    let f = ErrorResponse::of_acl_error(&AclError::MissingModel);
    assert_eq!(f.status_code(), 403);
    assert_eq!(
        String::from_utf8(f.body()).unwrap(),
        r#"{"error":{"message":"Missing model"}}"#
    );
}

#[test]
fn rejected_delete_gets_the_exact_envelope() {
    // a whitelist policy with only POST allowed answers DELETE with 405
    let e = ErrorResponse::of_acl_error(&AclError::MethodNotAllowed(Method::Delete));
    assert_eq!(e.status_code(), 405);
    assert_eq!(
        String::from_utf8(e.body()).unwrap(),
        r#"{"error":{"message":"Method DELETE not allowed"}}"#
    );
}

#[test]
fn missing_model_gets_the_exact_envelope() {
    let e = ErrorResponse::new(400, b"missing 'model' field in request body".to_vec());
    assert_eq!(e.status_code(), 400);
    assert_eq!(
        String::from_utf8(e.body()).unwrap(),
        r#"{"error":{"message":"missing 'model' field in request body"}}"#
    );
}

#[test]
fn upstream_failures_map_to_504_and_500() {
    let t = request_error_into_response(true, Vec::new());
    assert_eq!(t.status_code(), 504);
    assert_eq!(
        String::from_utf8(t.body()).unwrap(),
        r#"{"error":{"message":"openai timeout"}}"#
    );
    let o = request_error_into_response(false, b"connection refused".to_vec());
    assert_eq!(o.status_code(), 500);
}

#[test]
fn upstream_request_plan() {
    let url = upstream_url("https://api.openai.com/v1", b"/chat/completions");
    assert_eq!(url, b"https://api.openai.com/v1/chat/completions".to_vec());
    let headers = upstream_headers(
        "sk-123",
        Some(&b"application/json".to_vec()),
        None,
    );
    assert_eq!(headers.len(), 2);
    assert_eq!(headers[0].0, b"authorization".to_vec());
    assert_eq!(headers[0].1, b"Bearer sk-123".to_vec());
    assert_eq!(headers[1].0, b"content-type".to_vec());
    assert_eq!(headers[1].1, b"application/json".to_vec());
}
