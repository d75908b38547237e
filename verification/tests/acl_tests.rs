//! The policy evaluator: the gates, the validators and the error texts.

use openai_hub::acl::{
    default_true, AclDocument, AclError, ApiAcl, Method, ModelOption, ModelOptionDoc,
    ModelValidator,
};
use openai_hub::json::parse::parse;

fn b(s: &str) -> Vec<u8> {
    s.as_bytes().to_vec()
}

/// A whitelist policy: POST only, `/completions` and `/chat/completions`
/// open, `gpt-*` models on chat, deployment `prod-1` allowed.
fn sample_policy() -> ApiAcl {
    ApiAcl::load(AclDocument {
        whitelist: default_true(),
        methods: vec![(Method::Post, true)],
        allow_deployments: vec![b("prod-1")],
        endpoint: vec![(
            Method::Post,
            vec![(b("/completions"), true), (b("/chat/completions"), true)],
        )],
        model: vec![(
            Method::Post,
            vec![(
                b("/chat/completions"),
                ModelOptionDoc {
                    path: false,
                    allows: vec![b("gpt-*")],
                    disallows: vec![b("gpt-3*")],
                    allow_omitted: false,
                },
            )],
        )],
    })
}

#[test]
fn method_gate_rejects_delete() {
    let acl = sample_policy();
    match acl.validate(Method::Delete, b"/v1/models/x") {
        Err(e @ AclError::MethodNotAllowed(_)) => {
            assert_eq!(e.message(), b"Method DELETE not allowed".to_vec());
            assert_eq!(e.status_code(), 405);
        },
        _ => panic!("expected the method gate to fire"),
    }
}

#[test]
fn endpoint_gate_rejects_unlisted_path() {
    let acl = sample_policy();
    match acl.validate(Method::Post, b"/v1/other") {
        Err(e @ AclError::EndpointNotAllowed(_, _)) => {
            assert_eq!(e.message(), b"Endpoint POST /v1/other not allowed".to_vec());
            assert_eq!(e.status_code(), 403);
        },
        _ => panic!("expected the endpoint gate to fire"),
    }
}

#[test]
fn deployment_prefix_is_stripped_then_rules_apply() {
    let acl = sample_policy();
    // the allowed deployment forwards: the rules see `/completions`
    assert!(matches!(acl.validate(Method::Post, b"/engines/prod-1/completions"), Ok(None)));
    // an unknown deployment is rejected before the endpoint gate
    match acl.validate(Method::Post, b"/engines/dev-9/completions") {
        Err(e @ AclError::DeploymentNotAllowed(_)) => {
            assert_eq!(e.message(), b"Deployment dev-9 not allowed".to_vec());
        },
        _ => panic!("expected the deployment gate to fire"),
    }
}

#[test]
fn body_validator_checks_the_model_field() {
    let acl = sample_policy();
    let validator = match acl.validate(Method::Post, b"/chat/completions") {
        Ok(Some(v)) => v,
        _ => panic!("expected a body validator"),
    };
    assert!(validator.validate_path(b"/chat/completions").is_ok());
    let good = parse(br#"{"model":"gpt-4"}"#).unwrap();
    assert!(validator.validate_body(&good).is_ok());
    let disallowed = parse(br#"{"model":"gpt-3.5-turbo"}"#).unwrap();
    match validator.validate_body(&disallowed) {
        Err(e @ AclError::ModelNotAllowed(_)) => {
            assert_eq!(e.message(), b"Model gpt-3.5-turbo not allowed".to_vec());
        },
        _ => panic!("expected the model to be disallowed"),
    }
    let missing = parse(br#"{"messages":[]}"#).unwrap();
    assert!(matches!(validator.validate_body(&missing), Err(AclError::MissingModel)));
}

#[test]
fn validation_is_repeatable() {
    let acl = sample_policy();
    let first = format!("{:?}", acl.validate(Method::Delete, b"/x").err().map(|e| e.message()));
    let second = format!("{:?}", acl.validate(Method::Delete, b"/x").err().map(|e| e.message()));
    assert_eq!(first, second);
}

#[test]
fn path_rule_validates_the_captured_model() {
    let acl = ApiAcl::load(AclDocument {
        whitelist: true,
        methods: vec![(Method::Post, true)],
        allow_deployments: vec![],
        endpoint: vec![(Method::Post, vec![(b("/v1/engines/{name}/completions"), true)])],
        model: vec![(
            Method::Post,
            vec![(
                b("/v1/engines/{model}/completions"),
                ModelOptionDoc {
                    path: true,
                    allows: vec![b("ada"), b("babbage")],
                    disallows: vec![],
                    allow_omitted: false,
                },
            )],
        )],
    });
    let v = match acl.validate(Method::Post, b"/v1/engines/ada/completions") {
        Ok(Some(v @ ModelValidator::Path(_, _))) => v,
        _ => panic!("expected a path validator"),
    };
    assert!(v.validate_path(b"/v1/engines/ada/completions").is_ok());
    assert!(v.validate_path(b"/v1/engines/curie/completions").is_err());
}

#[test]
fn default_model_option_allows_everything_but_omission() {
    let opt = ModelOption::default();
    assert!(opt.validate(Some(b"anything-at-all")).is_ok());
    assert!(matches!(opt.validate(None), Err(AclError::MissingModel)));
}
