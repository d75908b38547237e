//! Verified core of an OpenAI-compatible reverse-proxy gateway.
//!
//! The crate holds the request-processing logic of the gateway: the bounded
//! credential pool, the rule matchers compiled from the access-control policy,
//! the policy evaluator itself, the byte-stream tee, the bearer-token
//! verifier, the audit records with their JSON serialization, and the
//! token-usage accounting over streamed completions. The surrounding HTTP
//! plumbing lives outside the verified library.

use vstd::prelude::*;

pub mod acl;
pub mod audit;
pub mod bridge;
pub mod config;
pub mod json;
pub mod jwt;
pub mod keypool;
pub mod matcher;
pub mod proxy;
pub mod tee;
pub mod tokens;
