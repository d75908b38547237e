//! The proxy core's decisions: what goes upstream, and the error envelope.
//!
//! The actual network call lives in the async shell; what is verified here
//! is the request plan — the upstream URL, the replaced authorization
//! header, and which client headers are carried over — and the exact JSON
//! error envelope sent back to clients.

use crate::acl::AclError;
use crate::json::{spec_ser, to_bytes, JsonValue, Jv};
use vstd::prelude::*;
use vstd::string::StrSliceExecFns;
use vstd::utf8::encode_utf8;

verus! {

/// The error envelope: status plus `{"error":{"message":...}}`.
pub struct ErrorResponse {
    status_code: u16,
    message: Vec<u8>,
}

/// The envelope document for a message.
pub open spec fn spec_envelope(msg: Seq<u8>) -> Jv {
    Jv::Obj(
        seq![
            (
                encode_utf8("error"@),
                Jv::Obj(seq![(encode_utf8("message"@), Jv::Str(msg))]),
            ),
        ],
    )
}

impl ErrorResponse {
    pub closed spec fn spec_status(&self) -> u16 {
        self.status_code
    }

    pub closed spec fn spec_message(&self) -> Seq<u8> {
        self.message@
    }

    /// Wraps a status and message.
    pub fn new(status_code: u16, message: Vec<u8>) -> (r: ErrorResponse)
        ensures
            r.spec_status() == status_code,
            r.spec_message() == message@,
    {
        ErrorResponse { status_code, message }
    }

    /// The HTTP status to send.
    pub fn status_code(&self) -> (r: u16)
        ensures
            r == self.spec_status(),
    {
        self.status_code
    }

    /// The envelope body: `{"error":{"message":...}}` as JSON bytes.
    pub fn body(&self) -> (r: Vec<u8>)
        ensures
            r@ == spec_ser(spec_envelope(self.spec_message())),
    {
        let mut inner: Vec<(Vec<u8>, JsonValue)> = Vec::new();
        let msg = crate::json::copy_range(self.message.as_slice(), 0, self.message.len());
        proof {
            assert(msg@ =~= self.message@);
        }
        inner.push((("message").as_bytes_vec(), JsonValue::Str(msg)));
        let ghost innerv = inner@;
        let mut outer: Vec<(Vec<u8>, JsonValue)> = Vec::new();
        outer.push((("error").as_bytes_vec(), JsonValue::Obj(inner)));
        let doc = JsonValue::Obj(outer);
        proof {
            crate::json::lemma_jv_members(innerv);
            crate::json::lemma_jv_members(outer@);
            assert(crate::json::jv_members(innerv) =~~= seq![
                (encode_utf8("message"@), Jv::Str(self.message@)),
            ]);
            assert(crate::json::jv_members(outer@) =~~= spec_envelope(
                self.spec_message(),
            )->Obj_0);
            assert(doc@ == spec_envelope(self.spec_message()));
        }
        to_bytes(&doc)
    }

    /// The envelope for a policy rejection: the policy's own status and
    /// message.
    pub fn of_acl_error(e: &AclError) -> (r: ErrorResponse)
        ensures
            r.spec_status() == (if e is MethodNotAllowed {
                405int
            } else {
                403int
            }),
            r.spec_message() == e.spec_message(),
    {
        ErrorResponse::new(e.status_code(), e.message())
    }
}

/// `openai timeout`.
pub open spec fn timeout_word() -> Seq<u8> {
    encode_utf8("openai timeout"@)
}

/// Maps an upstream failure to a response: a timeout becomes 504 with the
/// fixed message, anything else becomes 500 carrying the failure's text.
pub fn request_error_into_response(is_timeout: bool, message: Vec<u8>) -> (r: ErrorResponse)
    ensures
        is_timeout ==> r.spec_status() == 504 && r.spec_message() == timeout_word(),
        !is_timeout ==> r.spec_status() == 500 && r.spec_message() == message@,
{
    if is_timeout {
        ErrorResponse::new(504, ("openai timeout").as_bytes_vec())
    } else {
        ErrorResponse::new(500, message)
    }
}

/// The upstream URL: the configured base with the request path appended.
pub fn upstream_url(api_base: &str, path: &[u8]) -> (r: Vec<u8>)
    ensures
        r@ == encode_utf8(api_base@) + path@,
{
    let mut out = api_base.as_bytes_vec();
    out.extend_from_slice(path);
    out
}

/// `Bearer ` followed by the leased credential.
pub open spec fn bearer_value(key: Seq<char>) -> Seq<u8> {
    crate::jwt::bearer_prefix() + encode_utf8(key)
}

/// The headers the proxy sends upstream: the client's authorization is
/// replaced with the leased credential, and only `Content-Type` and
/// `Accept` are carried over, each when the client sent it.
pub fn upstream_headers(
    key: &str,
    content_type: Option<&Vec<u8>>,
    accept: Option<&Vec<u8>>,
) -> (r: Vec<(Vec<u8>, Vec<u8>)>)
    ensures
        r.deep_view() == seq![(encode_utf8("authorization"@), bearer_value(key@))] + (
        match content_type {
            Some(ct) => seq![(encode_utf8("content-type"@), ct@)],
            None => Seq::<(Seq<u8>, Seq<u8>)>::empty(),
        }) + (match accept {
            Some(a) => seq![(encode_utf8("accept"@), a@)],
            None => Seq::<(Seq<u8>, Seq<u8>)>::empty(),
        }),
{
    let mut out: Vec<(Vec<u8>, Vec<u8>)> = Vec::new();
    let mut auth: Vec<u8> = Vec::new();
    auth.push(0x42);
    auth.push(0x65);
    auth.push(0x61);
    auth.push(0x72);
    auth.push(0x65);
    auth.push(0x72);
    auth.push(0x20);
    let kb = key.as_bytes_vec();
    auth.extend_from_slice(kb.as_slice());
    proof {
        assert(auth@ =~= bearer_value(key@));
    }
    out.push((("authorization").as_bytes_vec(), auth));
    match content_type {
        Some(ct) => {
            let c = crate::json::copy_range(ct.as_slice(), 0, ct.len());
            proof {
                assert(c@ =~= ct@);
            }
            out.push((("content-type").as_bytes_vec(), c));
        },
        None => {},
    }
    match accept {
        Some(a) => {
            let c = crate::json::copy_range(a.as_slice(), 0, a.len());
            proof {
                assert(c@ =~= a@);
            }
            out.push((("accept").as_bytes_vec(), c));
        },
        None => {},
    }
    proof {
        assert(out.deep_view() =~~= seq![(encode_utf8("authorization"@), bearer_value(key@))] + (
        match content_type {
            Some(ct) => seq![(encode_utf8("content-type"@), ct@)],
            None => Seq::<(Seq<u8>, Seq<u8>)>::empty(),
        }) + (match accept {
            Some(a) => seq![(encode_utf8("accept"@), a@)],
            None => Seq::<(Seq<u8>, Seq<u8>)>::empty(),
        }));
    }
    out
}

} // verus!
