//! Bearer-token verification.
//!
//! The gateway accepts `Authorization: Bearer <token>` where the token is a
//! three-part dotted structure: a base64url header naming the `HS256`
//! algorithm, base64url claims, and a base64url HMAC-SHA-256 tag over the
//! first two parts. Verification checks the tag under the configured
//! secret, the `nbf`/`exp` window against the caller's clock reading, and
//! hands back the authenticated subject — or `anonymous` when the claims
//! name none.

use crate::bridge::{b64url_decode, b64url_decoded, hmac_sha256, hmac_sha256_of};
use crate::json::{parse::parse, spec_obj_get, JsonValue, Jv};
use vstd::prelude::*;

verus! {

/// `Bearer ` (trailing blank included).
pub open spec fn bearer_prefix() -> Seq<u8> {
    seq![0x42u8, 0x65u8, 0x61u8, 0x72u8, 0x65u8, 0x72u8, 0x20u8]
}

/// The header value carries a bearer token.
pub open spec fn has_bearer(h: Seq<u8>) -> bool {
    h.len() >= 7 && h.take(7) == bearer_prefix()
}

/// `alg`.
pub open spec fn alg_key() -> Seq<u8> {
    seq![0x61u8, 0x6Cu8, 0x67u8]
}

/// `HS256`.
pub open spec fn hs256_word() -> Seq<u8> {
    seq![0x48u8, 0x53u8, 0x32u8, 0x35u8, 0x36u8]
}

/// `sub`.
pub open spec fn sub_key() -> Seq<u8> {
    seq![0x73u8, 0x75u8, 0x62u8]
}

/// `nbf`.
pub open spec fn nbf_key() -> Seq<u8> {
    seq![0x6Eu8, 0x62u8, 0x66u8]
}

/// `exp`.
pub open spec fn exp_key() -> Seq<u8> {
    seq![0x65u8, 0x78u8, 0x70u8]
}

/// `anonymous`.
pub open spec fn anonymous_word() -> Seq<u8> {
    seq![0x61u8, 0x6Eu8, 0x6Fu8, 0x6Eu8, 0x79u8, 0x6Du8, 0x6Fu8, 0x75u8, 0x73u8]
}

/// First dot at or after `i`.
pub open spec fn dot_end(s: Seq<u8>, i: int) -> int
    decreases s.len() - i,
{
    if 0 <= i < s.len() && s[i] != 0x2E {
        dot_end(s, i + 1)
    } else {
        i
    }
}

/// The three dotted parts of a token with exactly two dots.
pub open spec fn token_parts(tok: Seq<u8>) -> Option<(Seq<u8>, Seq<u8>, Seq<u8>)> {
    let d1 = dot_end(tok, 0);
    let d2 = dot_end(tok, d1 + 1);
    if d1 < tok.len() && d2 < tok.len() && dot_end(tok, d2 + 1) == tok.len() {
        Some((tok.take(d1), tok.subrange(d1 + 1, d2), tok.skip(d2 + 1)))
    } else {
        None
    }
}

/// The header names HS256.
pub open spec fn alg_hs256(header: Jv) -> bool {
    match spec_obj_get(header, alg_key()) {
        Some(Jv::Str(s)) => s == hs256_word(),
        _ => false,
    }
}

/// The claims' optional fields carry the types the verifier reads: a string
/// subject and non-negative integer timestamps.
pub open spec fn claims_ok(claims: Jv) -> bool {
    &&& claims is Obj
    &&& match spec_obj_get(claims, sub_key()) {
        Some(v) => v is Str,
        None => true,
    }
    &&& match spec_obj_get(claims, nbf_key()) {
        Some(v) => v matches Jv::Int(n) && n >= 0,
        None => true,
    }
    &&& match spec_obj_get(claims, exp_key()) {
        Some(v) => v matches Jv::Int(n) && n >= 0,
        None => true,
    }
}

/// The clock reading falls inside the claims' validity window.
pub open spec fn time_ok(claims: Jv, now: u64) -> bool {
    &&& match spec_obj_get(claims, nbf_key()) {
        Some(Jv::Int(n)) => n <= now as int,
        _ => true,
    }
    &&& match spec_obj_get(claims, exp_key()) {
        Some(Jv::Int(e)) => e >= now as int,
        _ => true,
    }
}

/// The subject the claims name, if any.
pub open spec fn claims_sub(claims: Jv) -> Option<Seq<u8>> {
    match spec_obj_get(claims, sub_key()) {
        Some(Jv::Str(s)) => Some(s),
        _ => None,
    }
}

/// What checking a decoded token yields: the subject (or `anonymous`) when
/// the algorithm, the tag, the claim types and the validity window all
/// check out; nothing otherwise.
pub open spec fn spec_check(
    header: Jv,
    claims: Jv,
    signing_input: Seq<u8>,
    signature: Seq<u8>,
    secret: Seq<u8>,
    now: u64,
) -> Option<Seq<u8>> {
    if alg_hs256(header) && hmac_sha256_of(secret, signing_input) == signature && claims_ok(claims)
        && time_ok(claims, now) {
        Some(
            match claims_sub(claims) {
                Some(s) => s,
                None => anonymous_word(),
            },
        )
    } else {
        None
    }
}

/// The header value carries a bearer token whose three parts base64url-
/// decode, the first two to the canonical serializations of the well-formed
/// values `hj` (the token header) and `cj` (the claims).
pub open spec fn token_decodes_to(h: Seq<u8>, hj: Jv, cj: Jv) -> bool {
    &&& has_bearer(h)
    &&& crate::json::wf(hj)
    &&& crate::json::wf(cj)
    &&& token_parts(h.skip(7)) matches Some(p) && (b64url_decoded(p.0) == Some(
        crate::json::spec_ser(hj),
    ) && b64url_decoded(p.1) == Some(crate::json::spec_ser(cj)) && b64url_decoded(p.2) is Some)
}

/// What verifying such a header yields: exactly the [`spec_check`] decision
/// over the decoded values, the signing input and the decoded tag.
pub open spec fn spec_verify_outcome(h: Seq<u8>, hj: Jv, cj: Jv, secret: Seq<u8>, now: u64) -> Option<
    Seq<u8>,
> {
    let p = token_parts(h.skip(7))->0;
    spec_check(hj, cj, p.0 + seq![0x2Eu8] + p.1, b64url_decoded(p.2)->0, secret, now)
}

fn key_bytes(which: u8) -> (r: Vec<u8>)
    requires
        which <= 4,
    ensures
        r@ == (if which == 0 {
            alg_key()
        } else if which == 1 {
            hs256_word()
        } else if which == 2 {
            sub_key()
        } else if which == 3 {
            nbf_key()
        } else {
            exp_key()
        }),
{
    let mut out: Vec<u8> = Vec::new();
    if which == 0 {
        out.push(0x61);
        out.push(0x6C);
        out.push(0x67);
        assert(out@ =~= alg_key());
    } else if which == 1 {
        out.push(0x48);
        out.push(0x53);
        out.push(0x32);
        out.push(0x35);
        out.push(0x36);
        assert(out@ =~= hs256_word());
    } else if which == 2 {
        out.push(0x73);
        out.push(0x75);
        out.push(0x62);
        assert(out@ =~= sub_key());
    } else if which == 3 {
        out.push(0x6E);
        out.push(0x62);
        out.push(0x66);
        assert(out@ =~= nbf_key());
    } else {
        out.push(0x65);
        out.push(0x78);
        out.push(0x70);
        assert(out@ =~= exp_key());
    }
    out
}

/// The bytes of `anonymous`.
pub fn anonymous_bytes() -> (r: Vec<u8>)
    ensures
        r@ == anonymous_word(),
{
    let mut out: Vec<u8> = Vec::new();
    out.push(0x61);
    out.push(0x6E);
    out.push(0x6F);
    out.push(0x6E);
    out.push(0x79);
    out.push(0x6D);
    out.push(0x6F);
    out.push(0x75);
    out.push(0x73);
    assert(out@ =~= anonymous_word());
    out
}

/// Checks a decoded token: the exact decision over parsed header and
/// claims, the signing input, the decoded tag and the clock reading.
pub fn check_token(
    header: &JsonValue,
    claims: &JsonValue,
    signing_input: &[u8],
    signature: &[u8],
    secret: &[u8],
    now: u64,
) -> (r: Option<Vec<u8>>)
    ensures
        match spec_check(header@, claims@, signing_input@, signature@, secret@, now) {
            Some(s) => r matches Some(v) && v@ == s,
            None => r is None,
        },
{
    // the algorithm
    let algk = key_bytes(0);
    let hs = key_bytes(1);
    let alg_good = match header.get(algk.as_slice()) {
        Some(v) => match v.as_str_bytes() {
            Some(s) => crate::json::bytes_eq(s.as_slice(), hs.as_slice()),
            None => false,
        },
        None => false,
    };
    if !alg_good {
        return None;
    }
    // the tag
    let tag = hmac_sha256(secret, signing_input);
    if !crate::json::bytes_eq(tag.as_slice(), signature) {
        return None;
    }
    // the claim types
    let is_obj = match claims {
        JsonValue::Obj(_) => true,
        _ => false,
    };
    if !is_obj {
        return None;
    }
    let subk = key_bytes(2);
    let sub_good = match claims.get(subk.as_slice()) {
        Some(v) => match v.as_str_bytes() {
            Some(_) => true,
            None => false,
        },
        None => true,
    };
    if !sub_good {
        return None;
    }
    let nbfk = key_bytes(3);
    let nbf_val: Option<i64> = match claims.get(nbfk.as_slice()) {
        Some(v) => match v.as_int() {
            Some(n) => {
                if n < 0 {
                    return None;
                }
                Some(n)
            },
            None => {
                return None;
            },
        },
        None => None,
    };
    let expk = key_bytes(4);
    let exp_val: Option<i64> = match claims.get(expk.as_slice()) {
        Some(v) => match v.as_int() {
            Some(e) => {
                if e < 0 {
                    return None;
                }
                Some(e)
            },
            None => {
                return None;
            },
        },
        None => None,
    };
    // the validity window
    if let Some(n) = nbf_val {
        if now < 0x8000_0000_0000_0000u64 && (n as u64) > now {
            return None;
        }
        if now >= 0x8000_0000_0000_0000u64 {
            // every i64 timestamp lies before such a clock reading
        }
    }
    if let Some(e) = exp_val {
        if now >= 0x8000_0000_0000_0000u64 {
            return None;
        }
        if (e as u64) < now {
            return None;
        }
    }
    // the subject
    match claims.get(subk.as_slice()) {
        Some(v) => match v.as_str_bytes() {
            Some(s) => Some(crate::json::copy_range(s.as_slice(), 0, s.len())),
            None => None,
        },
        None => Some(anonymous_bytes()),
    }
}

proof fn lemma_dot_end(s: Seq<u8>, i: int)
    requires
        0 <= i <= s.len(),
    ensures
        i <= dot_end(s, i) <= s.len(),
        forall|k: int| i <= k < dot_end(s, i) ==> s[k] != 0x2E,
        dot_end(s, i) < s.len() ==> s[dot_end(s, i)] == 0x2E,
    decreases s.len() - i,
{
    if i < s.len() && s[i] != 0x2E {
        lemma_dot_end(s, i + 1);
    }
}

proof fn lemma_dot_end_exact(s: Seq<u8>, i: int, e: int)
    requires
        0 <= i <= e <= s.len(),
        forall|k: int| i <= k < e ==> s[k] != 0x2E,
        e == s.len() || s[e] == 0x2E,
    ensures
        dot_end(s, i) == e,
    decreases e - i,
{
    if i < e {
        lemma_dot_end_exact(s, i + 1, e);
    }
}

/// Splits a token at its two dots.
#[verifier::loop_isolation(false)]
fn split_token(tok: &[u8]) -> (r: Option<(Vec<u8>, Vec<u8>, Vec<u8>)>)
    ensures
        match token_parts(tok@) {
            Some(p) => r matches Some(q) && q.0@ == p.0 && q.1@ == p.1 && q.2@ == p.2,
            None => r is None,
        },
{
    let n = tok.len();
    let mut d1: usize = 0;
    while d1 < n && tok[d1] != 0x2E
        invariant
            d1 <= n,
            forall|k: int| 0 <= k < d1 ==> tok@[k] != 0x2E,
        decreases n - d1,
    {
        d1 = d1 + 1;
    }
    proof {
        lemma_dot_end_exact(tok@, 0, d1 as int);
    }
    if d1 >= n {
        return None;
    }
    let mut d2: usize = d1 + 1;
    while d2 < n && tok[d2] != 0x2E
        invariant
            d1 + 1 <= d2 <= n,
            forall|k: int| d1 + 1 <= k < d2 ==> tok@[k] != 0x2E,
        decreases n - d2,
    {
        d2 = d2 + 1;
    }
    proof {
        lemma_dot_end_exact(tok@, d1 as int + 1, d2 as int);
    }
    if d2 >= n {
        return None;
    }
    let mut d3: usize = d2 + 1;
    while d3 < n && tok[d3] != 0x2E
        invariant
            d2 + 1 <= d3 <= n,
            forall|k: int| d2 + 1 <= k < d3 ==> tok@[k] != 0x2E,
        decreases n - d3,
    {
        d3 = d3 + 1;
    }
    proof {
        lemma_dot_end_exact(tok@, d2 as int + 1, d3 as int);
    }
    if d3 < n {
        return None;
    }
    let h = crate::json::copy_range(tok, 0, d1);
    let c = crate::json::copy_range(tok, d1 + 1, d2);
    let s = crate::json::copy_range(tok, d2 + 1, n);
    proof {
        assert(h@ =~= tok@.take(d1 as int));
        assert(s@ =~= tok@.skip(d2 as int + 1));
    }
    Some((h, c, s))
}

/// Verifies a bearer token from the raw `Authorization` header value.
///
/// A missing header, a value without the `Bearer ` prefix, a token without
/// exactly two dots, parts that do not decode as base64url, or parts that
/// do not parse as JSON all reject. What remains is decided exactly by
/// [`check_token`]: the `HS256` header, the tag over `header.claims` under
/// `secret`, the claim types, and the `nbf`/`exp` window against `now`.
/// The subject comes back on success, or `anonymous` when the claims name
/// none.
pub fn verify_bearer(auth: Option<&[u8]>, secret: &[u8], now: u64) -> (r: Option<Vec<u8>>)
    ensures
        auth is None ==> r is None,
        (auth matches Some(h) && !has_bearer(h@)) ==> r is None,
        r is Some ==> (auth matches Some(h) && (has_bearer(h@) && (token_parts(
            h@.skip(7),
        ) matches Some(p) && (b64url_decoded(p.2) matches Some(sig) && hmac_sha256_of(
            secret@,
            p.0 + seq![0x2Eu8] + p.1,
        ) == sig)))),
        forall|hj: Jv, cj: Jv|
            (auth is Some && #[trigger] token_decodes_to(auth->0@, hj, cj)) ==> (
            match spec_verify_outcome(auth->0@, hj, cj, secret@, now) {
                Some(s) => r matches Some(v) && v@ == s,
                None => r is None,
            }),
        r matches Some(s) ==> exists|cj: Jv|
            #[trigger] claims_ok(cj) && time_ok(cj, now) && s@ == (match claims_sub(cj) {
                Some(x) => x,
                None => anonymous_word(),
            }),
{
    let h = match auth {
        None => {
            return None;
        },
        Some(h) => h,
    };
    if h.len() < 7 {
        proof {
            assert forall|hj: Jv, cj: Jv| token_decodes_to(h@, hj, cj) implies false by {}
        }
        return None;
    }
    let pre = crate::json::copy_range(h, 0, 7);
    let mut bearer: Vec<u8> = Vec::new();
    bearer.push(0x42);
    bearer.push(0x65);
    bearer.push(0x61);
    bearer.push(0x72);
    bearer.push(0x65);
    bearer.push(0x72);
    bearer.push(0x20);
    assert(bearer@ =~= bearer_prefix());
    if !crate::json::bytes_eq(pre.as_slice(), bearer.as_slice()) {
        proof {
            assert(pre@ == h@.take(7));
            assert forall|hj: Jv, cj: Jv| token_decodes_to(h@, hj, cj) implies false by {}
        }
        return None;
    }
    let tok = crate::json::copy_range(h, 7, h.len());
    proof {
        assert(tok@ == h@.skip(7));
    }
    let (h64, c64, s64) = match split_token(tok.as_slice()) {
        None => {
            proof {
                assert forall|hj: Jv, cj: Jv| token_decodes_to(h@, hj, cj) implies false by {}
            }
            return None;
        },
        Some(p) => p,
    };
    let hb = match b64url_decode(h64.as_slice()) {
        None => {
            proof {
                assert forall|hj: Jv, cj: Jv| token_decodes_to(h@, hj, cj) implies false by {}
            }
            return None;
        },
        Some(v) => v,
    };
    let cb = match b64url_decode(c64.as_slice()) {
        None => {
            proof {
                assert forall|hj: Jv, cj: Jv| token_decodes_to(h@, hj, cj) implies false by {}
            }
            return None;
        },
        Some(v) => v,
    };
    let sb = match b64url_decode(s64.as_slice()) {
        None => {
            proof {
                assert forall|hj: Jv, cj: Jv| token_decodes_to(h@, hj, cj) implies false by {}
            }
            return None;
        },
        Some(v) => v,
    };
    let header = match parse(hb.as_slice()) {
        None => {
            proof {
                assert forall|hj: Jv, cj: Jv| token_decodes_to(h@, hj, cj) implies false by {
                    assert(hb@ == crate::json::spec_ser(hj));
                }
            }
            return None;
        },
        Some(v) => v,
    };
    let claims = match parse(cb.as_slice()) {
        None => {
            proof {
                assert forall|hj: Jv, cj: Jv| token_decodes_to(h@, hj, cj) implies false by {
                    assert(cb@ == crate::json::spec_ser(cj));
                }
            }
            return None;
        },
        Some(v) => v,
    };
    // the signing input is the first two parts joined by a dot
    let ghost h64v = h64@;
    let ghost c64v = c64@;
    let mut signing_input = h64;
    signing_input.push(0x2E);
    let mut c64m = c64;
    signing_input.append(&mut c64m);
    proof {
        assert(signing_input@ =~= h64v + seq![0x2Eu8] + c64v);
    }
    let r = check_token(&header, &claims, signing_input.as_slice(), sb.as_slice(), secret, now);
    proof {
        // whatever was accepted was checked against the parsed claims
        if r is Some {
            let cw = claims@;
            assert(claims_ok(cw) && time_ok(cw, now));
        }
        assert forall|hj: Jv, cj: Jv| token_decodes_to(h@, hj, cj) implies (
        match spec_verify_outcome(h@, hj, cj, secret@, now) {
            Some(s) => r matches Some(v) && v@ == s,
            None => r is None,
        }) by {
            assert(hb@ == crate::json::spec_ser(hj));
            assert(cb@ == crate::json::spec_ser(cj));
            assert(header@ == hj);
            assert(claims@ == cj);
        }
    }
    r
}

} // verus!
