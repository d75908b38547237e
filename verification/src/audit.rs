//! Audit records: the access record and the token-usage record, with their
//! JSON forms.
//!
//! Every request gets a fresh 16-character alphanumeric ray id that is also
//! sent upstream as a header, so the record and the forwarded request carry
//! the same correlator. Optional fields are omitted from the JSON when they
//! were not captured; body bytes are shown as text when they are UTF-8 and
//! as base64 otherwise. The file sink appends one JSON document per line.

use crate::bridge::{b64_char, b64_encode, base64_encoded, is_alnum_char, ray_id_string, utf8_string};
use crate::config::AuditAccessFilterConfig;
use crate::json::{spec_ser, to_bytes, JsonValue, Jv};
use vstd::prelude::*;
use vstd::string::StrSliceExecFns;
use vstd::utf8::{encode_utf8, valid_utf8};

verus! {

/// How captured bytes are shown: verbatim when they are UTF-8, as base64
/// otherwise.
pub open spec fn spec_display_bytes(b: Seq<u8>) -> Seq<u8> {
    if valid_utf8(b) {
        b
    } else {
        base64_encoded(b)
    }
}

/// Encodes captured bytes for display.
pub fn display_bytes(b: &[u8]) -> (r: Vec<u8>)
    ensures
        r@ == spec_display_bytes(b@),
{
    match utf8_string(b) {
        Some(_) => crate::json::copy_range(b, 0, b.len()),
        None => b64_encode(b),
    }
}

/// Lexicographic order on byte strings: the order `BTreeMap<String, _>`
/// sorts its keys by, since UTF-8 byte order is code-point order.
pub open spec fn bytes_lt(a: Seq<u8>, b: Seq<u8>) -> bool
    decreases a.len(),
{
    if b.len() == 0 {
        false
    } else if a.len() == 0 {
        true
    } else if a[0] != b[0] {
        a[0] < b[0]
    } else {
        bytes_lt(a.drop_first(), b.drop_first())
    }
}

/// Inserts a binding into an ordered map held as a sorted sequence: an
/// existing key is rebound (last value wins), a new key goes before the
/// first greater one.
pub open spec fn map_upsert(
    acc: Seq<(Seq<u8>, Seq<u8>)>,
    k: Seq<u8>,
    v: Seq<u8>,
) -> Seq<(Seq<u8>, Seq<u8>)>
    decreases acc.len(),
{
    if acc.len() == 0 {
        seq![(k, v)]
    } else if acc[0].0 == k {
        seq![(k, v)] + acc.drop_first()
    } else if bytes_lt(k, acc[0].0) {
        seq![(k, v)] + acc
    } else {
        seq![acc[0]] + map_upsert(acc.drop_first(), k, v)
    }
}

/// The header pairs as an ordered map, bindings inserted in wire order:
/// what collecting them into a `BTreeMap` yields — keys sorted, duplicate
/// names collapsed to their last value, every value shown like captured
/// bytes.
pub open spec fn spec_header_map(pairs: Seq<(Seq<char>, Seq<u8>)>) -> Seq<(Seq<u8>, Seq<u8>)>
    decreases pairs.len(),
{
    if pairs.len() == 0 {
        Seq::empty()
    } else {
        map_upsert(
            spec_header_map(pairs.drop_last()),
            encode_utf8(pairs.last().0),
            spec_display_bytes(pairs.last().1),
        )
    }
}

/// Headers as a string map, sorted by name with duplicates collapsed.
pub trait HeaderMapExt {
    /// The raw name/value pairs this view stands for.
    spec fn header_pairs(&self) -> Seq<(Seq<char>, Seq<u8>)>;

    /// The headers as a name-sorted map, the last value winning for a
    /// repeated name; a value keeps its text when it is UTF-8 and is shown
    /// as base64 otherwise.
    fn as_btree_map(&self) -> (r: Vec<(String, String)>)
        ensures
            r@.len() == spec_header_map(self.header_pairs()).len(),
            forall|i: int|
                0 <= i < r@.len() ==> encode_utf8((#[trigger] r@[i]).0@) == spec_header_map(
                    self.header_pairs(),
                )[i].0 && encode_utf8(r@[i].1@) == spec_header_map(self.header_pairs())[i].1,
    ;
}

/// Raw header pairs as they come off the wire: a name and value bytes.
pub struct RawHeaders(pub Vec<(String, Vec<u8>)>);

/// Exact byte-string comparison.
fn bytes_lt_exec(a: &[u8], b: &[u8]) -> (r: bool)
    ensures
        r == bytes_lt(a@, b@),
{
    let mut k: usize = 0;
    proof {
        assert(a@.skip(0) =~= a@);
        assert(b@.skip(0) =~= b@);
    }
    while k < a.len() && k < b.len() && a[k] == b[k]
        invariant
            k <= a@.len(),
            k <= b@.len(),
            bytes_lt(a@, b@) == bytes_lt(a@.skip(k as int), b@.skip(k as int)),
        decreases a@.len() - k,
    {
        proof {
            assert(a@.skip(k as int)[0] == a@[k as int]);
            assert(b@.skip(k as int)[0] == b@[k as int]);
            assert(a@.skip(k as int).drop_first() =~= a@.skip(k as int + 1));
            assert(b@.skip(k as int).drop_first() =~= b@.skip(k as int + 1));
        }
        k = k + 1;
    }
    proof {
        if k < a@.len() {
            assert(a@.skip(k as int)[0] == a@[k as int]);
        }
        if k < b@.len() {
            assert(b@.skip(k as int)[0] == b@[k as int]);
        }
    }
    if k >= b.len() {
        false
    } else if k >= a.len() {
        true
    } else {
        a[k] < b[k]
    }
}

/// Walking past entries whose keys differ from `k` and do not come after
/// it leaves the insertion in the remainder.
proof fn lemma_map_upsert_skip(acc: Seq<(Seq<u8>, Seq<u8>)>, k: Seq<u8>, v: Seq<u8>, j: int)
    requires
        0 <= j <= acc.len(),
        forall|x: int| 0 <= x < j ==> (#[trigger] acc[x]).0 != k && !bytes_lt(k, acc[x].0),
    ensures
        map_upsert(acc, k, v) =~= acc.take(j) + map_upsert(acc.skip(j), k, v),
    decreases j,
{
    if j == 0 {
        assert(acc.take(0) =~= Seq::<(Seq<u8>, Seq<u8>)>::empty());
        assert(acc.skip(0) =~= acc);
    } else {
        assert(acc.drop_first().skip(j - 1) =~= acc.skip(j));
        assert(forall|x: int|
            0 <= x < j - 1 ==> #[trigger] acc.drop_first()[x] == acc[x + 1]);
        lemma_map_upsert_skip(acc.drop_first(), k, v, j - 1);
        assert(acc.drop_first().take(j - 1) =~= acc.take(j).drop_first());
        assert(acc.take(j)[0] == acc[0]);
    }
}

impl HeaderMapExt for RawHeaders {
    open spec fn header_pairs(&self) -> Seq<(Seq<char>, Seq<u8>)> {
        Seq::new(self.0@.len(), |i: int| (self.0@[i].0@, self.0@[i].1@))
    }

    #[verifier::loop_isolation(false)]
    #[verifier::rlimit(100)]
    fn as_btree_map(&self) -> (r: Vec<(String, String)>) {
        let ghost dp = self.header_pairs();
        let mut out: Vec<(String, String)> = Vec::new();
        let ghost mut om: Seq<(Seq<u8>, Seq<u8>)> = Seq::empty();
        proof {
            assert(dp.take(0) =~= Seq::<(Seq<char>, Seq<u8>)>::empty());
        }
        let mut i: usize = 0;
        while i < self.0.len()
            invariant
                i <= self.0@.len(),
                om == spec_header_map(dp.take(i as int)),
                out@.len() == om.len(),
                forall|x: int|
                    0 <= x < out@.len() ==> encode_utf8((#[trigger] out@[x]).0@) == om[x].0
                        && encode_utf8(out@[x].1@) == om[x].1,
            decreases self.0@.len() - i,
        {
            let name = clone_string(&self.0[i].0);
            let shown = display_bytes(self.0[i].1.as_slice());
            proof {
                // what is shown is always valid UTF-8: the text itself, or
                // base64, which is ASCII
                if !valid_utf8(self.0@[i as int].1@) {
                    lemma_base64_ascii(self.0@[i as int].1@);
                }
                assert(valid_utf8(shown@));
            }
            let value = match utf8_string(shown.as_slice()) {
                Some(s) => s,
                None => {
                    proof {
                        assert(false);
                    }
                    String::new()
                },
            };
            proof {
                vstd::utf8::decode_utf8_encode_utf8(shown@);
                assert(encode_utf8(value@) == shown@);
            }
            let ghost kb = encode_utf8(name@);
            let ghost vb = shown@;
            // insert the binding at its ordered place, the last value
            // winning for a repeated name
            let mut pos: usize = 0;
            let mut placed = false;
            while pos < out.len() && !placed
                invariant
                    pos <= out@.len(),
                    !placed ==> forall|x: int|
                        0 <= x < pos ==> (#[trigger] om[x]).0 != kb && !bytes_lt(kb, om[x].0),
                    placed ==> om == map_upsert(spec_header_map(dp.take(i as int)), kb, vb)
                        && out@.len() == om.len(),
                    placed ==> forall|x: int|
                        0 <= x < out@.len() ==> encode_utf8((#[trigger] out@[x]).0@) == om[x].0
                            && encode_utf8(out@[x].1@) == om[x].1,
                    !placed ==> om == spec_header_map(dp.take(i as int)) && out@.len() == om.len()
                        && forall|x: int|
                        0 <= x < out@.len() ==> encode_utf8((#[trigger] out@[x]).0@) == om[x].0
                            && encode_utf8(out@[x].1@) == om[x].1,
                decreases (if placed {
                    0int
                } else {
                    1int
                }), out@.len() - pos,
            {
                proof {
                    lemma_map_upsert_skip(om, kb, vb, pos as int);
                    assert(om.skip(pos as int)[0] == om[pos as int]);
                    assert(om.skip(pos as int).drop_first() =~= om.skip(pos as int + 1));
                }
                if crate::json::bytes_eq(out[pos].0.as_str().as_bytes(), name.as_str().as_bytes()) {
                    let nk = clone_string(&name);
                    let nv = clone_string(&value);
                    let ghost om0 = om;
                    out.set(pos, (nk, nv));
                    proof {
                        om = map_upsert(om0, kb, vb);
                        assert(om =~= om0.take(pos as int) + (seq![(kb, vb)] + om0.skip(
                            pos as int + 1,
                        )));
                        assert(om =~= om0.update(pos as int, (kb, vb)));
                    }
                    placed = true;
                } else if bytes_lt_exec(name.as_str().as_bytes(), out[pos].0.as_str().as_bytes()) {
                    let nk = clone_string(&name);
                    let nv = clone_string(&value);
                    let ghost om0 = om;
                    out.insert(pos, (nk, nv));
                    proof {
                        om = map_upsert(om0, kb, vb);
                        assert(om =~= om0.take(pos as int) + (seq![(kb, vb)] + om0.skip(
                            pos as int,
                        )));
                        assert(om =~= om0.insert(pos as int, (kb, vb)));
                    }
                    placed = true;
                } else {
                    pos = pos + 1;
                }
            }
            if !placed {
                let ghost om0 = om;
                out.push((name, value));
                proof {
                    lemma_map_upsert_skip(om0, kb, vb, om0.len() as int);
                    assert(om0.skip(om0.len() as int) =~= Seq::<(Seq<u8>, Seq<u8>)>::empty());
                    assert(om0.take(om0.len() as int) =~= om0);
                    om = map_upsert(om0, kb, vb);
                    assert(om =~= om0.push((kb, vb)));
                }
            }
            proof {
                assert(dp.take(i as int + 1).drop_last() =~= dp.take(i as int));
                assert(dp.take(i as int + 1).last() == dp[i as int]);
                assert(kb == encode_utf8(dp[i as int].0));
                assert(vb == spec_display_bytes(dp[i as int].1));
                assert(om == spec_header_map(dp.take(i as int + 1)));
            }
            i = i + 1;
        }
        proof {
            assert(dp.take(dp.len() as int) =~= dp);
        }
        out
    }
}

/// Base64 output is ASCII, so it is valid UTF-8.
pub proof fn lemma_base64_ascii(b: Seq<u8>)
    ensures
        valid_utf8(base64_encoded(b)),
    decreases b.len(),
{
    lemma_base64_bytes_ascii(b);
    lemma_ascii_utf8(base64_encoded(b));
}

proof fn lemma_base64_bytes_ascii(b: Seq<u8>)
    ensures
        forall|i: int| 0 <= i < base64_encoded(b).len() ==> #[trigger] base64_encoded(b)[i] < 0x80,
    decreases b.len(),
{
    assert(forall|n: int| 0 <= n < 64 ==> #[trigger] b64_char(n) < 0x80);
    if b.len() >= 3 {
        lemma_base64_bytes_ascii(b.skip(3));
        assert forall|i: int|
            0 <= i < base64_encoded(b).len() implies #[trigger] base64_encoded(b)[i] < 0x80 by {
            if i >= 4 {
                assert(base64_encoded(b)[i] == base64_encoded(b.skip(3))[i - 4]);
            }
        }
    }
}

/// An all-ASCII byte sequence is valid UTF-8.
pub proof fn lemma_ascii_utf8(b: Seq<u8>)
    requires
        forall|i: int| 0 <= i < b.len() ==> #[trigger] b[i] < 0x80,
    ensures
        valid_utf8(b),
    decreases b.len(),
{
    if b.len() > 0 {
        assert(b[0] < 0x80);
        assert(vstd::utf8::is_leading_byte_width_1(b[0]));
        assert(vstd::utf8::length_of_first_scalar(b) == 1);
        assert(vstd::utf8::pop_first_scalar(b) =~= b.skip(1));
        assert(forall|i: int| 0 <= i < b.skip(1).len() ==> #[trigger] b.skip(1)[i] < 0x80);
        lemma_ascii_utf8(b.skip(1));
        assert(vstd::utf8::valid_first_scalar(b));
    }
}

/// Clones a string, keeping its view.
pub fn clone_string(s: &String) -> (r: String)
    ensures
        r@ == s@,
{
    s.clone()
}

// ---------------------------------------------------------------------------
// The access record
// ---------------------------------------------------------------------------

/// One request's access record. Optional fields stay empty when the
/// corresponding capture switch is off.
pub struct AccessLog {
    pub timestamp_ms: i64,
    pub ray_id: String,
    pub user: Option<String>,
    pub method: Option<String>,
    pub uri: Option<String>,
    pub headers: Option<Vec<(String, String)>>,
    pub body: Option<Vec<u8>>,
    pub response_status: Option<u16>,
    pub response_headers: Option<Vec<(String, String)>>,
    pub response_body: Option<Vec<u8>>,
}

/// A well-formed ray id: sixteen alphanumeric characters.
pub open spec fn wf_ray_id(s: Seq<char>) -> bool {
    s.len() == 16 && forall|i: int| 0 <= i < s.len() ==> is_alnum_char(#[trigger] s[i])
}

/// A header map as JSON members, in order.
pub open spec fn headers_jv(hs: Seq<(String, String)>) -> Seq<(Seq<u8>, Jv)>
    decreases hs.len(),
{
    if hs.len() == 0 {
        Seq::empty()
    } else {
        seq![(encode_utf8(hs[0].0@), Jv::Str(encode_utf8(hs[0].1@)))] + headers_jv(hs.drop_first())
    }
}

pub open spec fn opt_str_member(key: Seq<char>, v: Option<String>) -> Seq<(Seq<u8>, Jv)> {
    match v {
        Some(s) => seq![(encode_utf8(key), Jv::Str(encode_utf8(s@)))],
        None => Seq::empty(),
    }
}

pub open spec fn opt_bytes_member(key: Seq<char>, v: Option<Vec<u8>>) -> Seq<(Seq<u8>, Jv)> {
    match v {
        Some(b) => seq![(encode_utf8(key), Jv::Str(spec_display_bytes(b@)))],
        None => Seq::empty(),
    }
}

pub open spec fn opt_headers_member(key: Seq<char>, v: Option<Vec<(String, String)>>) -> Seq<
    (Seq<u8>, Jv),
> {
    match v {
        Some(hs) => seq![(encode_utf8(key), Jv::Obj(headers_jv(hs@)))],
        None => Seq::empty(),
    }
}

pub open spec fn opt_status_member(key: Seq<char>, v: Option<u16>) -> Seq<(Seq<u8>, Jv)> {
    match v {
        Some(n) => seq![(encode_utf8(key), Jv::Int(n as int))],
        None => Seq::empty(),
    }
}

/// The access record as a JSON document, fields in record order, absent
/// fields omitted.
pub open spec fn spec_access_jv(a: AccessLog) -> Jv {
    Jv::Obj(
        seq![(encode_utf8("timestamp"@), Jv::Int(a.timestamp_ms as int))] + opt_str_member(
            "user"@,
            a.user,
        ) + seq![(encode_utf8("ray_id"@), Jv::Str(encode_utf8(a.ray_id@)))] + opt_str_member(
            "method"@,
            a.method,
        ) + opt_str_member("uri"@, a.uri) + opt_headers_member("headers"@, a.headers)
            + opt_bytes_member("body"@, a.body) + opt_status_member(
            "response_status"@,
            a.response_status,
        ) + opt_headers_member("response_headers"@, a.response_headers) + opt_bytes_member(
            "response_body"@,
            a.response_body,
        ),
    )
}

/// Appends one member, tracking the members' view.
fn push_member(members: &mut Vec<(Vec<u8>, JsonValue)>, key: Vec<u8>, val: JsonValue)
    ensures
        crate::json::jv_members(final(members)@) == crate::json::jv_members(old(members)@).push(
            (key@, val@),
        ),
{
    let ghost m0 = members@;
    let ghost k0 = key;
    let ghost v0 = val;
    members.push((key, val));
    proof {
        crate::json::parse::lemma_jv_members_push(m0, k0, v0);
    }
}

fn headers_to_json(hs: &Vec<(String, String)>) -> (r: JsonValue)
    ensures
        r@ == Jv::Obj(headers_jv(hs@)),
{
    let mut members: Vec<(Vec<u8>, JsonValue)> = Vec::new();
    let mut i: usize = 0;
    proof {
        assert(crate::json::jv_members(members@) =~= headers_jv(hs@.take(0)));
    }
    while i < hs.len()
        invariant
            i <= hs@.len(),
            crate::json::jv_members(members@) == headers_jv(hs@.take(i as int)),
        decreases hs@.len() - i,
    {
        proof {
            lemma_headers_jv_take(hs@, i as int);
        }
        let kb = hs[i].0.as_str().as_bytes_vec();
        let vb = hs[i].1.as_str().as_bytes_vec();
        push_member(&mut members, kb, JsonValue::Str(vb));
        i = i + 1;
        assert(crate::json::jv_members(members@) =~= headers_jv(hs@.take(i as int)));
    }
    proof {
        assert(hs@.take(hs@.len() as int) =~= hs@);
    }
    JsonValue::Obj(members)
}

proof fn lemma_headers_jv_take(hs: Seq<(String, String)>, k: int)
    requires
        0 <= k < hs.len(),
    ensures
        headers_jv(hs.take(k + 1)) =~= headers_jv(hs.take(k)).push(
            (encode_utf8(hs[k].0@), Jv::Str(encode_utf8(hs[k].1@))),
        ),
    decreases k,
{
    if k == 0 {
        assert(hs.take(1).drop_first() =~= Seq::<(String, String)>::empty());
        assert(hs.take(0) =~= Seq::<(String, String)>::empty());
        assert(hs.take(1)[0] == hs[0]);
    } else {
        assert(hs.take(k + 1)[0] == hs[0]);
        assert(hs.take(k + 1).drop_first() =~= hs.drop_first().take(k));
        assert(hs.take(k)[0] == hs[0]);
        assert(hs.take(k).drop_first() =~= hs.drop_first().take(k - 1));
        lemma_headers_jv_take(hs.drop_first(), k - 1);
        assert(hs.drop_first()[k - 1] == hs[k]);
    }
}

impl AccessLog {
    /// A fresh record at the given time, with a newly drawn ray id and
    /// nothing captured yet.
    pub fn fresh(timestamp_ms: i64) -> (r: AccessLog)
        ensures
            r.timestamp_ms == timestamp_ms,
            wf_ray_id(r.ray_id@),
            r.user is None && r.method is None && r.uri is None && r.headers is None
                && r.body is None && r.response_status is None && r.response_headers is None
                && r.response_body is None,
    {
        AccessLog {
            timestamp_ms,
            ray_id: ray_id_string(),
            user: None,
            method: None,
            uri: None,
            headers: None,
            body: None,
            response_status: None,
            response_headers: None,
            response_body: None,
        }
    }

    /// The record after capturing the request side under the filters: the
    /// ray id and timestamp are kept (so the header already echoed upstream
    /// stays this record's correlator), the caller's identity is kept
    /// whenever it is known, and method, path and headers are each kept
    /// exactly when its switch is on. The response side stays as it was.
    pub fn with_request(
        self,
        filters: &AuditAccessFilterConfig,
        user: Option<String>,
        method: String,
        uri: String,
        headers: RawHeaders,
    ) -> (r: AccessLog)
        ensures
            r.timestamp_ms == self.timestamp_ms,
            r.ray_id@ == self.ray_id@,
            match user {
                Some(u) => r.user matches Some(ru) && ru@ == u@,
                None => r.user is None,
            },
            filters.method ==> (r.method matches Some(m) && m@ == method@),
            !filters.method ==> r.method is None,
            filters.uri ==> (r.uri matches Some(u) && u@ == uri@),
            !filters.uri ==> r.uri is None,
            filters.headers ==> (r.headers matches Some(hs) && hs@.len() == spec_header_map(
                headers.header_pairs(),
            ).len() && (forall|i: int|
                0 <= i < hs@.len() ==> encode_utf8((#[trigger] hs@[i]).0@) == spec_header_map(
                    headers.header_pairs(),
                )[i].0 && encode_utf8(hs@[i].1@) == spec_header_map(headers.header_pairs())[i].1)),
            !filters.headers ==> r.headers is None,
            self.body is None ==> r.body is None,
            self.response_status is None ==> r.response_status is None,
            self.response_headers is None ==> r.response_headers is None,
            self.response_body is None ==> r.response_body is None,
    {
        let mut log = self;
        log.user = user;
        log.method = if filters.method {
            Some(method)
        } else {
            None
        };
        log.uri = if filters.uri {
            Some(uri)
        } else {
            None
        };
        log.headers = if filters.headers {
            Some(headers.as_btree_map())
        } else {
            None
        };
        log
    }

    /// The ray id to echo upstream as the `X-Ray-Id` header: the very id the
    /// record bears, so the emitted record and the forwarded request carry
    /// the same correlator.
    pub fn ray_id_header(&self) -> (r: String)
        ensures
            r@ == self.ray_id@,
    {
        clone_string(&self.ray_id)
    }

    /// The record as a JSON document.
    #[verifier::rlimit(100)]
    pub fn to_json(&self) -> (r: JsonValue)
        ensures
            r@ == spec_access_jv(*self),
    {
        let mut members: Vec<(Vec<u8>, JsonValue)> = Vec::new();
        let ghost mut acc: Seq<(Seq<u8>, Jv)> = Seq::empty();
        proof {
            assert(crate::json::jv_members(members@) =~= acc);
        }
        push_member(&mut members, ("timestamp").as_bytes_vec(), JsonValue::Int(self.timestamp_ms));
        proof {
            acc = acc + seq![(encode_utf8("timestamp"@), Jv::Int(self.timestamp_ms as int))];
            assert(crate::json::jv_members(members@) =~= acc);
        }
        match &self.user {
            Some(u) => {
                push_member(
                    &mut members,
                    ("user").as_bytes_vec(),
                    JsonValue::Str(u.as_str().as_bytes_vec()),
                );
            },
            None => {},
        }
        proof {
            acc = acc + opt_str_member("user"@, self.user);
            assert(crate::json::jv_members(members@) =~= acc);
        }
        push_member(
            &mut members,
            ("ray_id").as_bytes_vec(),
            JsonValue::Str(self.ray_id.as_str().as_bytes_vec()),
        );
        proof {
            acc = acc + seq![(encode_utf8("ray_id"@), Jv::Str(encode_utf8(self.ray_id@)))];
            assert(crate::json::jv_members(members@) =~= acc);
        }
        match &self.method {
            Some(m) => {
                push_member(
                    &mut members,
                    ("method").as_bytes_vec(),
                    JsonValue::Str(m.as_str().as_bytes_vec()),
                );
            },
            None => {},
        }
        proof {
            acc = acc + opt_str_member("method"@, self.method);
            assert(crate::json::jv_members(members@) =~= acc);
        }
        match &self.uri {
            Some(u) => {
                push_member(
                    &mut members,
                    ("uri").as_bytes_vec(),
                    JsonValue::Str(u.as_str().as_bytes_vec()),
                );
            },
            None => {},
        }
        proof {
            acc = acc + opt_str_member("uri"@, self.uri);
            assert(crate::json::jv_members(members@) =~= acc);
        }
        match &self.headers {
            Some(hs) => {
                let hj = headers_to_json(hs);
                push_member(&mut members, ("headers").as_bytes_vec(), hj);
            },
            None => {},
        }
        proof {
            acc = acc + opt_headers_member("headers"@, self.headers);
            assert(crate::json::jv_members(members@) =~= acc);
        }
        match &self.body {
            Some(b) => {
                let shown = display_bytes(b.as_slice());
                push_member(&mut members, ("body").as_bytes_vec(), JsonValue::Str(shown));
            },
            None => {},
        }
        proof {
            acc = acc + opt_bytes_member("body"@, self.body);
            assert(crate::json::jv_members(members@) =~= acc);
        }
        match self.response_status {
            Some(st) => {
                push_member(
                    &mut members,
                    ("response_status").as_bytes_vec(),
                    JsonValue::Int(st as i64),
                );
            },
            None => {},
        }
        proof {
            acc = acc + opt_status_member("response_status"@, self.response_status);
            assert(crate::json::jv_members(members@) =~= acc);
        }
        match &self.response_headers {
            Some(hs) => {
                let hj = headers_to_json(hs);
                push_member(&mut members, ("response_headers").as_bytes_vec(), hj);
            },
            None => {},
        }
        proof {
            acc = acc + opt_headers_member("response_headers"@, self.response_headers);
            assert(crate::json::jv_members(members@) =~= acc);
        }
        match &self.response_body {
            Some(b) => {
                let shown = display_bytes(b.as_slice());
                push_member(
                    &mut members,
                    ("response_body").as_bytes_vec(),
                    JsonValue::Str(shown),
                );
            },
            None => {},
        }
        proof {
            acc = acc + opt_bytes_member("response_body"@, self.response_body);
            assert(crate::json::jv_members(members@) =~= acc);
        }
        let r = JsonValue::Obj(members);
        proof {
            assert(r@ == Jv::Obj(crate::json::jv_members(members@)));
            assert(crate::json::jv_members(members@) =~= spec_access_jv(*self)->Obj_0);
        }
        r
    }

    /// The record as one newline-terminated JSON line, as the file sink
    /// writes it.
    pub fn to_json_line(&self) -> (r: Vec<u8>)
        ensures
            r@ == spec_ser(spec_access_jv(*self)) + seq![0x0Au8],
    {
        let j = self.to_json();
        let mut out = to_bytes(&j);
        out.push(0x0A);
        out
    }
}

// ---------------------------------------------------------------------------
// The token-usage record
// ---------------------------------------------------------------------------

/// Prompt, completion and total token counts.
pub struct TokenUsage {
    pub prompt_tokens: usize,
    pub completion_tokens: usize,
    pub total_tokens: usize,
}

/// One request's token-usage record.
pub struct TokenUsageLog {
    pub timestamp_ms: i64,
    pub user: Option<String>,
    pub ray_id: String,
    pub model: Vec<u8>,
    pub usage: TokenUsage,
    pub is_estimated: bool,
}

/// A count as a JSON integer: counts beyond `i64` cannot occur in practice
/// and are clamped rather than misreported.
pub open spec fn clamp_i64(n: int) -> int {
    if n <= i64::MAX {
        n
    } else {
        i64::MAX as int
    }
}

/// The usage object as JSON members.
pub open spec fn spec_usage_jv(u: TokenUsage) -> Jv {
    Jv::Obj(
        seq![
            (encode_utf8("prompt_tokens"@), Jv::Int(clamp_i64(u.prompt_tokens as int))),
            (encode_utf8("completion_tokens"@), Jv::Int(clamp_i64(u.completion_tokens as int))),
            (encode_utf8("total_tokens"@), Jv::Int(clamp_i64(u.total_tokens as int))),
        ],
    )
}

/// The token record as a JSON document.
pub open spec fn spec_token_log_jv(t: TokenUsageLog) -> Jv {
    Jv::Obj(
        seq![(encode_utf8("timestamp"@), Jv::Int(t.timestamp_ms as int))] + opt_str_member(
            "user"@,
            t.user,
        ) + seq![
            (encode_utf8("ray_id"@), Jv::Str(encode_utf8(t.ray_id@))),
            (encode_utf8("model"@), Jv::Str(t.model@)),
            (encode_utf8("usage"@), spec_usage_jv(t.usage)),
            (encode_utf8("is_estimated"@), Jv::Bool(t.is_estimated)),
        ],
    )
}

impl TokenUsageLog {
    /// The record as a JSON document.
    pub fn to_json(&self) -> (r: JsonValue)
        ensures
            r@ == spec_token_log_jv(*self),
    {
        let mut usage: Vec<(Vec<u8>, JsonValue)> = Vec::new();
        let ghost mut uacc: Seq<(Seq<u8>, Jv)> = Seq::empty();
        proof {
            assert(crate::json::jv_members(usage@) =~= uacc);
        }
        let pt: i64 = usize_to_i64(self.usage.prompt_tokens);
        let ct: i64 = usize_to_i64(self.usage.completion_tokens);
        let tt: i64 = usize_to_i64(self.usage.total_tokens);
        push_member(&mut usage, ("prompt_tokens").as_bytes_vec(), JsonValue::Int(pt));
        push_member(&mut usage, ("completion_tokens").as_bytes_vec(), JsonValue::Int(ct));
        push_member(&mut usage, ("total_tokens").as_bytes_vec(), JsonValue::Int(tt));
        proof {
            uacc = spec_usage_jv(self.usage)->Obj_0;
            assert(crate::json::jv_members(usage@) =~= uacc);
        }
        let mut members: Vec<(Vec<u8>, JsonValue)> = Vec::new();
        let ghost mut acc: Seq<(Seq<u8>, Jv)> = Seq::empty();
        proof {
            assert(crate::json::jv_members(members@) =~= acc);
        }
        push_member(&mut members, ("timestamp").as_bytes_vec(), JsonValue::Int(self.timestamp_ms));
        proof {
            acc = acc + seq![(encode_utf8("timestamp"@), Jv::Int(self.timestamp_ms as int))];
            assert(crate::json::jv_members(members@) =~= acc);
        }
        match &self.user {
            Some(u) => {
                push_member(
                    &mut members,
                    ("user").as_bytes_vec(),
                    JsonValue::Str(u.as_str().as_bytes_vec()),
                );
            },
            None => {},
        }
        proof {
            acc = acc + opt_str_member("user"@, self.user);
            assert(crate::json::jv_members(members@) =~= acc);
        }
        push_member(
            &mut members,
            ("ray_id").as_bytes_vec(),
            JsonValue::Str(self.ray_id.as_str().as_bytes_vec()),
        );
        let mb = crate::json::copy_range(self.model.as_slice(), 0, self.model.len());
        proof {
            assert(mb@ =~= self.model@);
        }
        push_member(&mut members, ("model").as_bytes_vec(), JsonValue::Str(mb));
        push_member(&mut members, ("usage").as_bytes_vec(), JsonValue::Obj(usage));
        push_member(
            &mut members,
            ("is_estimated").as_bytes_vec(),
            JsonValue::Bool(self.is_estimated),
        );
        let r = JsonValue::Obj(members);
        proof {
            assert(crate::json::jv_members(members@) =~= spec_token_log_jv(*self)->Obj_0);
        }
        r
    }

    /// The record as one newline-terminated JSON line, as the file sink
    /// writes it.
    pub fn to_json_line(&self) -> (r: Vec<u8>)
        ensures
            r@ == spec_ser(spec_token_log_jv(*self)) + seq![0x0Au8],
    {
        let j = self.to_json();
        let mut out = to_bytes(&j);
        out.push(0x0A);
        out
    }
}

/// A token count as a JSON integer; counts beyond `i64` cannot occur in
/// practice, and are clamped rather than misreported.
fn usize_to_i64(n: usize) -> (r: i64)
    ensures
        n <= i64::MAX ==> r == n as int,
        n > i64::MAX ==> r == i64::MAX,
{
    let big: u64 = n as u64;
    if big <= 0x7FFF_FFFF_FFFF_FFFFu64 {
        big as i64
    } else {
        i64::MAX
    }
}


} // verus!
