//! Token-usage accounting.
//!
//! A request that passes the accounting gate gets at most one usage record
//! after its response completes: none at all when anything along the way —
//! the response body, the event stream, the tokenizer — fails, because
//! telemetry must never break the proxied response. A non-streamed response
//! reports its own usage numbers; a streamed one is reassembled from its
//! `data: ` frames and the counts are estimated with the model's tokenizer.

use crate::audit::TokenUsage;
use crate::bridge::{chat_token_count, message_tokens, text_token_count, text_tokens, ChatMessage};
use crate::config::StreamTokensPolicy;
use crate::json::{parse::parse, spec_obj_get, JsonValue, Jv};
use vstd::prelude::*;
use vstd::string::StrSliceExecFns;
use vstd::utf8::encode_utf8;

verus! {

// ---------------------------------------------------------------------------
// Server-sent event frames
// ---------------------------------------------------------------------------

/// First position at or after `i` where a blank line (two newlines) starts;
/// the length when there is none.
pub open spec fn sep_pos(s: Seq<u8>, i: int) -> int
    decreases s.len() - i,
{
    if 0 <= i && i + 1 < s.len() {
        if s[i] == 0x0A && s[i + 1] == 0x0A {
            i
        } else {
            sep_pos(s, i + 1)
        }
    } else {
        s.len() as int
    }
}

/// The blank-line-delimited frames of a stream body. A trailing piece with
/// no terminator is still a piece, so a stream cut off mid-frame simply
/// contributes whatever bytes were complete.
pub open spec fn split_frames(s: Seq<u8>) -> Seq<Seq<u8>>
    decreases s.len(),
{
    let p = sep_pos(s, 0);
    if 0 <= p && p + 2 <= s.len() {
        seq![s.take(p)] + split_frames(s.skip(p + 2))
    } else {
        seq![s]
    }
}

/// The complete frames of a stream body: every blank-line-terminated
/// frame. The trailing piece of a stream cut off mid-frame is not complete
/// and is ignored.
pub open spec fn complete_frames(s: Seq<u8>) -> Seq<Seq<u8>> {
    split_frames(s).drop_last()
}

/// `data: `.
pub open spec fn data_prefix() -> Seq<u8> {
    seq![0x64u8, 0x61u8, 0x74u8, 0x61u8, 0x3Au8, 0x20u8]
}

/// `[DONE]`.
pub open spec fn done_word() -> Seq<u8> {
    seq![0x5Bu8, 0x44u8, 0x4Fu8, 0x4Eu8, 0x45u8, 0x5Du8]
}

/// The event payloads of a stream body: each frame's bytes after `data: `,
/// frames without the prefix skipped, the `[DONE]` mark skipped.
pub open spec fn data_payloads(frames: Seq<Seq<u8>>) -> Seq<Seq<u8>>
    decreases frames.len(),
{
    if frames.len() == 0 {
        Seq::empty()
    } else {
        let f = frames[0];
        let head: Seq<Seq<u8>> = if f.len() >= 6 && f.take(6) == data_prefix() && f.skip(6)
            != done_word() {
            seq![f.skip(6)]
        } else {
            Seq::empty()
        };
        head + data_payloads(frames.drop_first())
    }
}

proof fn lemma_split_frames_nonempty(s: Seq<u8>)
    ensures
        split_frames(s).len() >= 1,
{
}

proof fn lemma_sep_pos(s: Seq<u8>, i: int)
    requires
        0 <= i <= s.len(),
    ensures
        i <= sep_pos(s, i) <= s.len(),
        sep_pos(s, i) + 1 < s.len() ==> s[sep_pos(s, i)] == 0x0A && s[sep_pos(s, i) + 1] == 0x0A,
        forall|k: int|
            i <= k < sep_pos(s, i) && k + 1 < s.len() ==> !(s[k] == 0x0A && #[trigger] s[k + 1]
                == 0x0A),
    decreases s.len() - i,
{
    if i + 1 < s.len() && !(s[i] == 0x0A && s[i + 1] == 0x0A) {
        lemma_sep_pos(s, i + 1);
    }
}

fn scan_sep(t: &[u8], i: usize) -> (r: usize)
    requires
        i <= t@.len(),
    ensures
        r == sep_pos(t@, i as int),
        i <= r <= t@.len(),
    decreases t@.len() - i,
{
    proof {
        lemma_sep_pos(t@, i as int);
    }
    if t.len() - i > 1 {
        if t[i] == 0x0A && t[i + 1] == 0x0A {
            i
        } else {
            scan_sep(t, i + 1)
        }
    } else {
        t.len()
    }
}

/// Splits a stream body into its blank-line-delimited frames.
pub fn frames_of(t: &[u8]) -> (r: Vec<Vec<u8>>)
    ensures
        r.deep_view() == split_frames(t@),
    decreases t@.len(),
{
    let p = scan_sep(t, 0);
    if t.len() - p < 2 {
        let whole = crate::json::copy_range(t, 0, t.len());
        let mut out: Vec<Vec<u8>> = Vec::new();
        proof {
            assert(whole@ =~= t@);
        }
        out.push(whole);
        proof {
            assert(out.deep_view() =~~= seq![t@]);
        }
        out
    } else {
        let head = crate::json::copy_range(t, 0, p);
        let rest = crate::json::copy_range(t, p + 2, t.len());
        let mut tail = frames_of(rest.as_slice());
        let mut out: Vec<Vec<u8>> = Vec::new();
        proof {
            assert(head@ =~= t@.take(p as int));
        }
        out.push(head);
        let ghost tail_view = tail.deep_view();
        out.append(&mut tail);
        proof {
            assert(rest@ =~= t@.skip(p as int + 2));
            assert(out.deep_view() =~~= seq![t@.take(p as int)] + tail_view);
        }
        out
    }
}

/// The payload is the canonical serialization of some well-formed value.
pub open spec fn payload_canonical(p: Seq<u8>) -> bool {
    exists|jv: Jv| crate::json::wf(jv) && p == #[trigger] crate::json::spec_ser(jv)
}

/// Every payload is the canonical serialization of some well-formed value.
pub open spec fn payloads_canonical(payloads: Seq<Seq<u8>>) -> bool {
    forall|x: int| 0 <= x < payloads.len() ==> payload_canonical(#[trigger] payloads[x])
}

/// `evs` is the value sequence behind a stream body: one well-formed value
/// per payload, each serializing to its payload.
pub open spec fn canonical_events(body: Seq<u8>, evs: Seq<Jv>) -> bool {
    let ps = data_payloads(complete_frames(body));
    &&& evs.len() == ps.len()
    &&& forall|x: int|
        0 <= x < evs.len() ==> crate::json::wf(#[trigger] evs[x]) && ps[x]
            == crate::json::spec_ser(evs[x])
}

proof fn lemma_data_payloads_split(frames: Seq<Seq<u8>>, k: int)
    requires
        0 <= k <= frames.len(),
    ensures
        data_payloads(frames) =~= data_payloads(frames.take(k)) + data_payloads(frames.skip(k)),
    decreases k,
{
    if k == 0 {
        assert(frames.take(0) =~= Seq::<Seq<u8>>::empty());
        assert(frames.skip(0) =~= frames);
    } else {
        assert(frames.take(k)[0] == frames[0]);
        assert(frames.take(k).drop_first() =~= frames.drop_first().take(k - 1));
        assert(frames.skip(k) =~= frames.drop_first().skip(k - 1));
        lemma_data_payloads_split(frames.drop_first(), k - 1);
    }
}

/// Extracts the parsed events of a stream body: the `data: ` payloads of
/// its complete frames, the `[DONE]` mark dropped, each payload parsed as
/// JSON, in order. A stream cut off mid-frame contributes nothing for its
/// incomplete trailing piece. A payload that is the canonical serialization
/// of a well-formed value parses to exactly that value; when every payload
/// is such, the whole extraction is owed to succeed. A kept payload that is
/// not JSON spoils the whole stream and nothing is reported.
pub fn get_events(res_body: &[u8]) -> (r: Option<Vec<JsonValue>>)
    ensures
        r matches Some(evs) ==> evs@.len() == data_payloads(complete_frames(res_body@)).len() && (
        forall|x: int| 0 <= x < evs@.len() ==> crate::json::wf((#[trigger] evs@[x])@)) && (
        forall|x: int, jv: Jv|
            #![trigger evs@[x], crate::json::spec_ser(jv)]
            0 <= x < evs@.len() && crate::json::wf(jv) && data_payloads(
                complete_frames(res_body@),
            )[x] == crate::json::spec_ser(jv) ==> evs@[x]@ == jv),
        payloads_canonical(data_payloads(complete_frames(res_body@))) ==> r is Some,
{
    let frames = frames_of(res_body);
    proof {
        lemma_split_frames_nonempty(res_body@);
    }
    let n = frames.len();
    let ghost cf = complete_frames(res_body@);
    let mut out: Vec<JsonValue> = Vec::new();
    let mut i: usize = 0;
    let ghost payloads = data_payloads(complete_frames(res_body@));
    proof {
        assert(cf =~= frames.deep_view().take(n as int - 1));
        lemma_data_payloads_take(cf, 0);
    }
    while i < n - 1
        invariant
            n == frames@.len(),
            n >= 1,
            i <= n - 1,
            frames.deep_view() == split_frames(res_body@),
            cf == complete_frames(res_body@),
            cf =~= frames.deep_view().take(n as int - 1),
            payloads == data_payloads(cf),
            out@.len() == data_payloads(cf.take(i as int)).len(),
            out@.len() <= payloads.len(),
            forall|x: int| 0 <= x < out@.len() ==> crate::json::wf((#[trigger] out@[x])@),
            forall|x: int, jv: Jv|
                #![trigger out@[x], crate::json::spec_ser(jv)]
                0 <= x < out@.len() && crate::json::wf(jv) && payloads[x]
                    == crate::json::spec_ser(jv) ==> out@[x]@ == jv,
        decreases n - 1 - i,
    {
        proof {
            lemma_data_payloads_take(cf, i as int);
            lemma_data_payloads_split(cf, i as int + 1);
        }
        let f = &frames[i];
        let mut is_payload = false;
        if f.len() >= 6 {
            let pre = crate::json::copy_range(f.as_slice(), 0, 6);
            let mut dp: Vec<u8> = Vec::new();
            dp.push(0x64);
            dp.push(0x61);
            dp.push(0x74);
            dp.push(0x61);
            dp.push(0x3A);
            dp.push(0x20);
            assert(dp@ =~= data_prefix());
            if crate::json::bytes_eq(pre.as_slice(), dp.as_slice()) {
                let payload = crate::json::copy_range(f.as_slice(), 6, f.len());
                let mut done: Vec<u8> = Vec::new();
                done.push(0x5B);
                done.push(0x44);
                done.push(0x4F);
                done.push(0x4E);
                done.push(0x45);
                done.push(0x5D);
                assert(done@ =~= done_word());
                if !crate::json::bytes_eq(payload.as_slice(), done.as_slice()) {
                    proof {
                        assert(pre@ == f@.take(6));
                        assert(payload@ == f@.skip(6));
                        // the current payload sits at position out@.len() of
                        // the whole payload sequence
                        assert(cf[i as int] == f@);
                        assert(f@.len() >= 6 && f@.take(6) == data_prefix() && f@.skip(6)
                            != done_word());
                        assert(data_payloads(cf.take(i as int + 1)) =~= data_payloads(
                            cf.take(i as int),
                        ) + seq![f@.skip(6)]);
                        assert(data_payloads(cf) =~= data_payloads(cf.take(i as int + 1))
                            + data_payloads(cf.skip(i as int + 1)));
                        assert(payloads[out@.len() as int] == payload@);
                        assert(out@.len() < payloads.len());
                    }
                    match parse(payload.as_slice()) {
                        None => {
                            proof {
                                if payloads_canonical(payloads) {
                                    let m = out@.len() as int;
                                    assert(payload_canonical(payloads[m]));
                                    let jv = choose|jv: Jv|
                                        crate::json::wf(jv) && payloads[m]
                                            == crate::json::spec_ser(jv);
                                    assert(payload@ == crate::json::spec_ser(jv));
                                    assert(false);
                                }
                            }
                            return None;
                        },
                        Some(v) => {
                            let ghost out0 = out@;
                            out.push(v);
                            proof {
                                assert forall|x: int, jv: Jv|
                                    #![trigger out@[x], crate::json::spec_ser(jv)]
                                    0 <= x < out@.len() && crate::json::wf(jv) && payloads[x]
                                        == crate::json::spec_ser(jv) implies out@[x]@ == jv by {
                                    if x < out0.len() {
                                        assert(out@[x] == out0[x]);
                                    } else {
                                        assert(out@[x] == v);
                                        assert(payload@ == crate::json::spec_ser(jv));
                                    }
                                }
                            }
                        },
                    }
                    is_payload = true;
                }
            }
            proof {
                if !is_payload {
                    assert(pre@ == f@.take(6));
                }
            }
        }
        i = i + 1;
        proof {
            assert(cf[i - 1] == f@);
        }
    }
    proof {
        assert(cf.take(cf.len() as int) =~= cf);
    }
    Some(out)
}

proof fn lemma_data_payloads_take(frames: Seq<Seq<u8>>, k: int)
    requires
        0 <= k <= frames.len(),
    ensures
        k < frames.len() ==> data_payloads(frames.take(k + 1)) =~= data_payloads(frames.take(k)) + (
        {
            let f = frames[k];
            if f.len() >= 6 && f.take(6) == data_prefix() && f.skip(6) != done_word() {
                seq![f.skip(6)]
            } else {
                Seq::<Seq<u8>>::empty()
            }
        }),
        k == 0 ==> data_payloads(frames.take(0)) =~= Seq::<Seq<u8>>::empty(),
    decreases k,
{
    assert(frames.take(0) =~= Seq::<Seq<u8>>::empty());
    if 0 < k < frames.len() {
        assert(frames.take(k + 1)[0] == frames[0]);
        assert(frames.take(k + 1).drop_first() =~= frames.drop_first().take(k));
        assert(frames.take(k)[0] == frames[0]);
        assert(frames.take(k).drop_first() =~= frames.drop_first().take(k - 1));
        lemma_data_payloads_take(frames.drop_first(), k - 1);
        assert(frames.drop_first()[k - 1] == frames[k]);
    } else if k == 0 && 0 < frames.len() {
        assert(frames.take(1)[0] == frames[0]);
        assert(frames.take(1).drop_first() =~= Seq::<Seq<u8>>::empty());
    }
}

// ---------------------------------------------------------------------------
// Reassembling choices
// ---------------------------------------------------------------------------

/// Pads the choice table so index `n` exists, filling with empty texts.
pub open spec fn pad_to(acc: Seq<Seq<u8>>, n: int) -> Seq<Seq<u8>> {
    if n < acc.len() {
        acc
    } else {
        acc + Seq::new((n + 1 - acc.len()) as nat, |x: int| Seq::<u8>::empty())
    }
}

/// One completion choice: its text and index, when shaped as expected.
pub open spec fn choice_text_index(c: Jv) -> Option<(Seq<u8>, int)> {
    match (spec_obj_get(c, encode_utf8("text"@)), spec_obj_get(c, encode_utf8("index"@))) {
        (Some(Jv::Str(s)), Some(Jv::Int(n))) => if 0 <= n <= usize::MAX {
            Some((s, n))
        } else {
            None
        },
        _ => None,
    }
}

/// Accumulates one completion choice into the table.
pub open spec fn accum_text(acc: Seq<Seq<u8>>, n: int, s: Seq<u8>) -> Seq<Seq<u8>> {
    let padded = pad_to(acc, n);
    padded.update(n, padded[n] + s)
}

/// Folds completion choices into the table.
pub open spec fn accum_choices(acc: Seq<Seq<u8>>, cs: Seq<Jv>) -> Option<Seq<Seq<u8>>>
    decreases cs.len(),
{
    if cs.len() == 0 {
        Some(acc)
    } else {
        match choice_text_index(cs[0]) {
            None => None,
            Some(p) => accum_choices(accum_text(acc, p.1, p.0), cs.drop_first()),
        }
    }
}

/// Folds whole completion events: every event must carry a `choices` array.
pub open spec fn accum_events(acc: Seq<Seq<u8>>, evs: Seq<Jv>) -> Option<Seq<Seq<u8>>>
    decreases evs.len(),
{
    if evs.len() == 0 {
        Some(acc)
    } else {
        match spec_obj_get(evs[0], encode_utf8("choices"@)) {
            Some(Jv::Arr(cs)) => match accum_choices(acc, cs) {
                None => None,
                Some(a2) => accum_events(a2, evs.drop_first()),
            },
            _ => None,
        }
    }
}

proof fn lemma_accum_choices_snoc(acc: Seq<Seq<u8>>, cs: Seq<Jv>, k: int)
    requires
        0 <= k < cs.len(),
    ensures
        accum_choices(acc, cs.take(k + 1)) == (match accum_choices(acc, cs.take(k)) {
            None => None,
            Some(a) => match choice_text_index(cs[k]) {
                None => None,
                Some(p) => Some(accum_text(a, p.1, p.0)),
            },
        }),
    decreases k,
{
    if k == 0 {
        assert(cs.take(1).drop_first() =~= Seq::<Jv>::empty());
        assert(cs.take(0) =~= Seq::<Jv>::empty());
        assert(cs.take(1)[0] == cs[0]);
        match choice_text_index(cs[0]) {
            None => {},
            Some(p) => {
                assert(accum_choices(accum_text(acc, p.1, p.0), Seq::<Jv>::empty()) == Some(
                    accum_text(acc, p.1, p.0),
                ));
            },
        }
    } else {
        assert(cs.take(k + 1)[0] == cs[0]);
        assert(cs.take(k + 1).drop_first() =~= cs.drop_first().take(k));
        assert(cs.take(k)[0] == cs[0]);
        assert(cs.take(k).drop_first() =~= cs.drop_first().take(k - 1));
        match choice_text_index(cs[0]) {
            None => {},
            Some(p) => {
                lemma_accum_choices_snoc(accum_text(acc, p.1, p.0), cs.drop_first(), k - 1);
                assert(cs.drop_first()[k - 1] == cs[k]);
            },
        }
    }
}

proof fn lemma_accum_events_snoc(acc: Seq<Seq<u8>>, evs: Seq<Jv>, k: int)
    requires
        0 <= k < evs.len(),
    ensures
        accum_events(acc, evs.take(k + 1)) == (match accum_events(acc, evs.take(k)) {
            None => None,
            Some(a) => match spec_obj_get(evs[k], encode_utf8("choices"@)) {
                Some(Jv::Arr(cs)) => accum_choices(a, cs),
                _ => None,
            },
        }),
    decreases k,
{
    if k == 0 {
        assert(evs.take(1).drop_first() =~= Seq::<Jv>::empty());
        assert(evs.take(0) =~= Seq::<Jv>::empty());
        assert(evs.take(1)[0] == evs[0]);
        match spec_obj_get(evs[0], encode_utf8("choices"@)) {
            Some(Jv::Arr(cs)) => {
                match accum_choices(acc, cs) {
                    None => {},
                    Some(a2) => {
                        assert(accum_events(a2, Seq::<Jv>::empty()) == Some(a2));
                    },
                }
            },
            _ => {},
        }
    } else {
        assert(evs.take(k + 1)[0] == evs[0]);
        assert(evs.take(k + 1).drop_first() =~= evs.drop_first().take(k));
        assert(evs.take(k)[0] == evs[0]);
        assert(evs.take(k).drop_first() =~= evs.drop_first().take(k - 1));
        match spec_obj_get(evs[0], encode_utf8("choices"@)) {
            Some(Jv::Arr(cs)) => {
                match accum_choices(acc, cs) {
                    None => {},
                    Some(a2) => {
                        lemma_accum_events_snoc(a2, evs.drop_first(), k - 1);
                        assert(evs.drop_first()[k - 1] == evs[k]);
                    },
                }
            },
            _ => {},
        }
    }
}

/// Appends bytes to the table entry at `index`, padding as needed.
#[verifier::loop_isolation(false)]
fn accum_into(acc: &mut Vec<Vec<u8>>, index: usize, s: &[u8])
    ensures
        final(acc).deep_view() == accum_text(old(acc).deep_view(), index as int, s@),
{
    let ghost before = acc.deep_view();
    if acc.len() <= index {
        while acc.len() <= index
            invariant
                before.len() <= acc.deep_view().len() <= index + 1,
                acc.deep_view() =~~= pad_to(before, index as int).take(
                    acc.deep_view().len() as int,
                ),
            decreases index + 1 - acc.len(),
        {
            let ghost cur = acc.deep_view();
            acc.push(Vec::new());
            proof {
                assert(acc.deep_view() =~~= cur.push(Seq::<u8>::empty()));
                assert(pad_to(before, index as int).len() == index + 1);
                assert(pad_to(before, index as int)[cur.len() as int] =~= Seq::<u8>::empty());
                assert(acc.deep_view() =~~= pad_to(before, index as int).take(
                    acc.deep_view().len() as int,
                ));
            }
        }
    }
    proof {
        assert(acc.deep_view() =~~= pad_to(before, index as int));
    }
    let ghost padded = acc.deep_view();
    let prev = &acc[index];
    let mut joined = crate::json::copy_range(prev.as_slice(), 0, prev.len());
    joined.extend_from_slice(s);
    acc.set(index, joined);
    proof {
        assert(acc.deep_view() =~~= padded.update(index as int, padded[index as int] + s@));
    }
}

// ---------------------------------------------------------------------------
// Counting
// ---------------------------------------------------------------------------

/// A malformed choice spoils the whole fold.
proof fn lemma_accum_choices_fail(acc: Seq<Seq<u8>>, cs: Seq<Jv>, k: int)
    requires
        0 <= k < cs.len(),
        accum_choices(acc, cs.take(k)) is Some,
        choice_text_index(cs[k]) is None,
    ensures
        accum_choices(acc, cs) is None,
    decreases k,
{
    if k == 0 {
        assert(cs.take(0) =~= Seq::<Jv>::empty());
    } else {
        assert(cs.take(k)[0] == cs[0]);
        assert(cs.take(k).drop_first() =~= cs.drop_first().take(k - 1));
        match choice_text_index(cs[0]) {
            None => {},
            Some(p) => {
                lemma_accum_choices_fail(accum_text(acc, p.1, p.0), cs.drop_first(), k - 1);
                assert(cs.drop_first()[k - 1] == cs[k]);
            },
        }
    }
}

/// A malformed event spoils the whole fold.
proof fn lemma_accum_events_fail(acc: Seq<Seq<u8>>, evs: Seq<Jv>, k: int)
    requires
        0 <= k < evs.len(),
        accum_events(acc, evs.take(k)) matches Some(a) && (match spec_obj_get(
            evs[k],
            encode_utf8("choices"@),
        ) {
            Some(Jv::Arr(cs)) => accum_choices(a, cs) is None,
            _ => true,
        }),
    ensures
        accum_events(acc, evs) is None,
    decreases k,
{
    if k == 0 {
        assert(evs.take(0) =~= Seq::<Jv>::empty());
    } else {
        assert(evs.take(k)[0] == evs[0]);
        assert(evs.take(k).drop_first() =~= evs.drop_first().take(k - 1));
        match spec_obj_get(evs[0], encode_utf8("choices"@)) {
            Some(Jv::Arr(cs)) => {
                match accum_choices(acc, cs) {
                    None => {},
                    Some(a2) => {
                        lemma_accum_events_fail(a2, evs.drop_first(), k - 1);
                        assert(evs.drop_first()[k - 1] == evs[k]);
                    },
                }
            },
            _ => {},
        }
    }
}

/// The summed token counts of the texts, when the tokenizer counts each.
pub open spec fn sum_text_tokens(model: Seq<u8>, texts: Seq<Seq<u8>>) -> Option<int>
    decreases texts.len(),
{
    if texts.len() == 0 {
        Some(0)
    } else {
        match (text_tokens(model, texts[0]), sum_text_tokens(model, texts.drop_first())) {
            (Some(a), Some(b)) => Some(a + b),
            _ => None,
        }
    }
}

proof fn lemma_sum_text_tokens_snoc(model: Seq<u8>, texts: Seq<Seq<u8>>, k: int)
    requires
        0 <= k < texts.len(),
    ensures
        sum_text_tokens(model, texts.take(k + 1)) == (match (
            sum_text_tokens(model, texts.take(k)),
            text_tokens(model, texts[k]),
        ) {
            (Some(a), Some(b)) => Some(a + b),
            _ => None,
        }),
    decreases k,
{
    if k == 0 {
        assert(texts.take(1).drop_first() =~= Seq::<Seq<u8>>::empty());
        assert(texts.take(0) =~= Seq::<Seq<u8>>::empty());
        assert(texts.take(1)[0] == texts[0]);
    } else {
        assert(texts.take(k + 1)[0] == texts[0]);
        assert(texts.take(k + 1).drop_first() =~= texts.drop_first().take(k));
        assert(texts.take(k)[0] == texts[0]);
        assert(texts.take(k).drop_first() =~= texts.drop_first().take(k - 1));
        lemma_sum_text_tokens_snoc(model, texts.drop_first(), k - 1);
        assert(texts.drop_first()[k - 1] == texts[k]);
    }
}

/// What prompt counting yields for a completions request: the `prompt`
/// string's count, or zero for a request without one — provided the model
/// has a tokenizer at all.
pub open spec fn spec_prompt_tokens(model: Seq<u8>, req: Jv) -> Option<int> {
    match spec_obj_get(req, encode_utf8("prompt"@)) {
        Some(Jv::Str(s)) => match text_tokens(model, s) {
            Some(n) => Some(n as int),
            None => None,
        },
        _ => match text_tokens(model, Seq::<u8>::empty()) {
            Some(_) => Some(0),
            None => None,
        },
    }
}

/// The estimated usage of a streamed completions response: the prompt's
/// count and the summed counts of the reassembled choice texts.
pub open spec fn spec_completions_usage(model: Seq<u8>, req: Jv, evs: Seq<Jv>) -> Option<
    (int, int),
> {
    match spec_prompt_tokens(model, req) {
        None => None,
        Some(p) => match accum_events(Seq::empty(), evs) {
            None => None,
            Some(texts) => match sum_text_tokens(model, texts) {
                None => None,
                Some(c) => Some((p, c)),
            },
        },
    }
}

/// Builds the usage triple, refusing a total that cannot be represented.
fn build_usage(p: usize, c: usize) -> (r: Option<TokenUsage>)
    ensures
        p + c <= usize::MAX ==> (r matches Some(u) && u.prompt_tokens == p && u.completion_tokens
            == c && u.total_tokens == p + c),
        p + c > usize::MAX ==> r is None,
{
    if c <= usize::MAX - p {
        Some(TokenUsage { prompt_tokens: p, completion_tokens: c, total_tokens: p + c })
    } else {
        None
    }
}

/// Estimates the usage of a streamed completions response from its events.
#[verifier::loop_isolation(false)]
#[verifier::rlimit(60)]
pub fn count_completions_tokens(model: &[u8], req: &JsonValue, events: &Vec<JsonValue>) -> (r:
    Option<TokenUsage>)
    ensures
        match spec_completions_usage(model@, req@, events.deep_view()) {
            Some(pc) => if pc.0 + pc.1 <= usize::MAX {
                r matches Some(u) && u.prompt_tokens == pc.0 && u.completion_tokens == pc.1
                    && u.total_tokens == pc.0 + pc.1
            } else {
                r is None
            },
            None => r is None,
        },
{
    // the prompt
    let pk = ("prompt").as_bytes_vec();
    let prompt_count: usize = match req.get(pk.as_slice()) {
        Some(v) => match v.as_str_bytes() {
            Some(s) => match text_token_count(model, s.as_slice()) {
                Some(n) => n,
                None => {
                    return None;
                },
            },
            None => match text_token_count(model, empty_bytes().as_slice()) {
                Some(_) => 0,
                None => {
                    return None;
                },
            },
        },
        None => match text_token_count(model, empty_bytes().as_slice()) {
            Some(_) => 0,
            None => {
                return None;
            },
        },
    };
    proof {
        assert(spec_prompt_tokens(model@, req@) == Some(prompt_count as int));
    }
    // the choice table
    let empty_vec: Vec<u8> = Vec::new();
    let mut acc: Vec<Vec<u8>> = Vec::new();
    let ghost evs = events.deep_view();
    let mut i: usize = 0;
    proof {
        assert(evs.take(0) =~= Seq::<Jv>::empty());
        assert(acc.deep_view() =~~= Seq::<Seq<u8>>::empty());
    }
    while i < events.len()
        invariant
            i <= events@.len(),
            evs == events.deep_view(),
            evs.len() == events@.len(),
            forall|x: int| 0 <= x < events@.len() ==> evs[x] == (#[trigger] events@[x])@,
            accum_events(Seq::empty(), evs.take(i as int)) == Some(acc.deep_view()),
        decreases events@.len() - i,
    {
        proof {
            lemma_accum_events_snoc(Seq::empty(), evs, i as int);
        }
        let ck = ("choices").as_bytes_vec();
        let choices = match events[i].get(ck.as_slice()) {
            Some(v) => match v {
                JsonValue::Arr(cs) => cs,
                _ => {
                    proof {
                        lemma_accum_events_fail(Seq::empty(), evs, i as int);
                    }
                    return None;
                },
            },
            None => {
                proof {
                    lemma_accum_events_fail(Seq::empty(), evs, i as int);
                }
                return None;
            },
        };
        let ghost cs_view = crate::json::jv_list(choices@);
        proof {
            crate::json::lemma_jv_list(choices@);
            assert(cs_view.take(0) =~= Seq::<Jv>::empty());
        }
        let mut j: usize = 0;
        while j < choices.len()
            invariant
                j <= choices@.len(),
                cs_view == crate::json::jv_list(choices@),
                cs_view.len() == choices@.len(),
                forall|x: int| 0 <= x < choices@.len() ==> cs_view[x] == (#[trigger] choices@[x])@,
                accum_choices(
                    accum_events(Seq::empty(), evs.take(i as int))->0,
                    cs_view.take(j as int),
                ) == Some(acc.deep_view()),
            decreases choices@.len() - j,
        {
            proof {
                lemma_accum_choices_snoc(
                    accum_events(Seq::empty(), evs.take(i as int))->0,
                    cs_view,
                    j as int,
                );
            }
            let tk = ("text").as_bytes_vec();
            let ik = ("index").as_bytes_vec();
            let mut shape_ok = true;
            let mut text: &Vec<u8> = &empty_vec;
            match choices[j].get(tk.as_slice()) {
                Some(v) => match v.as_str_bytes() {
                    Some(sv) => {
                        text = sv;
                    },
                    None => {
                        shape_ok = false;
                    },
                },
                None => {
                    shape_ok = false;
                },
            }
            let mut index: usize = 0;
            match choices[j].get(ik.as_slice()) {
                Some(v) => match v.as_int() {
                    Some(n) => {
                        if n < 0 || !i64_fits_usize(n) {
                            shape_ok = false;
                        } else {
                            index = n as usize;
                        }
                    },
                    None => {
                        shape_ok = false;
                    },
                },
                None => {
                    shape_ok = false;
                },
            }
            if !shape_ok {
                proof {
                    lemma_accum_choices_fail(
                        accum_events(Seq::empty(), evs.take(i as int))->0,
                        cs_view,
                        j as int,
                    );
                    lemma_accum_events_fail(Seq::empty(), evs, i as int);
                }
                return None;
            }
            proof {
                assert(cs_view[j as int] == choices@[j as int]@);
                assert(choice_text_index(cs_view[j as int]) == Some((text@, index as int)));
            }
            let tcopy = crate::json::copy_range(text.as_slice(), 0, text.len());
            proof {
                assert(tcopy@ =~= text@);
            }
            accum_into(&mut acc, index, tcopy.as_slice());
            j = j + 1;
        }
        proof {
            assert(cs_view.take(cs_view.len() as int) =~= cs_view);
        }
        i = i + 1;
    }
    proof {
        assert(evs.take(evs.len() as int) =~= evs);
    }
    // sum the choice counts
    let mut total: usize = 0;
    let ghost texts = acc.deep_view();
    let mut k: usize = 0;
    proof {
        assert(texts.take(0) =~= Seq::<Seq<u8>>::empty());
    }
    while k < acc.len()
        invariant
            k <= acc@.len(),
            texts == acc.deep_view(),
            texts.len() == acc@.len(),
            forall|x: int| 0 <= x < acc@.len() ==> texts[x] == (#[trigger] acc@[x])@,
            sum_text_tokens(model@, texts.take(k as int)) == Some(total as int),
        decreases acc@.len() - k,
    {
        proof {
            lemma_sum_text_tokens_snoc(model@, texts, k as int);
        }
        let n = match text_token_count(model, acc[k].as_slice()) {
            Some(n) => n,
            None => {
                proof {
                    lemma_sum_none_sticks(model@, texts, k as int);
                }
                return None;
            },
        };
        if n > usize::MAX - total {
            proof {
                lemma_sum_text_tokens_prefix_min(model@, texts, k as int);
            }
            return None;
        }
        total = total + n;
        k = k + 1;
    }
    proof {
        assert(texts.take(texts.len() as int) =~= texts);
    }
    build_usage(prompt_count, total)
}

/// Token counts only grow as more texts are summed.
proof fn lemma_sum_text_tokens_prefix_min(model: Seq<u8>, texts: Seq<Seq<u8>>, k: int)
    requires
        0 <= k < texts.len(),
    ensures
        match (sum_text_tokens(model, texts.take(k + 1)), sum_text_tokens(model, texts)) {
            (Some(a), Some(b)) => a <= b,
            _ => true,
        },
    decreases texts.len() - k,
{
    if k + 1 < texts.len() {
        lemma_sum_text_tokens_snoc(model, texts, k + 1);
        lemma_sum_text_tokens_prefix_min(model, texts, k + 1);
        match text_tokens(model, texts[k + 1]) {
            Some(n) => {},
            None => {
                lemma_sum_none_sticks(model, texts, k + 1);
            },
        }
    } else {
        assert(texts.take(k + 1) =~= texts);
    }
}

/// A text the tokenizer cannot count spoils the whole sum.
proof fn lemma_sum_none_sticks(model: Seq<u8>, texts: Seq<Seq<u8>>, k: int)
    requires
        0 <= k < texts.len(),
        text_tokens(model, texts[k]) is None,
    ensures
        sum_text_tokens(model, texts) is None,
    decreases k,
{
    if k == 0 {
    } else {
        lemma_sum_none_sticks(model, texts.drop_first(), k - 1);
        assert(texts.drop_first()[k - 1] == texts[k]);
    }
}

/// No bytes at all: the empty text.
fn empty_bytes() -> (r: Vec<u8>)
    ensures
        r@ == Seq::<u8>::empty(),
{
    Vec::new()
}

/// Whether an index value fits the platform's table sizes.
fn i64_fits_usize(n: i64) -> (r: bool)
    requires
        n >= 0,
    ensures
        r == (n <= usize::MAX),
{
    n as u64 <= usize::MAX as u64
}


// ---------------------------------------------------------------------------
// Chat messages
// ---------------------------------------------------------------------------

/// One request chat message: a string role and content, an optional string
/// name; anything else is malformed.
pub open spec fn chat_msg_view(m: Jv) -> Option<(Seq<u8>, Seq<u8>, Option<Seq<u8>>)> {
    match (spec_obj_get(m, encode_utf8("role"@)), spec_obj_get(m, encode_utf8("content"@))) {
        (Some(Jv::Str(r)), Some(Jv::Str(c))) => match spec_obj_get(m, encode_utf8("name"@)) {
            None => Some((r, c, None)),
            Some(Jv::Null) => Some((r, c, None)),
            Some(Jv::Str(n)) => Some((r, c, Some(n))),
            _ => None,
        },
        _ => None,
    }
}

/// The request's message list, when every message is well shaped.
pub open spec fn parse_chat_messages(ms: Seq<Jv>) -> Option<
    Seq<(Seq<u8>, Seq<u8>, Option<Seq<u8>>)>,
>
    decreases ms.len(),
{
    if ms.len() == 0 {
        Some(Seq::empty())
    } else {
        match (chat_msg_view(ms[0]), parse_chat_messages(ms.drop_first())) {
            (Some(h), Some(t)) => Some(seq![h] + t),
            _ => None,
        }
    }
}

proof fn lemma_parse_chat_snoc(ms: Seq<Jv>, k: int)
    requires
        0 <= k < ms.len(),
    ensures
        parse_chat_messages(ms.take(k + 1)) == (match (
            parse_chat_messages(ms.take(k)),
            chat_msg_view(ms[k]),
        ) {
            (Some(t), Some(h)) => Some(t.push(h)),
            _ => None,
        }),
    decreases k,
{
    if k == 0 {
        assert(ms.take(1).drop_first() =~= Seq::<Jv>::empty());
        assert(ms.take(0) =~= Seq::<Jv>::empty());
        assert(ms.take(1)[0] == ms[0]);
        match chat_msg_view(ms[0]) {
            Some(h) => {
                assert(seq![h] + Seq::<(Seq<u8>, Seq<u8>, Option<Seq<u8>>)>::empty() =~= Seq::<
                    (Seq<u8>, Seq<u8>, Option<Seq<u8>>),
                >::empty().push(h));
            },
            None => {},
        }
    } else {
        assert(ms.take(k + 1)[0] == ms[0]);
        assert(ms.take(k + 1).drop_first() =~= ms.drop_first().take(k));
        assert(ms.take(k)[0] == ms[0]);
        assert(ms.take(k).drop_first() =~= ms.drop_first().take(k - 1));
        lemma_parse_chat_snoc(ms.drop_first(), k - 1);
        assert(ms.drop_first()[k - 1] == ms[k]);
        match (chat_msg_view(ms[0]), parse_chat_messages(ms.drop_first().take(k - 1)), chat_msg_view(
            ms[k],
        )) {
            (Some(h0), Some(t), Some(hk)) => {
                assert(seq![h0] + t.push(hk) =~= (seq![h0] + t).push(hk));
            },
            _ => {},
        }
    }
}

proof fn lemma_parse_chat_fail(ms: Seq<Jv>, k: int)
    requires
        0 <= k < ms.len(),
        chat_msg_view(ms[k]) is None,
    ensures
        parse_chat_messages(ms) is None,
    decreases k,
{
    if k > 0 {
        lemma_parse_chat_fail(ms.drop_first(), k - 1);
        assert(ms.drop_first()[k - 1] == ms[k]);
    }
}

/// The role after one delta: the first string role seen fixes the running
/// one, an absent or null role keeps it, anything else is malformed.
pub open spec fn delta_role(d: Jv, cur: Option<Seq<u8>>) -> Option<Option<Seq<u8>>> {
    match spec_obj_get(d, encode_utf8("role"@)) {
        None => Some(cur),
        Some(Jv::Null) => Some(cur),
        Some(Jv::Str(r)) => Some(
            match cur {
                Some(fixed) => Some(fixed),
                None => Some(r),
            },
        ),
        _ => None,
    }
}

/// The fixed role's bytes, or none at all when no delta named one.
pub open spec fn role_bytes(r: Option<Seq<u8>>) -> Seq<u8> {
    match r {
        Some(s) => s,
        None => Seq::empty(),
    }
}

/// The view of an optionally fixed role.
pub open spec fn opt_bytes_view(o: Option<Vec<u8>>) -> Option<Seq<u8>> {
    match o {
        Some(r) => Some(r@),
        None => None,
    }
}

/// The content a delta contributes, if any.
pub open spec fn delta_content(d: Jv) -> Option<Option<Seq<u8>>> {
    match spec_obj_get(d, encode_utf8("content"@)) {
        None => Some(None),
        Some(Jv::Null) => Some(None),
        Some(Jv::Str(c)) => Some(Some(c)),
        _ => None,
    }
}

/// One chat stream choice folded into the running role and choice table.
pub open spec fn chat_choice_step(st: (Option<Seq<u8>>, Seq<Seq<u8>>), c: Jv) -> Option<
    (Option<Seq<u8>>, Seq<Seq<u8>>),
> {
    match (spec_obj_get(c, encode_utf8("delta"@)), spec_obj_get(c, encode_utf8("index"@))) {
        (Some(d), Some(Jv::Int(n))) => if d is Obj && 0 <= n <= usize::MAX {
            match (delta_role(d, st.0), delta_content(d)) {
                (Some(role2), Some(copt)) => {
                    let padded = pad_to(st.1, n);
                    let acc2 = match copt {
                        Some(cb) => padded.update(n, padded[n] + cb),
                        None => padded,
                    };
                    Some((role2, acc2))
                },
                _ => None,
            }
        } else {
            None
        },
        _ => None,
    }
}

pub open spec fn chat_choices_fold(st: (Option<Seq<u8>>, Seq<Seq<u8>>), cs: Seq<Jv>) -> Option<
    (Option<Seq<u8>>, Seq<Seq<u8>>),
>
    decreases cs.len(),
{
    if cs.len() == 0 {
        Some(st)
    } else {
        match chat_choice_step(st, cs[0]) {
            None => None,
            Some(st2) => chat_choices_fold(st2, cs.drop_first()),
        }
    }
}

pub open spec fn chat_events_fold(st: (Option<Seq<u8>>, Seq<Seq<u8>>), evs: Seq<Jv>) -> Option<
    (Option<Seq<u8>>, Seq<Seq<u8>>),
>
    decreases evs.len(),
{
    if evs.len() == 0 {
        Some(st)
    } else {
        match spec_obj_get(evs[0], encode_utf8("choices"@)) {
            Some(Jv::Arr(cs)) => match chat_choices_fold(st, cs) {
                None => None,
                Some(st2) => chat_events_fold(st2, evs.drop_first()),
            },
            _ => None,
        }
    }
}

proof fn lemma_chat_choices_snoc(st: (Option<Seq<u8>>, Seq<Seq<u8>>), cs: Seq<Jv>, k: int)
    requires
        0 <= k < cs.len(),
    ensures
        chat_choices_fold(st, cs.take(k + 1)) == (match chat_choices_fold(st, cs.take(k)) {
            None => None,
            Some(a) => chat_choice_step(a, cs[k]),
        }),
    decreases k,
{
    if k == 0 {
        assert(cs.take(1).drop_first() =~= Seq::<Jv>::empty());
        assert(cs.take(0) =~= Seq::<Jv>::empty());
        assert(cs.take(1)[0] == cs[0]);
        match chat_choice_step(st, cs[0]) {
            None => {},
            Some(st2) => {
                assert(chat_choices_fold(st2, Seq::<Jv>::empty()) == Some(st2));
            },
        }
    } else {
        assert(cs.take(k + 1)[0] == cs[0]);
        assert(cs.take(k + 1).drop_first() =~= cs.drop_first().take(k));
        assert(cs.take(k)[0] == cs[0]);
        assert(cs.take(k).drop_first() =~= cs.drop_first().take(k - 1));
        match chat_choice_step(st, cs[0]) {
            None => {},
            Some(st2) => {
                lemma_chat_choices_snoc(st2, cs.drop_first(), k - 1);
                assert(cs.drop_first()[k - 1] == cs[k]);
            },
        }
    }
}

proof fn lemma_chat_events_snoc(st: (Option<Seq<u8>>, Seq<Seq<u8>>), evs: Seq<Jv>, k: int)
    requires
        0 <= k < evs.len(),
    ensures
        chat_events_fold(st, evs.take(k + 1)) == (match chat_events_fold(st, evs.take(k)) {
            None => None,
            Some(a) => match spec_obj_get(evs[k], encode_utf8("choices"@)) {
                Some(Jv::Arr(cs)) => chat_choices_fold(a, cs),
                _ => None,
            },
        }),
    decreases k,
{
    if k == 0 {
        assert(evs.take(1).drop_first() =~= Seq::<Jv>::empty());
        assert(evs.take(0) =~= Seq::<Jv>::empty());
        assert(evs.take(1)[0] == evs[0]);
        match spec_obj_get(evs[0], encode_utf8("choices"@)) {
            Some(Jv::Arr(cs)) => {
                match chat_choices_fold(st, cs) {
                    None => {},
                    Some(st2) => {
                        assert(chat_events_fold(st2, Seq::<Jv>::empty()) == Some(st2));
                    },
                }
            },
            _ => {},
        }
    } else {
        assert(evs.take(k + 1)[0] == evs[0]);
        assert(evs.take(k + 1).drop_first() =~= evs.drop_first().take(k));
        assert(evs.take(k)[0] == evs[0]);
        assert(evs.take(k).drop_first() =~= evs.drop_first().take(k - 1));
        match spec_obj_get(evs[0], encode_utf8("choices"@)) {
            Some(Jv::Arr(cs)) => {
                match chat_choices_fold(st, cs) {
                    None => {},
                    Some(st2) => {
                        lemma_chat_events_snoc(st2, evs.drop_first(), k - 1);
                        assert(evs.drop_first()[k - 1] == evs[k]);
                    },
                }
            },
            _ => {},
        }
    }
}

proof fn lemma_chat_choices_fail(st: (Option<Seq<u8>>, Seq<Seq<u8>>), cs: Seq<Jv>, k: int)
    requires
        0 <= k < cs.len(),
        chat_choices_fold(st, cs.take(k)) matches Some(a) && chat_choice_step(a, cs[k]) is None,
    ensures
        chat_choices_fold(st, cs) is None,
    decreases k,
{
    if k == 0 {
        assert(cs.take(0) =~= Seq::<Jv>::empty());
    } else {
        assert(cs.take(k)[0] == cs[0]);
        assert(cs.take(k).drop_first() =~= cs.drop_first().take(k - 1));
        match chat_choice_step(st, cs[0]) {
            None => {},
            Some(st2) => {
                lemma_chat_choices_fail(st2, cs.drop_first(), k - 1);
                assert(cs.drop_first()[k - 1] == cs[k]);
            },
        }
    }
}

proof fn lemma_chat_events_fail(st: (Option<Seq<u8>>, Seq<Seq<u8>>), evs: Seq<Jv>, k: int)
    requires
        0 <= k < evs.len(),
        chat_events_fold(st, evs.take(k)) matches Some(a) && (match spec_obj_get(
            evs[k],
            encode_utf8("choices"@),
        ) {
            Some(Jv::Arr(cs)) => chat_choices_fold(a, cs) is None,
            _ => true,
        }),
    ensures
        chat_events_fold(st, evs) is None,
    decreases k,
{
    if k == 0 {
        assert(evs.take(0) =~= Seq::<Jv>::empty());
    } else {
        assert(evs.take(k)[0] == evs[0]);
        assert(evs.take(k).drop_first() =~= evs.drop_first().take(k - 1));
        match spec_obj_get(evs[0], encode_utf8("choices"@)) {
            Some(Jv::Arr(cs)) => {
                match chat_choices_fold(st, cs) {
                    None => {},
                    Some(st2) => {
                        lemma_chat_events_fail(st2, evs.drop_first(), k - 1);
                        assert(evs.drop_first()[k - 1] == evs[k]);
                    },
                }
            },
            _ => {},
        }
    }
}

/// The assistant messages rebuilt from the stream: one per choice, all with
/// the final role and no name.
pub open spec fn rebuilt_messages(role: Seq<u8>, texts: Seq<Seq<u8>>) -> Seq<
    (Seq<u8>, Seq<u8>, Option<Seq<u8>>),
> {
    Seq::new(texts.len(), |i: int| (role, texts[i], None))
}

/// The estimated usage of a streamed chat response: the chat-message token
/// formula over the request's messages and over the messages rebuilt from
/// the deltas.
pub open spec fn spec_chat_usage(model: Seq<u8>, req: Jv, evs: Seq<Jv>) -> Option<(int, int)> {
    match spec_obj_get(req, encode_utf8("messages"@)) {
        Some(Jv::Arr(ms)) => match parse_chat_messages(ms) {
            None => None,
            Some(pmsgs) => match message_tokens(model, pmsgs) {
                None => None,
                Some(p) => match chat_events_fold((None, Seq::empty()), evs) {
                    None => None,
                    Some(st) => match message_tokens(
                        model,
                        rebuilt_messages(role_bytes(st.0), st.1),
                    ) {
                        None => None,
                        Some(c) => Some((p as int, c as int)),
                    },
                },
            },
        },
        _ => None,
    }
}

/// Estimates the usage of a streamed chat response from its events.
#[verifier::loop_isolation(false)]
#[verifier::rlimit(100)]
pub fn count_chat_tokens(model: &[u8], req: &JsonValue, events: &Vec<JsonValue>) -> (r: Option<
    TokenUsage,
>)
    ensures
        match spec_chat_usage(model@, req@, events.deep_view()) {
            Some(pc) => if pc.0 + pc.1 <= usize::MAX {
                r matches Some(u) && u.prompt_tokens == pc.0 && u.completion_tokens == pc.1
                    && u.total_tokens == pc.0 + pc.1
            } else {
                r is None
            },
            None => r is None,
        },
{
    // the request messages
    let mk = ("messages").as_bytes_vec();
    let msgs_json = match req.get(mk.as_slice()) {
        Some(v) => match v {
            JsonValue::Arr(ms) => ms,
            _ => {
                return None;
            },
        },
        None => {
            return None;
        },
    };
    let ghost ms_view = crate::json::jv_list(msgs_json@);
    proof {
        crate::json::lemma_jv_list(msgs_json@);
        assert(ms_view.take(0) =~= Seq::<Jv>::empty());
        assert(parse_chat_messages(Seq::<Jv>::empty()) == Some(
            Seq::<(Seq<u8>, Seq<u8>, Option<Seq<u8>>)>::empty(),
        ));
    }
    let mut pmsgs: Vec<ChatMessage> = Vec::new();
    let mut i: usize = 0;
    proof {
        assert(pmsgs.deep_view() =~= Seq::<(Seq<u8>, Seq<u8>, Option<Seq<u8>>)>::empty());
    }
    while i < msgs_json.len()
        invariant
            i <= msgs_json@.len(),
            ms_view == crate::json::jv_list(msgs_json@),
            ms_view.len() == msgs_json@.len(),
            forall|x: int| 0 <= x < msgs_json@.len() ==> ms_view[x] == (#[trigger] msgs_json@[x])@,
            parse_chat_messages(ms_view.take(i as int)) == Some(pmsgs.deep_view()),
        decreases msgs_json@.len() - i,
    {
        proof {
            lemma_parse_chat_snoc(ms_view, i as int);
        }
        let rk = ("role").as_bytes_vec();
        let ck = ("content").as_bytes_vec();
        let nk = ("name").as_bytes_vec();
        let m = &msgs_json[i];
        let mut ok = true;
        let mut role: Vec<u8> = Vec::new();
        let mut content: Vec<u8> = Vec::new();
        let mut name: Option<Vec<u8>> = None;
        match m.get(rk.as_slice()) {
            Some(v) => match v.as_str_bytes() {
                Some(s) => {
                    role = crate::json::copy_range(s.as_slice(), 0, s.len());
                    proof {
                        assert(role@ =~= s@);
                    }
                },
                None => {
                    ok = false;
                },
            },
            None => {
                ok = false;
            },
        }
        match m.get(ck.as_slice()) {
            Some(v) => match v.as_str_bytes() {
                Some(s) => {
                    content = crate::json::copy_range(s.as_slice(), 0, s.len());
                    proof {
                        assert(content@ =~= s@);
                    }
                },
                None => {
                    ok = false;
                },
            },
            None => {
                ok = false;
            },
        }
        match m.get(nk.as_slice()) {
            Some(v) => match v {
                JsonValue::Str(s) => {
                    let nc = crate::json::copy_range(s.as_slice(), 0, s.len());
                    proof {
                        assert(nc@ =~= s@);
                    }
                    name = Some(nc);
                },
                JsonValue::Null => {},
                _ => {
                    ok = false;
                },
            },
            None => {},
        }
        if !ok {
            proof {
                assert(chat_msg_view(ms_view[i as int]) is None);
                lemma_parse_chat_fail(ms_view, i as int);
            }
            return None;
        }
        proof {
            assert(chat_msg_view(ms_view[i as int]) matches Some(h) && h == (role@, content@, (
            match name {
                Some(n) => Some(n@),
                None => None,
            })));
        }
        pmsgs.push(ChatMessage { role, content, name });
        i = i + 1;
        proof {
            assert(parse_chat_messages(ms_view.take(i as int)) == Some(pmsgs.deep_view()));
        }
    }
    proof {
        assert(ms_view.take(ms_view.len() as int) =~= ms_view);
    }
    let prompt_count = match chat_token_count(model, &pmsgs) {
        Some(n) => n,
        None => {
            return None;
        },
    };
    // the deltas
    let ghost evs = events.deep_view();
    let mut role_acc: Option<Vec<u8>> = None;
    let mut acc: Vec<Vec<u8>> = Vec::new();
    let mut ei: usize = 0;
    proof {
        assert(evs.take(0) =~= Seq::<Jv>::empty());
        assert(acc.deep_view() =~~= Seq::<Seq<u8>>::empty());
    }
    while ei < events.len()
        invariant
            ei <= events@.len(),
            evs == events.deep_view(),
            evs.len() == events@.len(),
            forall|x: int| 0 <= x < events@.len() ==> evs[x] == (#[trigger] events@[x])@,
            chat_events_fold((None, Seq::empty()), evs.take(ei as int)) == Some(
                (opt_bytes_view(role_acc), acc.deep_view()),
            ),
        decreases events@.len() - ei,
    {
        proof {
            lemma_chat_events_snoc((None, Seq::empty()), evs, ei as int);
        }
        let chk = ("choices").as_bytes_vec();
        let choices = match events[ei].get(chk.as_slice()) {
            Some(v) => match v {
                JsonValue::Arr(cs) => cs,
                _ => {
                    proof {
                        lemma_chat_events_fail((None, Seq::empty()), evs, ei as int);
                    }
                    return None;
                },
            },
            None => {
                proof {
                    lemma_chat_events_fail((None, Seq::empty()), evs, ei as int);
                }
                return None;
            },
        };
        let ghost cs_view = crate::json::jv_list(choices@);
        proof {
            crate::json::lemma_jv_list(choices@);
            assert(cs_view.take(0) =~= Seq::<Jv>::empty());
        }
        let mut j: usize = 0;
        while j < choices.len()
            invariant
                j <= choices@.len(),
                cs_view == crate::json::jv_list(choices@),
                cs_view.len() == choices@.len(),
                forall|x: int| 0 <= x < choices@.len() ==> cs_view[x] == (#[trigger] choices@[x])@,
                chat_choices_fold(
                    chat_events_fold((None, Seq::empty()), evs.take(ei as int))->0,
                    cs_view.take(j as int),
                ) == Some((opt_bytes_view(role_acc), acc.deep_view())),
            decreases choices@.len() - j,
        {
            proof {
                lemma_chat_choices_snoc(
                    chat_events_fold((None, Seq::empty()), evs.take(ei as int))->0,
                    cs_view,
                    j as int,
                );
            }
            let dk = ("delta").as_bytes_vec();
            let ik = ("index").as_bytes_vec();
            let rk = ("role").as_bytes_vec();
            let ck = ("content").as_bytes_vec();
            let mut ok = true;
            let mut index: usize = 0;
            match choices[j].get(ik.as_slice()) {
                Some(v) => match v.as_int() {
                    Some(n) => {
                        if n < 0 || !i64_fits_usize(n) {
                            ok = false;
                        } else {
                            index = n as usize;
                        }
                    },
                    None => {
                        ok = false;
                    },
                },
                None => {
                    ok = false;
                },
            }
            let delta = match choices[j].get(dk.as_slice()) {
                Some(d) => d,
                None => {
                    proof {
                        lemma_chat_choices_fail(
                            chat_events_fold((None, Seq::empty()), evs.take(ei as int))->0,
                            cs_view,
                            j as int,
                        );
                        lemma_chat_events_fail((None, Seq::empty()), evs, ei as int);
                    }
                    return None;
                },
            };
            let is_obj = match delta {
                JsonValue::Obj(_) => true,
                _ => false,
            };
            if !is_obj {
                ok = false;
            }
            let mut new_role: Option<Vec<u8>> = None;
            if is_obj {
                match delta.get(rk.as_slice()) {
                    Some(v) => match v {
                        JsonValue::Str(s) => {
                            let rc = crate::json::copy_range(s.as_slice(), 0, s.len());
                            proof {
                                assert(rc@ =~= s@);
                            }
                            new_role = Some(rc);
                        },
                        JsonValue::Null => {},
                        _ => {
                            ok = false;
                        },
                    },
                    None => {},
                }
            }
            let mut new_content: Option<Vec<u8>> = None;
            if is_obj {
                match delta.get(ck.as_slice()) {
                    Some(v) => match v {
                        JsonValue::Str(s) => {
                            let cc = crate::json::copy_range(s.as_slice(), 0, s.len());
                            proof {
                                assert(cc@ =~= s@);
                            }
                            new_content = Some(cc);
                        },
                        JsonValue::Null => {},
                        _ => {
                            ok = false;
                        },
                    },
                    None => {},
                }
            }
            if !ok {
                proof {
                    lemma_chat_choices_fail(
                        chat_events_fold((None, Seq::empty()), evs.take(ei as int))->0,
                        cs_view,
                        j as int,
                    );
                    lemma_chat_events_fail((None, Seq::empty()), evs, ei as int);
                }
                return None;
            }
            let ghost st_before = (opt_bytes_view(role_acc), acc.deep_view());
            match new_role {
                Some(r2) => {
                    if role_acc.is_none() {
                        role_acc = Some(r2);
                    }
                },
                None => {},
            }
            match &new_content {
                Some(cb) => {
                    accum_into(&mut acc, index, cb.as_slice());
                },
                None => {
                    if acc.len() <= index {
                        let empty_cell: Vec<u8> = Vec::new();
                        accum_into(&mut acc, index, empty_cell.as_slice());
                        proof {
                            let padded = pad_to(st_before.1, index as int);
                            assert(padded.update(index as int, padded[index as int] + Seq::<
                                u8,
                            >::empty()) =~~= padded);
                        }
                    } else {
                        proof {
                            assert(pad_to(st_before.1, index as int) =~~= st_before.1);
                        }
                    }
                },
            }
            proof {
                assert(chat_choice_step(st_before, cs_view[j as int]) == Some(
                    (opt_bytes_view(role_acc), acc.deep_view()),
                ));
            }
            j = j + 1;
        }
        proof {
            assert(cs_view.take(cs_view.len() as int) =~= cs_view);
        }
        ei = ei + 1;
    }
    proof {
        assert(evs.take(evs.len() as int) =~= evs);
    }
    // rebuild the assistant messages under the fixed role
    let role_final: Vec<u8> = match &role_acc {
        Some(r) => crate::json::copy_range(r.as_slice(), 0, r.len()),
        None => Vec::new(),
    };
    proof {
        assert(role_final@ =~= role_bytes(opt_bytes_view(role_acc)));
    }
    let mut rebuilt: Vec<ChatMessage> = Vec::new();
    let mut k: usize = 0;
    let ghost texts = acc.deep_view();
    while k < acc.len()
        invariant
            k <= acc@.len(),
            texts == acc.deep_view(),
            texts.len() == acc@.len(),
            forall|x: int| 0 <= x < acc@.len() ==> texts[x] == (#[trigger] acc@[x])@,
            rebuilt.deep_view() =~= rebuilt_messages(role_final@, texts).take(k as int),
        decreases acc@.len() - k,
    {
        let rc = crate::json::copy_range(role_final.as_slice(), 0, role_final.len());
        let tc = crate::json::copy_range(acc[k].as_slice(), 0, acc[k].len());
        proof {
            assert(rc@ =~= role_final@);
            assert(tc@ =~= texts[k as int]);
        }
        rebuilt.push(ChatMessage { role: rc, content: tc, name: None });
        k = k + 1;
        proof {
            assert(rebuilt.deep_view() =~~= rebuilt_messages(role_final@, texts).take(k as int));
        }
    }
    proof {
        assert(rebuilt_messages(role_final@, texts).take(texts.len() as int) =~= rebuilt_messages(
            role_final@,
            texts,
        ));
        assert(rebuilt.deep_view() =~~= rebuilt_messages(role_final@, texts));
    }
    let completion_count = match chat_token_count(model, &rebuilt) {
        Some(n) => n,
        None => {
            return None;
        },
    };
    build_usage(prompt_count, completion_count)
}


// ---------------------------------------------------------------------------
// The accounting gate and the post-response decision
// ---------------------------------------------------------------------------

/// Whether the token layer covers this request path.
pub open spec fn endpoint_covered(endpoints: Seq<String>, path: Seq<u8>) -> bool {
    exists|i: int| 0 <= i < endpoints.len() && encode_utf8((#[trigger] endpoints[i])@) == path
}

/// The `stream` switch of a request body; anything but `true` means a
/// plain response.
pub open spec fn spec_stream_flag(b: Jv) -> bool {
    match spec_obj_get(b, encode_utf8("stream"@)) {
        Some(Jv::Bool(x)) => x,
        _ => false,
    }
}

/// The accounting layer's verdict on one request.
pub enum TokensGate {
    /// Accounting does not apply: pass the request through untouched.
    Forward,
    /// The body is not JSON: reject with 400.
    RejectBody,
    /// The body names no model: reject with 400.
    RejectModel,
    /// A streamed request under the reject policy: reject with 400.
    RejectStream,
    /// Account this request: the parsed body, the model when it is a
    /// string, and the stream switch.
    Account { body: JsonValue, model: Option<Vec<u8>>, stream: bool },
}

/// The admission rule over a request body's value: no `model` field
/// rejects, a streamed request under the reject policy rejects, and
/// everything else is accounted with the body, model and stream switch
/// pinned.
pub open spec fn gate_outcome_ok(r: TokensGate, jv: Jv, policy: StreamTokensPolicy) -> bool {
    &&& spec_obj_get(jv, crate::acl::model_key()) is None ==> r is RejectModel
    &&& spec_obj_get(jv, crate::acl::model_key()) is Some ==> {
        if spec_stream_flag(jv) && policy == StreamTokensPolicy::Reject {
            r is RejectStream
        } else {
            r matches TokensGate::Account { body: b2, model, stream } && b2@ == jv && stream
                == spec_stream_flag(jv) && (match crate::acl::body_model(jv) {
                Some(m) => model matches Some(mv) && mv@ == m,
                None => model is None,
            })
        }
    }
}

/// The verdict for an already-parsed request body: the exact rule over the
/// body's `model` and `stream` fields and the stream policy.
pub fn gate_parsed(policy: StreamTokensPolicy, body: JsonValue) -> (r: TokensGate)
    ensures
        gate_outcome_ok(r, body@, policy),
{
    let mkey = crate::acl::model_key_bytes();
    let has_model = match body.get(mkey.as_slice()) {
        Some(_) => true,
        None => false,
    };
    if !has_model {
        return TokensGate::RejectModel;
    }
    let skey = ("stream").as_bytes_vec();
    let stream = match body.get(skey.as_slice()) {
        Some(v) => match v.as_bool() {
            Some(b) => b,
            None => false,
        },
        None => false,
    };
    if stream && policy == StreamTokensPolicy::Reject {
        return TokensGate::RejectStream;
    }
    let model = match body.get(mkey.as_slice()) {
        Some(v) => match v.as_str_bytes() {
            Some(s) => Some(crate::json::copy_range(s.as_slice(), 0, s.len())),
            None => None,
        },
        None => None,
    };
    let ghost bv = body@;
    let r = TokensGate::Account { body, model, stream };
    proof {
        assert(spec_obj_get(bv, crate::acl::model_key()) is Some);
        assert(stream == spec_stream_flag(bv));
        assert(match crate::acl::body_model(bv) {
            Some(m) => model matches Some(mv) && mv@ == m,
            None => model is None,
        });
        assert(gate_outcome_ok(r, bv, policy));
    }
    r
}

/// Runs the whole accounting gate: enablement, endpoint coverage, body
/// parsing, then the parsed-body rule of [`gate_parsed`]. A covered request
/// whose body is the canonical serialization of a well-formed value is owed
/// that value's verdict — in particular, never the bad-body rejection.
pub fn tokens_gate(
    enable: bool,
    endpoints: &Vec<String>,
    policy: StreamTokensPolicy,
    path: &[u8],
    body: &[u8],
) -> (r: TokensGate)
    ensures
        (!enable || !endpoint_covered(endpoints@, path@)) ==> r is Forward,
        r is Forward ==> (!enable || !endpoint_covered(endpoints@, path@)),
        forall|jv: Jv|
            enable && endpoint_covered(endpoints@, path@) && crate::json::wf(jv) && body@
                == #[trigger] crate::json::spec_ser(jv) ==> gate_outcome_ok(r, jv, policy),
        r matches TokensGate::Account { body: b2, model, stream } ==> (crate::json::wf(b2@)
            && gate_outcome_ok(r, b2@, policy) && !(stream && policy
            == StreamTokensPolicy::Reject)),
{
    if !enable {
        return TokensGate::Forward;
    }
    let mut covered = false;
    let mut i: usize = 0;
    while i < endpoints.len() && !covered
        invariant
            i <= endpoints@.len(),
            covered ==> endpoint_covered(endpoints@, path@),
            !covered ==> forall|j: int|
                0 <= j < i ==> encode_utf8((#[trigger] endpoints@[j])@) != path@,
        decreases endpoints@.len() - i, (if covered { 0int } else { 1int }),
    {
        if crate::json::bytes_eq(endpoints[i].as_str().as_bytes(), path) {
            covered = true;
        } else {
            i = i + 1;
        }
    }
    if !covered {
        return TokensGate::Forward;
    }
    match crate::json::parse::parse(body) {
        None => {
            proof {
                assert forall|jv: Jv|
                    enable && endpoint_covered(endpoints@, path@) && crate::json::wf(jv) && body@
                        == #[trigger] crate::json::spec_ser(jv) implies false by {}
            }
            TokensGate::RejectBody
        },
        Some(v) => {
            let r = gate_parsed(policy, v);
            proof {
                assert forall|jv: Jv|
                    enable && endpoint_covered(endpoints@, path@) && crate::json::wf(jv) && body@
                        == #[trigger] crate::json::spec_ser(jv) implies gate_outcome_ok(
                    r,
                    jv,
                    policy,
                ) by {
                    assert(v@ == jv);
                }
            }
            r
        },
    }
}

/// The usage a plain (non-streamed) response reports about itself, when its
/// `usage` object carries the three counts.
pub open spec fn spec_response_usage(res: Jv) -> Option<(int, int, int)> {
    match spec_obj_get(res, encode_utf8("usage"@)) {
        Some(u) => match (
            spec_obj_get(u, encode_utf8("prompt_tokens"@)),
            spec_obj_get(u, encode_utf8("completion_tokens"@)),
            spec_obj_get(u, encode_utf8("total_tokens"@)),
        ) {
            (Some(Jv::Int(p)), Some(Jv::Int(c)), Some(Jv::Int(t))) => if 0 <= p <= usize::MAX && 0
                <= c <= usize::MAX && 0 <= t <= usize::MAX {
                Some((p, c, t))
            } else {
                None
            },
            _ => None,
        },
        _ => None,
    }
}

/// Reads the usage a parsed plain response reports.
pub fn response_usage(res: &JsonValue) -> (r: Option<TokenUsage>)
    ensures
        match spec_response_usage(res@) {
            Some(pct) => r matches Some(u) && u.prompt_tokens == pct.0 && u.completion_tokens
                == pct.1 && u.total_tokens == pct.2,
            None => r is None,
        },
{
    let uk = ("usage").as_bytes_vec();
    let u = match res.get(uk.as_slice()) {
        Some(u) => u,
        None => {
            return None;
        },
    };
    let pk = ("prompt_tokens").as_bytes_vec();
    let ck = ("completion_tokens").as_bytes_vec();
    let tk = ("total_tokens").as_bytes_vec();
    let p = match u.get(pk.as_slice()) {
        Some(v) => match v.as_int() {
            Some(n) => n,
            None => {
                return None;
            },
        },
        None => {
            return None;
        },
    };
    let c = match u.get(ck.as_slice()) {
        Some(v) => match v.as_int() {
            Some(n) => n,
            None => {
                return None;
            },
        },
        None => {
            return None;
        },
    };
    let t = match u.get(tk.as_slice()) {
        Some(v) => match v.as_int() {
            Some(n) => n,
            None => {
                return None;
            },
        },
        None => {
            return None;
        },
    };
    if p < 0 || c < 0 || t < 0 || !i64_fits_usize(p) || !i64_fits_usize(c) || !i64_fits_usize(t) {
        return None;
    }
    Some(
        TokenUsage {
            prompt_tokens: p as usize,
            completion_tokens: c as usize,
            total_tokens: t as usize,
        },
    )
}

/// Decides the usage record for a completed request, if one is owed: at
/// most one, and none whenever the response cannot be made sense of — a
/// failure of telemetry never touches the response itself.
///
/// A plain response is parsed for its own `usage` numbers and is reported
/// as measured; a streamed response is reassembled and estimated under the
/// `estimate` policy, skipped under `skip`, and cannot reach this point
/// under `reject`.

/// `/completions`.
pub open spec fn completions_path() -> Seq<u8> {
    encode_utf8("/completions"@)
}

/// `/chat/completions`.
pub open spec fn chat_path() -> Seq<u8> {
    encode_utf8("/chat/completions"@)
}

/// What the estimate policy owes for a streamed response whose events are
/// `evs`: the endpoint's estimator over request and events, an
/// unrepresentable total refused; nothing on other endpoints or when the
/// request names no model.
pub open spec fn estimate_outcome_ok(
    r: Option<(TokenUsage, bool)>,
    endpoint: Seq<u8>,
    req: Jv,
    evs: Seq<Jv>,
) -> bool {
    if endpoint == completions_path() || endpoint == chat_path() {
        match crate::acl::body_model(req) {
            Some(m) => {
                let counted = if endpoint == completions_path() {
                    spec_completions_usage(m, req, evs)
                } else {
                    spec_chat_usage(m, req, evs)
                };
                match counted {
                    Some(pc) => if pc.0 + pc.1 <= usize::MAX {
                        r matches Some(p) && p.0.prompt_tokens == pc.0 && p.0.completion_tokens
                            == pc.1 && p.0.total_tokens == pc.0 + pc.1 && p.1 == true
                    } else {
                        r is None
                    },
                    None => r is None,
                }
            },
            None => r is None,
        }
    } else {
        r is None
    }
}

#[verifier::rlimit(100)]
pub fn account_response(
    endpoint: &[u8],
    policy: StreamTokensPolicy,
    stream: bool,
    req: &JsonValue,
    res_body: Option<&[u8]>,
) -> (r: Option<(TokenUsage, bool)>)
    ensures
        res_body is None ==> r is None,
        (stream && policy == StreamTokensPolicy::Skip) ==> r is None,
        (stream && policy == StreamTokensPolicy::Reject) ==> r is None,
        r matches Some(p) ==> p.1 == stream,
        forall|jres: Jv|
            (!stream && res_body is Some && crate::json::wf(jres) && res_body->0@
                == #[trigger] crate::json::spec_ser(jres)) ==> (match spec_response_usage(jres) {
                Some(pct) => r matches Some(p) && p.0.prompt_tokens == pct.0
                    && p.0.completion_tokens == pct.1 && p.0.total_tokens == pct.2 && p.1 == false,
                None => r is None,
            }),
        forall|evs: Seq<Jv>|
            (stream && policy == StreamTokensPolicy::Estimate && res_body is Some
                && #[trigger] canonical_events(res_body->0@, evs)) ==> estimate_outcome_ok(
                r,
                endpoint@,
                req@,
                evs,
            ),
        (r is Some && !stream) ==> exists|jres: Jv|
            crate::json::wf(jres) && #[trigger] spec_response_usage(jres) == Some(
                (
                    (r->0).0.prompt_tokens as int,
                    (r->0).0.completion_tokens as int,
                    (r->0).0.total_tokens as int,
                ),
            ),
        (r is Some && stream) ==> exists|evs: Seq<Jv>|
            #[trigger] estimate_outcome_ok(r, endpoint@, req@, evs),
{
    let body = match res_body {
        None => {
            return None;
        },
        Some(b) => b,
    };
    if stream {
        match policy {
            StreamTokensPolicy::Skip => None,
            StreamTokensPolicy::Reject => None,
            StreamTokensPolicy::Estimate => {
                let events = match get_events(body) {
                    None => {
                        proof {
                            assert forall|evs: Seq<Jv>| canonical_events(
                                body@,
                                evs,
                            ) implies false by {
                                let ps = data_payloads(complete_frames(body@));
                                assert forall|x: int| 0 <= x < ps.len() implies payload_canonical(
                                    #[trigger] ps[x],
                                ) by {
                                    let jw = evs[x];
                                    assert(crate::json::wf(jw));
                                    assert(ps[x] == crate::json::spec_ser(jw));
                                }
                                assert(payloads_canonical(ps));
                            }
                        }
                        return None;
                    },
                    Some(e) => e,
                };
                let completions_word = ("/completions").as_bytes_vec();
                let chat_word = ("/chat/completions").as_bytes_vec();
                let usage = if crate::json::bytes_eq(endpoint, completions_word.as_slice()) {
                    let model = model_of(req);
                    match model {
                        Some(m) => count_completions_tokens(m.as_slice(), req, &events),
                        None => None,
                    }
                } else if crate::json::bytes_eq(endpoint, chat_word.as_slice()) {
                    let model = model_of(req);
                    match model {
                        Some(m) => count_chat_tokens(m.as_slice(), req, &events),
                        None => None,
                    }
                } else {
                    None
                };
                let r2: Option<(TokenUsage, bool)> = match usage {
                    Some(u) => Some((u, true)),
                    None => None,
                };
                proof {
                    // whatever was recorded came from the parsed events
                    if r2 is Some {
                        assert(estimate_outcome_ok(r2, endpoint@, req@, events.deep_view()));
                    }
                }
                proof {
                    assert forall|evs: Seq<Jv>| canonical_events(
                        body@,
                        evs,
                    ) implies estimate_outcome_ok(r2, endpoint@, req@, evs) by {
                        let ps = data_payloads(complete_frames(body@));
                        assert(events.deep_view().len() == evs.len());
                        assert forall|x: int| 0 <= x < evs.len() implies events.deep_view()[x]
                            == evs[x] by {
                            assert(crate::json::wf(evs[x]) && ps[x] == crate::json::spec_ser(
                                evs[x],
                            ));
                            assert(events@[x]@ == evs[x]);
                            assert(events.deep_view()[x] == events@[x]@);
                        }
                        assert(events.deep_view() =~= evs);
                    }
                }
                r2
            },
        }
    } else {
        let r2: Option<(TokenUsage, bool)> = match crate::json::parse::parse(body) {
            None => {
                proof {
                    assert forall|jres: Jv|
                        crate::json::wf(jres) && body@ == crate::json::spec_ser(
                            jres,
                        ) implies false by {}
                }
                None
            },
            Some(res) => {
                let r3: Option<(TokenUsage, bool)> = match response_usage(&res) {
                    Some(u) => Some((u, false)),
                    None => None,
                };
                proof {
                    // whatever was recorded came from the parsed response
                    if r3 is Some {
                        assert(crate::json::wf(res@));
                        assert(spec_response_usage(res@) is Some);
                    }
                }
                proof {
                    assert forall|jres: Jv|
                        crate::json::wf(jres) && body@ == crate::json::spec_ser(jres) implies (
                        match spec_response_usage(jres) {
                            Some(pct) => r3 matches Some(p) && p.0.prompt_tokens == pct.0
                                && p.0.completion_tokens == pct.1 && p.0.total_tokens == pct.2
                                && p.1 == false,
                            None => r3 is None,
                        }) by {
                        assert(res@ == jres);
                    }
                }
                r3
            },
        };
        r2
    }
}

/// The request's model name, when its `model` field is a string.
pub fn model_of(req: &JsonValue) -> (r: Option<Vec<u8>>)
    ensures
        match crate::acl::body_model(req@) {
            Some(m) => r matches Some(mv) && mv@ == m,
            None => r is None,
        },
{
    let mkey = crate::acl::model_key_bytes();
    match req.get(mkey.as_slice()) {
        Some(v) => match v.as_str_bytes() {
            Some(s) => Some(crate::json::copy_range(s.as_slice(), 0, s.len())),
            None => None,
        },
        None => None,
    }
}


} // verus!
