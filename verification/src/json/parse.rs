//! Verified JSON parser.
//!
//! The parser accepts the usual JSON grammar (with `\uXXXX` escapes and
//! surrogate pairs) and is proved to invert the serializer: on the exact
//! bytes `spec_ser(v)` of any well-formed value `v`, it returns `v`.

use crate::json::{
    lemma_esc_bytes_take, lemma_jv_list, lemma_jv_members, lemma_wf_list_index,
    lemma_wf_members_index,
    dec_digits, dec_val, digits_end, esc_byte, esc_bytes, exp_part_end, frac_part_end, hex_digit,
    int_bytes, int_lexeme_val, int_part_end, is_digit, is_int_lexeme, is_num_lexeme, jv_list,
    jv_members, jv_of, num_end, spec_ser, spec_ser_list, spec_ser_member, spec_ser_members, wf,
    wf_list, wf_members, JsonValue, Jv,
};
use vstd::prelude::*;

verus! {

pub open spec fn is_ws(b: u8) -> bool {
    b == 0x20 || b == 0x09 || b == 0x0A || b == 0x0D
}

/// What may legally follow a serialized value inside a document: a comma or
/// a closing bracket, or nothing. Numbers are the one construct without a
/// terminator of their own, and none of these bytes can extend a number.
pub open spec fn boundary(rest: Seq<u8>) -> bool {
    rest.len() == 0 || rest[0] == 0x2C || rest[0] == 0x5D || rest[0] == 0x7D
}

/// The bytes of `t` from `i` on are the serialization of `jv` followed by
/// `rest`, with a boundary byte next.
pub open spec fn ser_at(t: Seq<u8>, i: int, jv: Jv, rest: Seq<u8>) -> bool {
    &&& wf(jv)
    &&& 0 <= i <= t.len()
    &&& t.subrange(i, t.len() as int) == spec_ser(jv) + rest
    &&& boundary(rest)
}

/// The bytes of `t` from `i` on are a serialized string literal of content
/// `sv` followed by `rest`.
pub open spec fn str_at(t: Seq<u8>, i: int, sv: Seq<u8>, rest: Seq<u8>) -> bool {
    &&& 0 <= i <= t.len()
    &&& t.subrange(i, t.len() as int) == seq![0x22u8] + esc_bytes(sv) + seq![0x22u8] + rest
}

// ---------------------------------------------------------------------------
// Digit runs
// ---------------------------------------------------------------------------

pub proof fn lemma_digits_end(s: Seq<u8>, i: int)
    requires
        0 <= i <= s.len(),
    ensures
        i <= digits_end(s, i) <= s.len(),
        forall|k: int| i <= k < digits_end(s, i) ==> is_digit(#[trigger] s[k]),
        digits_end(s, i) < s.len() ==> !is_digit(s[digits_end(s, i)]),
    decreases s.len() - i,
{
    if i < s.len() && is_digit(s[i]) {
        lemma_digits_end(s, i + 1);
    }
}

pub proof fn lemma_digits_end_exact(s: Seq<u8>, i: int, e: int)
    requires
        0 <= i <= e <= s.len(),
        forall|k: int| i <= k < e ==> is_digit(#[trigger] s[k]),
        e == s.len() || !is_digit(s[e]),
    ensures
        digits_end(s, i) == e,
    decreases e - i,
{
    if i < e {
        lemma_digits_end_exact(s, i + 1, e);
    }
}

// ---------------------------------------------------------------------------
// Decimal values
// ---------------------------------------------------------------------------

pub proof fn lemma_dec_val_nonneg(s: Seq<u8>)
    requires
        forall|k: int| 0 <= k < s.len() ==> is_digit(#[trigger] s[k]),
    ensures
        dec_val(s) >= 0,
    decreases s.len(),
{
    if s.len() > 0 {
        lemma_dec_val_nonneg(s.drop_last());
    }
}

pub proof fn lemma_dec_val_step(s: Seq<u8>, m: int)
    requires
        0 <= m < s.len(),
    ensures
        dec_val(s.take(m + 1)) == dec_val(s.take(m)) * 10 + (s[m] - 0x30),
{
    assert(s.take(m + 1).drop_last() =~= s.take(m));
    assert(s.take(m + 1).last() == s[m]);
}

pub proof fn lemma_dec_val_prefix(s: Seq<u8>, m: int)
    requires
        0 <= m <= s.len(),
        forall|k: int| 0 <= k < s.len() ==> is_digit(#[trigger] s[k]),
    ensures
        dec_val(s.take(m)) <= dec_val(s),
    decreases s.len() - m,
{
    if m < s.len() {
        lemma_dec_val_step(s, m);
        assert(forall|k: int| 0 <= k < s.take(m).len() ==> is_digit(#[trigger] s.take(m)[k]));
        lemma_dec_val_nonneg(s.take(m));
        assert(dec_val(s.take(m)) <= dec_val(s.take(m + 1)));
        lemma_dec_val_prefix(s, m + 1);
    } else {
        assert(s.take(m) =~= s);
    }
}

pub proof fn lemma_dec_val_digits(n: int)
    requires
        n >= 0,
    ensures
        dec_val(dec_digits(n)) == n,
    decreases n,
{
    if n > 0 {
        lemma_dec_val_digits(n / 10);
        assert(dec_digits(n).drop_last() =~= dec_digits(n / 10));
    }
}

pub proof fn lemma_dec_digits_shape(n: int)
    requires
        n > 0,
    ensures
        dec_digits(n).len() > 0,
        dec_digits(n)[0] != 0x30,
        forall|k: int| 0 <= k < dec_digits(n).len() ==> is_digit(#[trigger] dec_digits(n)[k]),
    decreases n,
{
    if n < 10 {
        assert(dec_digits(n / 10) =~= Seq::<u8>::empty());
        assert(dec_digits(n) =~= seq![(0x30 + n) as u8]);
    } else {
        lemma_dec_digits_shape(n / 10);
        assert(dec_digits(n)[0] == dec_digits(n / 10)[0]);
    }
}

// ---------------------------------------------------------------------------
// Number scanning
// ---------------------------------------------------------------------------

/// The `(end of integer part, end of lexeme)` pair of the number lexeme at
/// `i`, mirroring `num_end`.
pub open spec fn num_parts(s: Seq<u8>, i: int) -> Option<(int, int)> {
    let j = if 0 <= i < s.len() && s[i] == 0x2D {
        i + 1
    } else {
        i
    };
    match int_part_end(s, j) {
        None => None,
        Some(k) => match frac_part_end(s, k) {
            None => None,
            Some(l) => match exp_part_end(s, l) {
                None => None,
                Some(e) => Some((k, e)),
            },
        },
    }
}

pub proof fn lemma_num_parts_end(s: Seq<u8>, i: int)
    ensures
        match num_parts(s, i) {
            Some(p) => num_end(s, i) == Some(p.1),
            None => num_end(s, i) is None,
        },
{
}

/// What the number parser yields at `i`: the lexeme's end and its value —
/// an `i64` integer for a pure in-range integer lexeme, the raw lexeme
/// otherwise; nothing when no number lexeme starts at `i`. This is a total
/// characterization: the executable parser is held to it on every input.
pub open spec fn sp_number(t: Seq<u8>, i: int) -> Option<(Jv, int)> {
    match num_parts(t, i) {
        None => None,
        Some(p) => {
            let lex = t.subrange(i, p.1);
            if p.0 == p.1 && i64::MIN <= int_lexeme_val(lex) <= i64::MAX {
                Some((Jv::Int(int_lexeme_val(lex)), p.1))
            } else {
                Some((Jv::NumRaw(lex), p.1))
            }
        },
    }
}

fn scan_digits(t: &[u8], i: usize) -> (r: usize)
    requires
        i <= t@.len(),
    ensures
        r == digits_end(t@, i as int),
        i <= r <= t@.len(),
    decreases t@.len() - i,
{
    proof {
        lemma_digits_end(t@, i as int);
    }
    if i < t.len() && t[i] >= 0x30 && t[i] <= 0x39 {
        scan_digits(t, i + 1)
    } else {
        i
    }
}

/// Scans the number lexeme beginning at `i`; returns the end of its integer
/// part and the end of the whole lexeme.
fn scan_number(t: &[u8], i: usize) -> (r: Option<(usize, usize)>)
    requires
        i <= t@.len(),
    ensures
        match r {
            Some(p) => {
                &&& num_parts(t@, i as int) == Some((p.0 as int, p.1 as int))
                &&& i <= p.0 <= p.1 <= t@.len()
                &&& i < p.1
            },
            None => num_parts(t@, i as int) is None,
        },
{
    let n = t.len();
    let j = if i < n && t[i] == 0x2D {
        i + 1
    } else {
        i
    };
    // integer part
    let k: usize;
    if j < n && t[j] == 0x30 {
        k = j + 1;
    } else if j < n && t[j] >= 0x31 && t[j] <= 0x39 {
        k = scan_digits(t, j + 1);
    } else {
        return None;
    }
    proof {
        lemma_digits_end(t@, i as int);
    }
    // fraction part
    let l: usize;
    if k < n && t[k] == 0x2E {
        if k + 1 < n && t[k + 1] >= 0x30 && t[k + 1] <= 0x39 {
            l = scan_digits(t, k + 1);
        } else {
            return None;
        }
    } else {
        l = k;
    }
    // exponent part
    let e: usize;
    if l < n && (t[l] == 0x65 || t[l] == 0x45) {
        let p = if l + 1 < n && (t[l + 1] == 0x2B || t[l + 1] == 0x2D) {
            l + 2
        } else {
            l + 1
        };
        if p < n && t[p] >= 0x30 && t[p] <= 0x39 {
            e = scan_digits(t, p);
        } else {
            return None;
        }
        proof {
            lemma_digits_end(t@, p as int);
        }
    } else {
        e = l;
    }
    proof {
        if k > j {
            lemma_digits_end(t@, (j + 1) as int);
        }
    }
    Some((k, e))
}

// ---------------------------------------------------------------------------
// Shifting number lexemes between a window and the whole text
// ---------------------------------------------------------------------------

/// A digit run cannot pass a non-digit byte.
pub proof fn lemma_digits_end_stop(t: Seq<u8>, x: int, q: int)
    requires
        0 <= x <= q <= t.len(),
        q == t.len() || !is_digit(t[q]),
    ensures
        digits_end(t, x) <= q,
    decreases q - x,
{
    if x < q && is_digit(t[x]) {
        lemma_digits_end_stop(t, x + 1, q);
    }
}

/// A digit run that stays inside a window equals the run in the window seen
/// as its own sequence, shifted.
pub proof fn lemma_digits_end_shift(t: Seq<u8>, a: int, s: Seq<u8>, x: int)
    requires
        0 <= a,
        0 <= x <= s.len(),
        a + s.len() <= t.len(),
        t.subrange(a, a + s.len() as int) == s,
        digits_end(t, a + x) <= a + s.len(),
    ensures
        digits_end(t, a + x) == a + digits_end(s, x),
    decreases s.len() - x,
{
    assert(forall|k: int|
        0 <= k < s.len() ==> #[trigger] s[k] == t.subrange(a, a + s.len() as int)[k]);
    if x < s.len() {
        assert(t[a + x] == s[x]);
        if is_digit(s[x]) {
            lemma_digits_end_shift(t, a, s, x + 1);
        }
    } else {
        lemma_digits_end(t, a + x);
        assert(digits_end(s, x) == x);
    }
}

/// The number lexeme `s` followed by a boundary scans in `t` to exactly the
/// shifted parts of `s` scanned on its own.
pub proof fn lemma_num_parts_shift(t: Seq<u8>, i: int, s: Seq<u8>, rest: Seq<u8>, k0: int)
    requires
        0 <= i <= t.len(),
        t.subrange(i, t.len() as int) == s + rest,
        boundary(rest),
        num_parts(s, 0) == Some((k0, s.len() as int)),
    ensures
        num_parts(t, i) == Some((i + k0, i + s.len())),
{
    let w = i + s.len();
    assert(t.subrange(i, t.len() as int).len() == s.len() + rest.len());
    assert(i + s.len() + rest.len() == t.len());
    assert forall|k: int| 0 <= k < s.len() implies #[trigger] s[k] == t[i + k] by {
        assert((s + rest)[k] == t.subrange(i, t.len() as int)[k]);
        assert(t.subrange(i, t.len() as int)[k] == t[i + k]);
    }
    assert(w == t.len() || t[w] == rest[0]) by {
        if w < t.len() {
            assert((s + rest)[s.len() as int] == t.subrange(i, t.len() as int)[s.len() as int]);
            assert(t.subrange(i, t.len() as int)[s.len() as int] == t[w]);
        }
    }
    assert(w == t.len() || !is_digit(t[w]));
    assert(t.subrange(i, i + s.len() as int) =~= s);
    assert forall|x: int| 0 <= x <= s.len() implies #[trigger] digits_end(t, i + x) <= w by {
        lemma_digits_end_stop(t, i + x, w);
    }
    assert forall|x: int| 0 <= x <= s.len() implies #[trigger] digits_end(t, i + x) == i
        + digits_end(s, x) by {
        lemma_digits_end_shift(t, i, s, x);
    }
    // the sign
    let j0 = if 0 <= 0 < s.len() && s[0] == 0x2D {
        1int
    } else {
        0int
    };
    assert(s.len() > 0);
    assert(t[i] == s[0]);
    // the integer part
    assert(int_part_end(s, j0) is Some);
    let kk = int_part_end(s, j0)->0;
    assert(kk == k0 || frac_part_end(s, kk) is Some);
    assert(int_part_end(t, i + j0) == Some(i + kk));
    // the fraction part
    let ll = frac_part_end(s, kk)->0;
    assert(frac_part_end(s, kk) == Some(ll));
    if kk < s.len() && s[kk] == 0x2E {
        assert(t[i + kk] == s[kk]);
        assert(kk + 1 < s.len() && is_digit(s[kk + 1]));
        assert(t[i + kk + 1] == s[kk + 1]);
        assert(frac_part_end(t, i + kk) == Some(i + ll));
    } else {
        assert(ll == kk);
        if i + kk < t.len() {
            if kk < s.len() {
                assert(t[i + kk] == s[kk]);
            } else {
                assert(i + kk == w);
            }
            assert(t[i + kk] != 0x2E);
        }
        assert(frac_part_end(t, i + kk) == Some(i + kk));
    }
    // the exponent part
    assert(exp_part_end(s, ll) == Some(s.len() as int));
    if ll < s.len() && (s[ll] == 0x65 || s[ll] == 0x45) {
        assert(t[i + ll] == s[ll]);
        let p0 = if ll + 1 < s.len() && (s[ll + 1] == 0x2B || s[ll + 1] == 0x2D) {
            ll + 2
        } else {
            ll + 1
        };
        assert(p0 < s.len() && is_digit(s[p0]));
        assert(t[i + ll + 1] == s[ll + 1]);
        let p1 = if i + ll + 1 < t.len() && (t[i + ll + 1] == 0x2B || t[i + ll + 1] == 0x2D) {
            i + ll + 2
        } else {
            i + ll + 1
        };
        assert(p1 == i + p0);
        assert(t[i + p0] == s[p0]);
        assert(exp_part_end(t, i + ll) == Some(i + digits_end(s, p0)));
        assert(digits_end(s, p0) == s.len() as int);
    } else {
        assert(ll == s.len());
        if i + ll < t.len() {
            assert(i + ll == w);
            assert(t[w] == rest[0]);
            assert(t[i + ll] != 0x65 && t[i + ll] != 0x45);
        }
        assert(exp_part_end(t, i + ll) == Some(i + ll));
    }
}

/// Bounds of the intermediate positions of a successful number scan.
proof fn proof_num_parts_bounds(t: Seq<u8>, i: int, j0: int, k: int, ll: int, e: int)
    requires
        0 <= i <= t.len(),
        j0 == if 0 <= i < t.len() && t[i] == 0x2D {
            i + 1
        } else {
            i
        },
        int_part_end(t, j0) == Some(k),
        frac_part_end(t, k) == Some(ll),
        exp_part_end(t, ll) == Some(e),
    ensures
        i <= j0 <= k <= ll <= e <= t.len(),
        j0 < k,
{
    if j0 < t.len() && t[j0] == 0x30 {
    } else {
        lemma_digits_end(t, j0 + 1);
    }
    if k < t.len() && t[k] == 0x2E {
        lemma_digits_end(t, k + 1);
    }
    if ll < t.len() && (t[ll] == 0x65 || t[ll] == 0x45) {
        let p0 = if ll + 1 < t.len() && (t[ll + 1] == 0x2B || t[ll + 1] == 0x2D) {
            ll + 2
        } else {
            ll + 1
        };
        lemma_digits_end(t, p0);
    }
}

/// The lexeme that was scanned inside `t` is a number lexeme on its own.
pub proof fn lemma_num_parts_extract(t: Seq<u8>, i: int, k: int, e: int)
    requires
        0 <= i <= e <= t.len(),
        num_parts(t, i) == Some((k, e)),
    ensures
        num_parts(t.subrange(i, e), 0) == Some((k - i, e - i)),
        is_num_lexeme(t.subrange(i, e)),
{
    let s = t.subrange(i, e);
    assert forall|x: int| 0 <= x < s.len() implies #[trigger] s[x] == t[i + x] by {
        assert(s[x] == t.subrange(i, e)[x]);
    }
    let j0 = if 0 <= i < t.len() && t[i] == 0x2D {
        i + 1
    } else {
        i
    };
    assert(int_part_end(t, j0) is Some);
    let kk = int_part_end(t, j0)->0;
    assert(kk == k);
    assert(frac_part_end(t, k) is Some);
    let ll = frac_part_end(t, k)->0;
    assert(exp_part_end(t, ll) == Some(e));
    proof_num_parts_bounds(t, i, j0, k, ll, e);
    assert(i <= j0 <= k <= ll <= e);
    // every digit run used lies in [i, e] and ends at a non-digit or at e
    assert forall|x: int|
        i <= x <= e && #[trigger] digits_end(t, x) <= e implies digits_end(s, x - i) == digits_end(
        t,
        x,
    ) - i by {
        lemma_digits_end_shift(t, i, s, x - i);
    }
    // sign
    assert(s.len() > 0 ==> s[0] == t[i]);
    // integer part
    if t[j0] == 0x30 {
        assert(int_part_end(s, j0 - i) == Some(k - i));
    } else {
        assert(0x31 <= t[j0] <= 0x39);
        assert(s[j0 - i] == t[j0]);
        lemma_digits_end(t, j0 + 1);
        assert(digits_end(t, j0 + 1) == k);
        lemma_digits_end_shift(t, i, s, j0 + 1 - i);
        assert(int_part_end(s, j0 - i) == Some(k - i));
    }
    // fraction part
    if k < t.len() && t[k] == 0x2E && k < e {
        assert(k + 1 < t.len() && is_digit(t[k + 1]));
        assert(digits_end(t, k + 1) == ll);
        lemma_digits_end(t, k + 1);
        assert(ll <= e);
        assert(s[k - i] == t[k]);
        assert(s[k + 1 - i] == t[k + 1]);
        lemma_digits_end_shift(t, i, s, k + 1 - i);
        assert(frac_part_end(s, k - i) == Some(ll - i));
    } else {
        assert(ll == k);
        if k - i < s.len() {
            assert(s[k - i] == t[k]);
            assert(t[k] != 0x2E);
        }
        assert(frac_part_end(s, k - i) == Some(k - i));
    }
    // exponent part
    if ll < t.len() && (t[ll] == 0x65 || t[ll] == 0x45) && ll < e {
        let p0 = if ll + 1 < t.len() && (t[ll + 1] == 0x2B || t[ll + 1] == 0x2D) {
            ll + 2
        } else {
            ll + 1
        };
        assert(p0 < t.len() && is_digit(t[p0]));
        assert(digits_end(t, p0) == e);
        lemma_digits_end(t, p0);
        assert(s[ll - i] == t[ll]);
        assert(p0 < e);
        assert(s[ll + 1 - i] == t[ll + 1]);
        let p1 = if ll + 1 - i < s.len() && (s[ll + 1 - i] == 0x2B || s[ll + 1 - i] == 0x2D) {
            ll + 2 - i
        } else {
            ll + 1 - i
        };
        assert(p1 == p0 - i);
        assert(s[p0 - i] == t[p0]);
        lemma_digits_end_shift(t, i, s, p0 - i);
        assert(exp_part_end(s, ll - i) == Some(e - i));
    } else {
        assert(ll == e);
        if ll - i < s.len() {
            assert(s[ll - i] == t[ll]);
        }
        assert(exp_part_end(s, ll - i) == Some(ll - i));
    }
    lemma_num_parts_end(s, 0);
}

/// For a lexeme whose scan covers it entirely, being a pure integer lexeme
/// is the same as having no fraction and no exponent.
pub proof fn lemma_int_lexeme_parts(s: Seq<u8>, k0: int)
    requires
        num_parts(s, 0) == Some((k0, s.len() as int)),
    ensures
        is_int_lexeme(s) <==> k0 == s.len(),
{
    lemma_num_parts_end(s, 0);
    let j0 = if 0 <= 0 < s.len() && s[0] == 0x2D {
        1int
    } else {
        0int
    };
    assert(int_part_end(s, j0) == Some(k0));
    if k0 == s.len() {
        assert forall|x: int| 0 <= x < s.len() implies is_digit(#[trigger] s[x]) || (x == 0 && s[x]
            == 0x2D) by {
            if x >= j0 {
                if s[j0] == 0x30 {
                    assert(k0 == j0 + 1);
                    assert(x == j0);
                } else {
                    lemma_digits_end(s, j0 + 1);
                }
            }
        }
    } else {
        assert(k0 < s.len());
        let ll = frac_part_end(s, k0)->0;
        if s[k0] == 0x2E || s[k0] == 0x65 || s[k0] == 0x45 {
            assert(!is_digit(s[k0]) && !(k0 == 0 && s[k0] == 0x2D));
            assert(!is_int_lexeme(s));
        } else {
            // the scan stopped without consuming s[k0]: it is not a digit
            if s[j0] == 0x30 {
                assert(k0 == j0 + 1);
                if is_digit(s[k0]) {
                    // then frac and exp parts are empty, so the end would be k0
                    assert(frac_part_end(s, k0) == Some(k0));
                    assert(exp_part_end(s, k0) == Some(k0));
                    assert(false);
                }
            } else {
                lemma_digits_end(s, j0 + 1);
                assert(!is_digit(s[k0]));
            }
            assert(!is_int_lexeme(s));
        }
    }
}

/// The canonical spelling of `n` evaluates back to `n`.
pub proof fn lemma_int_bytes_val(n: int)
    ensures
        int_bytes(n).len() > 0,
        is_int_lexeme(int_bytes(n)),
        int_lexeme_val(int_bytes(n)) == n,
        num_parts(int_bytes(n), 0) == Some(
            (int_bytes(n).len() as int, int_bytes(n).len() as int),
        ),
{
    let s = int_bytes(n);
    if n == 0 {
        assert(s =~= seq![0x30u8]);
        assert(int_part_end(s, 0) == Some(1int));
        assert(frac_part_end(s, 1) == Some(1int));
        assert(exp_part_end(s, 1) == Some(1int));
        assert(dec_val(s.drop_last()) == 0);
        assert(dec_val(s) == 0);
    } else if n > 0 {
        lemma_dec_digits_shape(n);
        lemma_dec_val_digits(n);
        assert(s == dec_digits(n));
        assert(is_digit(s[0]) && s[0] != 0x30);
        lemma_digits_end_exact(s, 1, s.len() as int);
        assert(int_part_end(s, 0) == Some(s.len() as int));
        assert(frac_part_end(s, s.len() as int) == Some(s.len() as int));
        assert(exp_part_end(s, s.len() as int) == Some(s.len() as int));
        assert(int_lexeme_val(s) == dec_val(s));
        assert(forall|x: int| 0 <= x < s.len() ==> is_digit(#[trigger] s[x]));
    } else {
        lemma_dec_digits_shape(-n);
        lemma_dec_val_digits(-n);
        assert(s == seq![0x2Du8] + dec_digits(-n));
        assert(s[0] == 0x2D);
        assert(s.skip(1) =~= dec_digits(-n));
        assert(forall|x: int| 1 <= x < s.len() ==> #[trigger] s[x] == dec_digits(-n)[x - 1]);
        assert(is_digit(s[1]) && s[1] != 0x30);
        lemma_digits_end_exact(s, 2, s.len() as int);
        assert(int_part_end(s, 1) == Some(s.len() as int));
        assert(frac_part_end(s, s.len() as int) == Some(s.len() as int));
        assert(exp_part_end(s, s.len() as int) == Some(s.len() as int));
        assert(int_lexeme_val(s) == -dec_val(dec_digits(-n)));
    }
}

// ---------------------------------------------------------------------------
// Parsing numbers
// ---------------------------------------------------------------------------

/// What the scan must find when serialized `Int` or `NumRaw` bytes sit at `i`.
proof fn lemma_ser_at_number(t: Seq<u8>, i: int, jv: Jv, rest: Seq<u8>)
    requires
        ser_at(t, i, jv, rest),
        jv is Int || jv is NumRaw,
    ensures
        jv matches Jv::Int(n) ==> {
            &&& num_parts(t, i) == Some(
                (i + int_bytes(n).len() as int, i + int_bytes(n).len() as int),
            )
            &&& t.subrange(i, i + int_bytes(n).len() as int) == int_bytes(n)
            &&& spec_ser(jv) == int_bytes(n)
        },
        jv matches Jv::NumRaw(rw) ==> {
            &&& num_parts(rw, 0) matches Some(p) && p.1 == rw.len() && num_parts(t, i) == Some(
                (i + p.0, i + rw.len()),
            )
            &&& t.subrange(i, i + rw.len() as int) == rw
            &&& spec_ser(jv) == rw
        },
{
    let s = spec_ser(jv);
    assert(t.subrange(i, t.len() as int).len() == s.len() + rest.len());
    assert forall|x: int| 0 <= x < s.len() implies #[trigger] s[x] == t[i + x] by {
        assert((s + rest)[x] == t.subrange(i, t.len() as int)[x]);
        assert(t.subrange(i, t.len() as int)[x] == t[i + x]);
    }
    assert(t.subrange(i, i + s.len() as int) =~= s);
    match jv {
        Jv::Int(n) => {
            lemma_int_bytes_val(n);
            lemma_num_parts_shift(t, i, int_bytes(n), rest, int_bytes(n).len() as int);
        },
        Jv::NumRaw(rw) => {
            lemma_num_parts_end(rw, 0);
            assert(num_end(rw, 0) == Some(rw.len() as int));
            assert(num_parts(rw, 0) is Some);
            let k0 = (num_parts(rw, 0)->0).0;
            lemma_num_parts_shift(t, i, rw, rest, k0);
        },
        _ => {},
    }
}

/// When the scanned lexeme is a pure in-range integer, the only serialized
/// number that can sit there is that integer.
proof fn lemma_number_result_int(t: Seq<u8>, i: int, e: int, n: int)
    requires
        0 <= i < e <= t.len(),
        num_parts(t, i) == Some((e, e)),
        n == int_lexeme_val(t.subrange(i, e)),
        i64::MIN <= n <= i64::MAX,
    ensures
        forall|jv: Jv, rest: Seq<u8>|
            #[trigger] ser_at(t, i, jv, rest) && (jv is Int || jv is NumRaw) ==> jv == Jv::Int(n)
                && spec_ser(jv).len() == e - i,
{
    assert forall|jv: Jv, rest: Seq<u8>|
        #[trigger] ser_at(t, i, jv, rest) && (jv is Int || jv is NumRaw) implies jv == Jv::Int(n)
        && spec_ser(jv).len() == e - i by {
        lemma_ser_at_number(t, i, jv, rest);
        match jv {
            Jv::Int(m) => {
                assert(e == i + int_bytes(m).len());
                assert(t.subrange(i, e) == int_bytes(m));
                lemma_int_bytes_val(m);
                assert(n == m);
            },
            Jv::NumRaw(rw) => {
                let k0 = (num_parts(rw, 0)->0).0;
                assert(e == i + rw.len() && e == i + k0);
                assert(t.subrange(i, e) == rw);
                lemma_int_lexeme_parts(rw, k0);
                assert(is_int_lexeme(rw));
                assert(int_lexeme_val(rw) == n);
                assert(false);
            },
            _ => {},
        }
    }
}

/// When the scanned lexeme has a fraction or exponent, or does not fit
/// `i64`, the only serialized number that can sit there is the raw lexeme.
proof fn lemma_number_result_raw(t: Seq<u8>, i: int, k: int, e: int)
    requires
        0 <= i < e <= t.len(),
        num_parts(t, i) == Some((k, e)),
        k != e || int_lexeme_val(t.subrange(i, e)) < i64::MIN || int_lexeme_val(t.subrange(i, e))
            > i64::MAX,
    ensures
        wf(Jv::NumRaw(t.subrange(i, e))),
        forall|jv: Jv, rest: Seq<u8>|
            #[trigger] ser_at(t, i, jv, rest) && (jv is Int || jv is NumRaw) ==> jv == Jv::NumRaw(
                t.subrange(i, e),
            ) && spec_ser(jv).len() == e - i,
{
    let lex = t.subrange(i, e);
    lemma_num_parts_extract(t, i, k, e);
    assert(is_num_lexeme(lex));
    if k == e {
        assert(int_lexeme_val(lex) < i64::MIN || int_lexeme_val(lex) > i64::MAX);
    } else {
        lemma_int_lexeme_parts(lex, k - i);
        assert(!is_int_lexeme(lex));
    }
    assert(wf(Jv::NumRaw(lex)));
    assert forall|jv: Jv, rest: Seq<u8>|
        #[trigger] ser_at(t, i, jv, rest) && (jv is Int || jv is NumRaw) implies jv == Jv::NumRaw(
        lex,
    ) && spec_ser(jv).len() == e - i by {
        lemma_ser_at_number(t, i, jv, rest);
        match jv {
            Jv::Int(m) => {
                assert(e == i + int_bytes(m).len());
                assert(k == e);
                assert(lex == int_bytes(m));
                lemma_int_bytes_val(m);
                assert(int_lexeme_val(lex) == m);
                assert(false);
            },
            Jv::NumRaw(rw) => {
                assert(e == i + rw.len());
                assert(lex == rw);
            },
            _ => {},
        }
    }
}

/// Copies `t[a..b]` into a fresh vector.
fn copy_range(t: &[u8], a: usize, b: usize) -> (r: Vec<u8>)
    requires
        a <= b <= t@.len(),
    ensures
        r@ == t@.subrange(a as int, b as int),
{
    let mut out: Vec<u8> = Vec::new();
    let mut p = a;
    while p < b
        invariant
            a <= p <= b <= t@.len(),
            out@ == t@.subrange(a as int, p as int),
        decreases b - p,
    {
        out.push(t[p]);
        p = p + 1;
        assert(out@ =~= t@.subrange(a as int, p as int));
    }
    out
}

/// Parses the number whose lexeme begins at `i`, exactly as `sp_number`
/// says.
fn parse_number(t: &[u8], i: usize) -> (r: Option<(JsonValue, usize)>)
    requires
        i <= t@.len(),
    ensures
        match r {
            Some(p) => i < p.1 <= t@.len() && wf(p.0@) && sp_number(t@, i as int) == Some(
                (p.0@, p.1 as int),
            ),
            None => sp_number(t@, i as int) is None,
        },
        forall|jv: Jv, rest: Seq<u8>|
            #[trigger] ser_at(t@, i as int, jv, rest) && (jv is Int || jv is NumRaw) ==> match r {
                Some(p) => p.0@ == jv && p.1 == i + spec_ser(jv).len(),
                None => false,
            },
{
    let scanned = scan_number(t, i);
    if scanned.is_none() {
        proof {
            assert forall|jv: Jv, rest: Seq<u8>|
                #[trigger] ser_at(t@, i as int, jv, rest) && (jv is Int || jv is NumRaw)
                implies false by {
                lemma_ser_at_number(t@, i as int, jv, rest);
            }
        }
        return None;
    }
    let (k, e) = scanned.unwrap();
    let ghost lex = t@.subrange(i as int, e as int);
    if k == e {
        // a pure integer lexeme: the sign, then digits only
        let neg = t[i] == 0x2D;
        let d0 = if neg {
            i + 1
        } else {
            i
        };
        proof {
            // the digits of the integer part fill [d0, e)
            let j0 = if 0 <= i < t@.len() && t@[i as int] == 0x2D {
                i + 1
            } else {
                i as int
            };
            assert(j0 == d0);
            if d0 < t@.len() && t@[d0 as int] == 0x30 {
                assert(e == d0 + 1);
            } else {
                lemma_digits_end(t@, d0 + 1);
            }
            assert(forall|x: int| d0 <= x < e ==> is_digit(#[trigger] t@[x]));
            assert(d0 < e);
        }
        let mut acc: u128 = 0;
        let mut p2 = d0;
        let mut over = false;
        while p2 < e && !over
            invariant
                d0 <= p2 <= e <= t@.len(),
                forall|x: int| d0 <= x < e ==> is_digit(#[trigger] t@[x]),
                !over ==> acc == dec_val(t@.subrange(d0 as int, p2 as int)),
                over ==> dec_val(t@.subrange(d0 as int, e as int)) > u64::MAX,
            decreases e - p2, (if over { 0int } else { 1int }),
        {
            if acc > 0xFFFF_FFFF_FFFF_FFFFu128 {
                proof {
                    let whole = t@.subrange(d0 as int, e as int);
                    assert(forall|x: int| 0 <= x < whole.len() ==> is_digit(#[trigger] whole[x]));
                    lemma_dec_val_prefix(whole, p2 - d0);
                    assert(whole.take(p2 - d0) =~= t@.subrange(d0 as int, p2 as int));
                }
                over = true;
            } else {
                let d = t[p2] - 0x30;
                proof {
                    let sub1 = t@.subrange(d0 as int, p2 + 1 as int);
                    assert(sub1.drop_last() =~= t@.subrange(d0 as int, p2 as int));
                    assert(sub1.last() == t@[p2 as int]);
                }
                acc = acc * 10 + (d as u128);
                p2 = p2 + 1;
            }
        }
        proof {
            if !over {
                assert(p2 == e);
            }
            // relate the accumulated magnitude to the signed lexeme value
            assert(lex.len() == e - i);
            assert(forall|x: int| 0 <= x < lex.len() ==> #[trigger] lex[x] == t@[i + x]);
            if neg {
                assert(lex[0] == 0x2D);
                assert(lex.skip(1) =~= t@.subrange(d0 as int, e as int));
                assert(int_lexeme_val(lex) == -dec_val(t@.subrange(d0 as int, e as int)));
            } else {
                assert(lex[0] == t@[i as int]);
                assert(is_digit(lex[0]));
                assert(lex =~= t@.subrange(d0 as int, e as int));
                assert(int_lexeme_val(lex) == dec_val(t@.subrange(d0 as int, e as int)));
            }
        }
        let mut fits: Option<i64> = None;
        if !over {
            if !neg && acc <= 0x7FFF_FFFF_FFFF_FFFFu128 {
                fits = Some(acc as i64);
            } else if neg && acc <= 0x7FFF_FFFF_FFFF_FFFFu128 {
                fits = Some(-(acc as i64));
            } else if neg && acc == 0x8000_0000_0000_0000u128 {
                fits = Some(i64::MIN);
            }
        }
        match fits {
            Some(n) => {
                proof {
                    assert(n as int == int_lexeme_val(lex));
                    lemma_number_result_int(t@, i as int, e as int, n as int);
                    assert(sp_number(t@, i as int) == Some((Jv::Int(n as int), e as int)));
                }
                Some((JsonValue::Int(n), e))
            },
            None => {
                proof {
                    if over {
                        assert(dec_val(t@.subrange(d0 as int, e as int)) > u64::MAX);
                        if neg {
                            assert(int_lexeme_val(lex) < i64::MIN);
                        } else {
                            assert(int_lexeme_val(lex) > i64::MAX);
                        }
                    } else {
                        if !neg {
                            assert(acc > 0x7FFF_FFFF_FFFF_FFFFu128);
                            assert(int_lexeme_val(lex) > i64::MAX);
                        } else {
                            assert(acc > 0x8000_0000_0000_0000u128);
                            assert(int_lexeme_val(lex) < i64::MIN);
                        }
                    }
                    lemma_number_result_raw(t@, i as int, k as int, e as int);
                    assert(sp_number(t@, i as int) == Some((Jv::NumRaw(lex), e as int)));
                }
                let rawv = copy_range(t, i, e);
                proof {
                    assert(rawv@ =~= lex);
                }
                Some((JsonValue::NumRaw(rawv), e))
            },
        }
    } else {
        proof {
            lemma_number_result_raw(t@, i as int, k as int, e as int);
            assert(sp_number(t@, i as int) == Some((Jv::NumRaw(lex), e as int)));
        }
        let rawv = copy_range(t, i, e);
        proof {
            assert(rawv@ =~= lex);
        }
        Some((JsonValue::NumRaw(rawv), e))
    }
}


// ---------------------------------------------------------------------------
// Parsing strings
// ---------------------------------------------------------------------------

pub proof fn lemma_esc_bytes_cat(s: Seq<u8>, m: int)
    requires
        0 <= m <= s.len(),
    ensures
        esc_bytes(s) =~= esc_bytes(s.take(m)) + esc_bytes(s.skip(m)),
    decreases m,
{
    if m == 0 {
        assert(s.take(0) =~= Seq::<u8>::empty());
        assert(s.skip(0) =~= s);
    } else {
        assert(s.take(m)[0] == s[0]);
        assert(s.take(m).drop_first() =~= s.drop_first().take(m - 1));
        assert(s.skip(m) =~= s.drop_first().skip(m - 1));
        lemma_esc_bytes_cat(s.drop_first(), m - 1);
        assert(esc_bytes(s) == esc_byte(s[0]) + esc_bytes(s.drop_first()));
    }
}

/// The bytes visible at the cursor when it sits after `m` decoded bytes of a
/// serialized string literal.
proof fn lemma_str_head(t: Seq<u8>, i: int, sv: Seq<u8>, rest: Seq<u8>, m: int)
    requires
        str_at(t, i, sv, rest),
        0 <= m <= sv.len(),
    ensures
        i + 2 + esc_bytes(sv).len() <= t.len(),
        esc_bytes(sv.take(m)).len() <= esc_bytes(sv).len(),
        m < sv.len() ==> esc_bytes(sv) =~= esc_bytes(sv.take(m)) + esc_byte(sv[m]) + esc_bytes(
            sv.skip(m + 1),
        ),
        m < sv.len() ==> forall|x: int|
            0 <= x < esc_byte(sv[m]).len() ==> t[i + 1 + esc_bytes(sv.take(m)).len() + x]
                == esc_byte(sv[m])[x],
        m == sv.len() ==> t[i + 1 + esc_bytes(sv.take(m)).len()] == 0x22,
        m < sv.len() ==> esc_bytes(sv.take(m + 1)) =~= esc_bytes(sv.take(m)) + esc_byte(sv[m]),
{
    let body = seq![0x22u8] + esc_bytes(sv) + seq![0x22u8];
    assert(t.subrange(i, t.len() as int).len() == body.len() + rest.len());
    assert forall|x: int| 0 <= x < body.len() + rest.len() implies t[i + x] == (body + rest)[x] by {
        assert((body + rest)[x] == t.subrange(i, t.len() as int)[x]);
        assert(t.subrange(i, t.len() as int)[x] == t[i + x]);
    }
    lemma_esc_bytes_cat(sv, m);
    if m < sv.len() {
        assert(sv.skip(m)[0] == sv[m]);
        assert(sv.skip(m).drop_first() =~= sv.skip(m + 1));
        assert(esc_bytes(sv.skip(m)) == esc_byte(sv[m]) + esc_bytes(sv.skip(m + 1)));
        assert(esc_bytes(sv) =~= esc_bytes(sv.take(m)) + esc_byte(sv[m]) + esc_bytes(
            sv.skip(m + 1),
        ));
        assert forall|x: int|
            0 <= x < esc_byte(sv[m]).len() implies t[i + 1 + esc_bytes(sv.take(m)).len() + x]
            == esc_byte(sv[m])[x] by {
            let pos = 1 + esc_bytes(sv.take(m)).len() + x;
            assert(body[pos] == esc_bytes(sv)[esc_bytes(sv.take(m)).len() + x]);
            assert(t[i + pos] == (body + rest)[pos]);
        }
        lemma_esc_bytes_take(sv, m);
    } else {
        assert(sv.take(m) =~= sv);
        let pos: int = 1 + esc_bytes(sv).len() as int;
        assert(body[pos] == 0x22);
        assert(t[i + pos] == (body + rest)[pos]);
    }
}

fn hex_digit_val(b: u8) -> (r: Option<u8>)
    ensures
        r matches Some(v) ==> v < 16,
        forall|v: u8| v < 16 && b == hex_digit(v) ==> r == Some(v),
{
    if b >= 0x30 && b <= 0x39 {
        Some(b - 0x30)
    } else if b >= 0x61 && b <= 0x66 {
        Some(b - 0x61 + 10)
    } else if b >= 0x41 && b <= 0x46 {
        Some(b - 0x41 + 10)
    } else {
        None
    }
}

/// Reads four hex digits.
fn hex4(t: &[u8], p: usize) -> (r: Option<u32>)
    requires
        p + 4 <= t@.len(),
    ensures
        r matches Some(h) ==> h < 0x10000,
        forall|v: u8|
            t@[p as int] == 0x30 && t@[p as int + 1] == 0x30 && t@[p as int + 2] == #[trigger] hex_digit(
                v / 16,
            ) && t@[p as int + 3] == hex_digit(v % 16) ==> r == Some(v as u32),
{
    let a = hex_digit_val(t[p]);
    let b = hex_digit_val(t[p + 1]);
    let c = hex_digit_val(t[p + 2]);
    let d = hex_digit_val(t[p + 3]);
    match (a, b, c, d) {
        (Some(a), Some(b), Some(c), Some(d)) => {
            let h = (a as u32) * 4096 + (b as u32) * 256 + (c as u32) * 16 + (d as u32);
            proof {
                assert forall|v: u8|
                    t@[p as int] == 0x30 && t@[p as int + 1] == 0x30 && t@[p as int + 2]
                        == #[trigger] hex_digit(v / 16) && t@[p as int + 3] == hex_digit(v % 16)
                    implies h == v as u32 by {
                    assert(hex_digit(0) == 0x30);
                    assert(a == 0 && b == 0);
                    assert(c == v / 16 && d == v % 16);
                }
            }
            Some(h)
        },
        _ => {
            proof {
                assert forall|v: u8|
                    t@[p as int] == 0x30 && t@[p as int + 1] == 0x30 && t@[p as int + 2]
                        == #[trigger] hex_digit(v / 16) && t@[p as int + 3] == hex_digit(v % 16)
                    implies false by {
                    assert(hex_digit(0) == 0x30);
                }
            }
            None
        },
    }
}

/// Appends the UTF-8 encoding of a scalar value.
fn push_utf8(cp: u32, out: &mut Vec<u8>)
    requires
        cp < 0x110000,
    ensures
        cp < 0x80 ==> final(out)@ == old(out)@ + seq![cp as u8],
        final(out)@.len() > old(out)@.len(),
{
    if cp < 0x80 {
        out.push(cp as u8);
    } else if cp < 0x800 {
        out.push(#[verifier::truncate] ((0xC0u32 | (cp >> 6u32)) as u8));
        out.push(#[verifier::truncate] ((0x80u32 | (cp & 0x3Fu32)) as u8));
    } else if cp < 0x10000 {
        out.push(#[verifier::truncate] ((0xE0u32 | (cp >> 12u32)) as u8));
        out.push(#[verifier::truncate] ((0x80u32 | ((cp >> 6u32) & 0x3Fu32)) as u8));
        out.push(#[verifier::truncate] ((0x80u32 | (cp & 0x3Fu32)) as u8));
    } else {
        out.push(#[verifier::truncate] ((0xF0u32 | (cp >> 18u32)) as u8));
        out.push(#[verifier::truncate] ((0x80u32 | ((cp >> 12u32) & 0x3Fu32)) as u8));
        out.push(#[verifier::truncate] ((0x80u32 | ((cp >> 6u32) & 0x3Fu32)) as u8));
        out.push(#[verifier::truncate] ((0x80u32 | (cp & 0x3Fu32)) as u8));
    }
}

/// Parses the string literal whose opening quote sits at `i`.
fn parse_string(t: &[u8], i: usize) -> (r: Option<(Vec<u8>, usize)>)
    requires
        i < t@.len(),
        t@[i as int] == 0x22,
    ensures
        r matches Some(p) ==> i + 1 < p.1 <= t@.len(),
        forall|sv: Seq<u8>, rest: Seq<u8>|
            #[trigger] str_at(t@, i as int, sv, rest) ==> match r {
                Some(p) => p.0@ == sv && p.1 == i + 2 + esc_bytes(sv).len(),
                None => false,
            },
{
    let mut out: Vec<u8> = Vec::new();
    let n = t.len();
    assert(i < n);
    let mut p = i + 1;
    while p < t.len()
        invariant
            i + 1 <= p <= t@.len(),
            i < t@.len() && t@[i as int] == 0x22,
            forall|sv: Seq<u8>, rest: Seq<u8>|
                #[trigger] str_at(t@, i as int, sv, rest) ==> out@.len() <= sv.len() && out@
                    == sv.take(out@.len() as int) && p == i + 1 + esc_bytes(
                    sv.take(out@.len() as int),
                ).len(),
        decreases t@.len() - p,
    {
        let ghost m = out@.len() as int;
        let b = t[p];
        if b == 0x22 {
            proof {
                assert forall|sv: Seq<u8>, rest: Seq<u8>|
                    #[trigger] str_at(t@, i as int, sv, rest) implies out@ == sv && p + 1 == i + 2
                    + esc_bytes(sv).len() by {
                    lemma_str_head(t@, i as int, sv, rest, m);
                    if m < sv.len() {
                        assert(t@[p as int] == esc_byte(sv[m])[0]);
                        assert(esc_byte(sv[m])[0] != 0x22);
                        assert(false);
                    }
                    assert(sv.take(m) =~= sv);
                }
            }
            return Some((out, p + 1));
        } else if b == 0x5C {
            if p + 1 >= t.len() {
                proof {
                    assert forall|sv: Seq<u8>, rest: Seq<u8>|
                        #[trigger] str_at(t@, i as int, sv, rest) implies false by {
                        lemma_str_head(t@, i as int, sv, rest, m);
                        if m < sv.len() {
                            assert(esc_byte(sv[m]).len() >= 2 || esc_byte(sv[m])[0] != 0x5C);
                            assert(i + 1 + esc_bytes(sv.take(m)).len() + esc_byte(sv[m]).len() <= i
                                + 1 + esc_bytes(sv).len());
                        }
                    }
                }
                return None;
            }
            let ghost sv_facts = true;
            proof {
                // under any str_at assumption the escaped byte is ", \ or a control
                assert forall|sv: Seq<u8>, rest: Seq<u8>|
                    #[trigger] str_at(t@, i as int, sv, rest) implies m < sv.len() && (sv[m] == 0x22
                    || sv[m] == 0x5C || sv[m] < 0x20) && esc_byte(sv[m])[0] == 0x5C && t@[p as int
                    + 1] == esc_byte(sv[m])[1] by {
                    lemma_str_head(t@, i as int, sv, rest, m);
                    if m == sv.len() {
                        assert(t@[p as int] == 0x22);
                        assert(false);
                    }
                    assert(t@[p as int] == esc_byte(sv[m])[0]);
                }
            }
            let c = t[p + 1];
            if c == 0x22 || c == 0x5C {
                proof {
                    assert forall|sv: Seq<u8>, rest: Seq<u8>|
                        #[trigger] str_at(t@, i as int, sv, rest) implies sv[m] == c && out@.push(c)
                        == sv.take(m + 1) && p + 2 == i + 1 + esc_bytes(sv.take(m + 1)).len() by {
                        lemma_str_head(t@, i as int, sv, rest, m);
                        assert(t@[p as int] == esc_byte(sv[m])[0]);
                        assert(t@[p as int + 1] == esc_byte(sv[m])[1]);
                        assert(sv[m] == c);
                        assert(out@.push(c) =~= sv.take(m + 1));
                        assert(esc_byte(sv[m]).len() == 2);
                    }
                }
                out.push(c);
                p = p + 2;
            } else if c == 0x75 {
                // \uXXXX, possibly a surrogate pair
                if t.len() - p < 6 {
                    proof {
                        assert forall|sv: Seq<u8>, rest: Seq<u8>|
                            #[trigger] str_at(t@, i as int, sv, rest) implies false by {
                            lemma_str_head(t@, i as int, sv, rest, m);
                            assert(t@[p as int + 1] == esc_byte(sv[m])[1]);
                            assert(sv[m] < 0x20);
                            assert(esc_byte(sv[m]).len() == 6);
                            assert(i + 1 + esc_bytes(sv.take(m)).len() + 6 <= i + 2 + esc_bytes(
                                sv,
                            ).len() <= t@.len());
                        }
                    }
                    return None;
                }
                let h = hex4(t, p + 2);
                proof {
                    assert forall|sv: Seq<u8>, rest: Seq<u8>|
                        #[trigger] str_at(t@, i as int, sv, rest) implies sv[m] < 0x20 && h == Some(
                        sv[m] as u32,
                    ) by {
                        lemma_str_head(t@, i as int, sv, rest, m);
                        assert(t@[p as int + 1] == esc_byte(sv[m])[1]);
                        assert(sv[m] < 0x20);
                        assert(t@[p as int + 2] == esc_byte(sv[m])[2]);
                        assert(t@[p as int + 3] == esc_byte(sv[m])[3]);
                        assert(t@[p as int + 4] == esc_byte(sv[m])[4]);
                        assert(t@[p as int + 5] == esc_byte(sv[m])[5]);
                        assert(t@[p as int + 2] == 0x30 && t@[p as int + 3] == 0x30);
                        assert(t@[p as int + 4] == hex_digit(sv[m] / 16));
                        assert(t@[p as int + 5] == hex_digit(sv[m] % 16));
                    }
                }
                match h {
                    None => {
                        return None;
                    },
                    Some(h) => {
                        if h >= 0xD800 && h < 0xDC00 {
                            proof {
                                assert forall|sv: Seq<u8>, rest: Seq<u8>|
                                    #[trigger] str_at(t@, i as int, sv, rest) implies false by {
                                    assert(h == sv[m] as u32 && sv[m] < 0x20);
                                }
                            }
                            // high surrogate: a low surrogate escape must follow
                            if t.len() - p < 12 {
                                return None;
                            }
                            if t[p + 6] != 0x5C || t[p + 7] != 0x75 {
                                return None;
                            }
                            let h2 = match hex4(t, p + 8) {
                                None => {
                                    return None;
                                },
                                Some(h2) => h2,
                            };
                            if !(h2 >= 0xDC00 && h2 < 0xE000) {
                                return None;
                            }
                            let cp = 0x10000 + (h - 0xD800) * 0x400 + (h2 - 0xDC00);
                            push_utf8(cp, &mut out);
                            p = p + 12;
                        } else if h >= 0xDC00 && h < 0xE000 {
                            proof {
                                assert forall|sv: Seq<u8>, rest: Seq<u8>|
                                    #[trigger] str_at(t@, i as int, sv, rest) implies false by {
                                    assert(h == sv[m] as u32 && sv[m] < 0x20);
                                }
                            }
                            return None;
                        } else {
                            proof {
                                assert forall|sv: Seq<u8>, rest: Seq<u8>|
                                    #[trigger] str_at(t@, i as int, sv, rest) implies sv[m] < 0x20
                                    && out@.push(sv[m]) == sv.take(m + 1) && p + 6 == i + 1
                                    + esc_bytes(sv.take(m + 1)).len() by {
                                    lemma_str_head(t@, i as int, sv, rest, m);
                                    assert(h == sv[m] as u32);
                                    assert(out@.push(sv[m]) =~= sv.take(m + 1));
                                    assert(esc_byte(sv[m]).len() == 6);
                                }
                            }
                            push_utf8(h, &mut out);
                            p = p + 6;
                        }
                    },
                }
            } else if c == 0x2F {
                out.push(0x2F);
                p = p + 2;
                proof {
                    assert forall|sv: Seq<u8>, rest: Seq<u8>|
                        #[trigger] str_at(t@, i as int, sv, rest) implies false by {
                        assert(t@[p as int - 1] == esc_byte(sv[m])[1]);
                        assert(esc_byte(sv[m])[1] == 0x22 || esc_byte(sv[m])[1] == 0x5C
                            || esc_byte(sv[m])[1] == 0x75);
                    }
                }
            } else if c == 0x62 || c == 0x66 || c == 0x6E || c == 0x72 || c == 0x74 {
                let decoded: u8 = if c == 0x62 {
                    0x08
                } else if c == 0x66 {
                    0x0C
                } else if c == 0x6E {
                    0x0A
                } else if c == 0x72 {
                    0x0D
                } else {
                    0x09
                };
                out.push(decoded);
                p = p + 2;
                proof {
                    assert forall|sv: Seq<u8>, rest: Seq<u8>|
                        #[trigger] str_at(t@, i as int, sv, rest) implies false by {
                        assert(t@[p as int - 1] == esc_byte(sv[m])[1]);
                        assert(esc_byte(sv[m])[1] == 0x22 || esc_byte(sv[m])[1] == 0x5C
                            || esc_byte(sv[m])[1] == 0x75);
                    }
                }
            } else {
                proof {
                    assert forall|sv: Seq<u8>, rest: Seq<u8>|
                        #[trigger] str_at(t@, i as int, sv, rest) implies false by {
                        assert(t@[p as int + 1] == esc_byte(sv[m])[1]);
                        assert(esc_byte(sv[m])[1] == 0x22 || esc_byte(sv[m])[1] == 0x5C
                            || esc_byte(sv[m])[1] == 0x75);
                    }
                }
                return None;
            }
        } else if b < 0x20 {
            proof {
                assert forall|sv: Seq<u8>, rest: Seq<u8>|
                    #[trigger] str_at(t@, i as int, sv, rest) implies false by {
                    lemma_str_head(t@, i as int, sv, rest, m);
                    if m < sv.len() {
                        assert(t@[p as int] == esc_byte(sv[m])[0]);
                    } else {
                        assert(t@[p as int] == 0x22);
                    }
                }
            }
            return None;
        } else {
            proof {
                assert forall|sv: Seq<u8>, rest: Seq<u8>|
                    #[trigger] str_at(t@, i as int, sv, rest) implies m < sv.len() && sv[m] == b
                    && out@.push(b) == sv.take(m + 1) && p + 1 == i + 1 + esc_bytes(
                    sv.take(m + 1),
                ).len() by {
                    lemma_str_head(t@, i as int, sv, rest, m);
                    if m == sv.len() {
                        assert(t@[p as int] == 0x22);
                        assert(false);
                    }
                    assert(t@[p as int] == esc_byte(sv[m])[0]);
                    assert(sv[m] == b);
                    assert(out@.push(b) =~= sv.take(m + 1));
                    assert(esc_byte(sv[m]).len() == 1);
                }
            }
            out.push(b);
            p = p + 1;
        }
    }
    proof {
        assert forall|sv: Seq<u8>, rest: Seq<u8>|
            #[trigger] str_at(t@, i as int, sv, rest) implies false by {
            let m = out@.len() as int;
            lemma_str_head(t@, i as int, sv, rest, m);
            if m < sv.len() {
                assert(t@.len() > i + 1 + esc_bytes(sv.take(m)).len());
            } else {
                assert(t@.len() > i + 1 + esc_bytes(sv.take(m)).len());
            }
        }
    }
    None
}


// ---------------------------------------------------------------------------
// Parsing values
// ---------------------------------------------------------------------------

/// The first serialized byte decides the kind of the value.
proof fn lemma_ser_first(jv: Jv)
    requires
        wf(jv),
    ensures
        spec_ser(jv).len() > 0,
        jv is Null <==> spec_ser(jv)[0] == 0x6E,
        jv == Jv::Bool(true) <==> spec_ser(jv)[0] == 0x74,
        jv == Jv::Bool(false) <==> spec_ser(jv)[0] == 0x66,
        jv is Str <==> spec_ser(jv)[0] == 0x22,
        jv is Arr <==> spec_ser(jv)[0] == 0x5B,
        jv is Obj <==> spec_ser(jv)[0] == 0x7B,
        (jv is Int || jv is NumRaw) <==> (spec_ser(jv)[0] == 0x2D || is_digit(spec_ser(jv)[0])),
        !is_ws(spec_ser(jv)[0]),
        spec_ser(jv)[0] != 0x2C && spec_ser(jv)[0] != 0x5D && spec_ser(jv)[0] != 0x7D && spec_ser(
            jv,
        )[0] != 0x3A,
{
    match jv {
        Jv::Int(n) => {
            if n > 0 {
                lemma_dec_digits_shape(n);
            } else if n < 0 {
                lemma_dec_digits_shape(-n);
            }
        },
        Jv::NumRaw(r) => {
            assert(is_num_lexeme(r));
            assert(r.len() > 0);
            if r[0] != 0x2D {
                assert(int_part_end(r, 0) is Some);
                assert(is_digit(r[0]));
            }
        },
        _ => {},
    }
}

/// The individual bytes under a serialized value.
proof fn lemma_ser_at_bytes(t: Seq<u8>, i: int, jv: Jv, rest: Seq<u8>)
    requires
        ser_at(t, i, jv, rest),
    ensures
        i + spec_ser(jv).len() + rest.len() == t.len(),
        forall|x: int| 0 <= x < spec_ser(jv).len() ==> t[i + x] == #[trigger] spec_ser(jv)[x],
        spec_ser(jv).len() > 0,
        t[i] == spec_ser(jv)[0],
        t.subrange(i + spec_ser(jv).len(), t.len() as int) =~= rest,
{
    lemma_ser_first(jv);
    let s = spec_ser(jv);
    assert(t.subrange(i, t.len() as int).len() == s.len() + rest.len());
    assert forall|x: int| 0 <= x < s.len() implies t[i + x] == #[trigger] s[x] by {
        assert((s + rest)[x] == t.subrange(i, t.len() as int)[x]);
        assert(t.subrange(i, t.len() as int)[x] == t[i + x]);
    }
    assert forall|x: int| 0 <= x < rest.len() implies t.subrange(
        i + s.len(),
        t.len() as int,
    )[x] == rest[x] by {
        assert((s + rest)[s.len() + x] == t.subrange(i, t.len() as int)[s.len() + x]);
        assert(t.subrange(i, t.len() as int)[s.len() + x] == t[i + s.len() + x]);
    }
}

pub proof fn lemma_jv_list_push(a: Seq<JsonValue>, x: JsonValue)
    ensures
        jv_list(a.push(x)) =~= jv_list(a).push(jv_of(x)),
{
    lemma_jv_list(a.push(x));
    lemma_jv_list(a);
    assert forall|i: int| 0 <= i < a.len() + 1 implies jv_list(a.push(x))[i] == jv_list(a).push(
        jv_of(x),
    )[i] by {
        if i < a.len() {
            assert(a.push(x)[i] == a[i]);
        } else {
            assert(a.push(x)[i] == x);
        }
    }
}

pub proof fn lemma_jv_members_push(m: Seq<(Vec<u8>, JsonValue)>, k: Vec<u8>, x: JsonValue)
    ensures
        jv_members(m.push((k, x))) =~= jv_members(m).push((k@, jv_of(x))),
{
    lemma_jv_members(m.push((k, x)));
    lemma_jv_members(m);
    assert forall|i: int| 0 <= i < m.len() + 1 implies jv_members(m.push((k, x)))[i] == jv_members(
        m,
    ).push((k@, jv_of(x)))[i] by {
        if i < m.len() {
            assert(m.push((k, x))[i] == m[i]);
        } else {
            assert(m.push((k, x))[i] == (k, x));
        }
    }
}

/// Skips blanks.
fn skip_ws(t: &[u8], i: usize) -> (r: usize)
    requires
        i <= t@.len(),
    ensures
        i <= r <= t@.len(),
        forall|k: int| i <= k < r ==> is_ws(#[trigger] t@[k]),
        r < t@.len() ==> !is_ws(t@[r as int]),
    decreases t@.len() - i,
{
    if i < t.len() && (t[i] == 0x20 || t[i] == 0x09 || t[i] == 0x0A || t[i] == 0x0D) {
        skip_ws(t, i + 1)
    } else {
        i
    }
}

/// Parses the value whose first byte sits at `i` (no leading blanks).
fn parse_value(t: &[u8], i: usize) -> (r: Option<(JsonValue, usize)>)
    requires
        i <= t@.len(),
    ensures
        r matches Some(p) ==> i < p.1 <= t@.len() && wf(p.0@),
        forall|jv: Jv, rest: Seq<u8>|
            #[trigger] ser_at(t@, i as int, jv, rest) ==> match r {
                Some(p) => p.0@ == jv && p.1 == i + spec_ser(jv).len(),
                None => false,
            },
    decreases t@.len() - i, 1int,
{
    let n = t.len();
    if i >= n {
        proof {
            assert forall|jv: Jv, rest: Seq<u8>|
                #[trigger] ser_at(t@, i as int, jv, rest) implies false by {
                lemma_ser_at_bytes(t@, i as int, jv, rest);
            }
        }
        return None;
    }
    let b = t[i];
    if b == 0x6E {
        // null
        if n - i >= 4 && t[i + 1] == 0x75 && t[i + 2] == 0x6C && t[i + 3] == 0x6C {
            proof {
                assert forall|jv: Jv, rest: Seq<u8>|
                    #[trigger] ser_at(t@, i as int, jv, rest) implies jv == Jv::Null && spec_ser(
                    jv,
                ).len() == 4 by {
                    lemma_ser_at_bytes(t@, i as int, jv, rest);
                    lemma_ser_first(jv);
                }
            }
            Some((JsonValue::Null, i + 4))
        } else {
            proof {
                assert forall|jv: Jv, rest: Seq<u8>|
                    #[trigger] ser_at(t@, i as int, jv, rest) implies false by {
                    lemma_ser_at_bytes(t@, i as int, jv, rest);
                    lemma_ser_first(jv);
                    assert(jv == Jv::Null);
                    assert(t@[i as int + 1] == 0x75 && t@[i as int + 2] == 0x6C && t@[i as int + 3]
                        == 0x6C);
                }
            }
            None
        }
    } else if b == 0x74 {
        // true
        if n - i >= 4 && t[i + 1] == 0x72 && t[i + 2] == 0x75 && t[i + 3] == 0x65 {
            proof {
                assert forall|jv: Jv, rest: Seq<u8>|
                    #[trigger] ser_at(t@, i as int, jv, rest) implies jv == Jv::Bool(true)
                    && spec_ser(jv).len() == 4 by {
                    lemma_ser_at_bytes(t@, i as int, jv, rest);
                    lemma_ser_first(jv);
                }
            }
            Some((JsonValue::Bool(true), i + 4))
        } else {
            proof {
                assert forall|jv: Jv, rest: Seq<u8>|
                    #[trigger] ser_at(t@, i as int, jv, rest) implies false by {
                    lemma_ser_at_bytes(t@, i as int, jv, rest);
                    lemma_ser_first(jv);
                    assert(jv == Jv::Bool(true));
                    assert(t@[i as int + 1] == 0x72 && t@[i as int + 2] == 0x75 && t@[i as int + 3]
                        == 0x65);
                }
            }
            None
        }
    } else if b == 0x66 {
        // false
        if n - i >= 5 && t[i + 1] == 0x61 && t[i + 2] == 0x6C && t[i + 3] == 0x73 && t[i + 4]
            == 0x65 {
            proof {
                assert forall|jv: Jv, rest: Seq<u8>|
                    #[trigger] ser_at(t@, i as int, jv, rest) implies jv == Jv::Bool(false)
                    && spec_ser(jv).len() == 5 by {
                    lemma_ser_at_bytes(t@, i as int, jv, rest);
                    lemma_ser_first(jv);
                }
            }
            Some((JsonValue::Bool(false), i + 5))
        } else {
            proof {
                assert forall|jv: Jv, rest: Seq<u8>|
                    #[trigger] ser_at(t@, i as int, jv, rest) implies false by {
                    lemma_ser_at_bytes(t@, i as int, jv, rest);
                    lemma_ser_first(jv);
                    assert(jv == Jv::Bool(false));
                    assert(t@[i as int + 1] == 0x61 && t@[i as int + 2] == 0x6C && t@[i as int + 3]
                        == 0x73 && t@[i as int + 4] == 0x65);
                }
            }
            None
        }
    } else if b == 0x22 {
        // a string literal
        let parsed = parse_string(t, i);
        proof {
            assert forall|jv: Jv, rest: Seq<u8>|
                #[trigger] ser_at(t@, i as int, jv, rest) implies match parsed {
                Some(p) => jv == Jv::Str(p.0@) && p.1 == i + spec_ser(jv).len(),
                None => false,
            } by {
                lemma_ser_at_bytes(t@, i as int, jv, rest);
                lemma_ser_first(jv);
                assert(jv is Str);
                let sv = jv->Str_0;
                assert(t@.subrange(i as int, t@.len() as int) =~= seq![0x22u8] + esc_bytes(sv)
                    + seq![0x22u8] + rest);
                assert(str_at(t@, i as int, sv, rest));
            }
        }
        match parsed {
            Some((s, j)) => Some((JsonValue::Str(s), j)),
            None => None,
        }
    } else if b == 0x2D || (b >= 0x30 && b <= 0x39) {
        // a number
        let parsed = parse_number(t, i);
        proof {
            assert forall|jv: Jv, rest: Seq<u8>|
                #[trigger] ser_at(t@, i as int, jv, rest) implies (jv is Int || jv is NumRaw) by {
                lemma_ser_at_bytes(t@, i as int, jv, rest);
                lemma_ser_first(jv);
            }
        }
        parsed
    } else if b == 0x5B {
        parse_array(t, i)
    } else if b == 0x7B {
        parse_object(t, i)
    } else {
        proof {
            assert forall|jv: Jv, rest: Seq<u8>|
                #[trigger] ser_at(t@, i as int, jv, rest) implies false by {
                lemma_ser_at_bytes(t@, i as int, jv, rest);
                lemma_ser_first(jv);
            }
        }
        None
    }
}


#[verifier::rlimit(100)]
fn parse_array(t: &[u8], i: usize) -> (r: Option<(JsonValue, usize)>)
    requires
        i < t@.len(),
        t@[i as int] == 0x5B,
    ensures
        r matches Some(p) ==> i < p.1 <= t@.len() && wf(p.0@),
        forall|jv: Jv, rest: Seq<u8>|
            #[trigger] ser_at(t@, i as int, jv, rest) ==> match r {
                Some(p) => p.0@ == jv && p.1 == i + spec_ser(jv).len(),
                None => false,
            },
    decreases t@.len() - i, 0int,
{
    let n = t.len();
        // an array
        proof {
            assert forall|jv: Jv, rest: Seq<u8>|
                #[trigger] ser_at(t@, i as int, jv, rest) implies jv is Arr && t@.subrange(
                i as int + 1,
                t@.len() as int,
            ) =~= spec_ser_list(jv->Arr_0) + seq![0x5Du8] + rest by {
                lemma_ser_at_bytes(t@, i as int, jv, rest);
                lemma_ser_first(jv);
                let s = spec_ser(jv);
                assert(t@.subrange(i as int, t@.len() as int) =~= s + rest);
                assert(t@.subrange(i as int + 1, t@.len() as int) =~= (s + rest).skip(1));
                assert((s + rest).skip(1) =~= spec_ser_list(jv->Arr_0) + seq![0x5Du8] + rest);
            }
        }
        let mut items: Vec<JsonValue> = Vec::new();
        let mut p = skip_ws(t, i + 1);
        if p < n && t[p] == 0x5D {
            proof {
                assert forall|jv: Jv, rest: Seq<u8>|
                    #[trigger] ser_at(t@, i as int, jv, rest) implies jv == Jv::Arr(
                    Seq::<Jv>::empty(),
                ) && p + 1 == i + spec_ser(jv).len() by {
                    lemma_ser_at_bytes(t@, i as int, jv, rest);
                    let elems = jv->Arr_0;
                    assert(t@.subrange(i as int + 1, t@.len() as int)[0] == t@[i as int + 1]);
                    if elems.len() > 0 {
                        lemma_wf_list_index(elems);
                        lemma_ser_first(elems[0]);
                        assert(spec_ser_list(elems)[0] == spec_ser(elems[0])[0]);
                        assert((spec_ser_list(elems) + seq![0x5Du8] + rest)[0] == spec_ser_list(
                            elems,
                        )[0]);
                        assert(t@[i as int + 1] == spec_ser(elems[0])[0]);
                        assert(!is_ws(t@[i as int + 1]));
                        assert(p == i + 1);
                        assert(t@[p as int] == spec_ser(elems[0])[0]);
                        assert(false);
                    }
                    assert(spec_ser_list(elems).len() == 0);
                    assert((spec_ser_list(elems) + seq![0x5Du8] + rest)[0] == 0x5D);
                    assert(t@[i as int + 1] == 0x5D);
                    assert(!is_ws(t@[i as int + 1]));
                    assert(p == i + 1);
                    assert(elems =~= Seq::<Jv>::empty());
                }
                assert(jv_list(Seq::<JsonValue>::empty()) =~= Seq::<Jv>::empty());
            }
            return Some((JsonValue::Arr(items), p + 1));
        }
        proof {
            // a nonempty element list begins right after the bracket
            assert forall|jv: Jv, rest: Seq<u8>|
                #[trigger] ser_at(t@, i as int, jv, rest) implies jv->Arr_0.len() > 0 && p == i + 1
                && t@.subrange(p as int, t@.len() as int) =~= spec_ser_list(jv->Arr_0.skip(0))
                + seq![0x5Du8] + rest by {
                lemma_ser_at_bytes(t@, i as int, jv, rest);
                let elems = jv->Arr_0;
                assert(t@.subrange(i as int + 1, t@.len() as int)[0] == t@[i as int + 1]);
                if elems.len() == 0 {
                    assert((spec_ser_list(elems) + seq![0x5Du8] + rest)[0] == 0x5D);
                    assert(t@[i as int + 1] == 0x5D);
                    assert(!is_ws(t@[i as int + 1]));
                    assert(p == i + 1);
                    assert(false);
                }
                lemma_wf_list_index(elems);
                lemma_ser_first(elems[0]);
                assert(spec_ser_list(elems)[0] == spec_ser(elems[0])[0]);
                assert((spec_ser_list(elems) + seq![0x5Du8] + rest)[0] == spec_ser_list(elems)[0]);
                assert(t@[i as int + 1] == spec_ser_list(elems)[0]);
                assert(!is_ws(t@[i as int + 1]));
                assert(p == i + 1);
                assert(elems.skip(0) =~= elems);
            }
        }
        let ghost k: int = 0;
        loop
            invariant
                i < p <= n == t@.len(),
                n == t@.len(),
                items@.len() == k,
                forall|x: int| 0 <= x < items@.len() ==> wf(jv_of(#[trigger] items@[x])),
                forall|jv: Jv, rest: Seq<u8>|
                    #[trigger] ser_at(t@, i as int, jv, rest) ==> {
                        let elems = jv->Arr_0;
                        &&& jv is Arr
                        &&& k < elems.len()
                        &&& jv_list(items@) =~= elems.take(k)
                        &&& t@.subrange(p as int, t@.len() as int) =~= spec_ser_list(elems.skip(k))
                            + seq![0x5Du8] + rest
                    },
            decreases t@.len() - p,
        {
            let ghost p0 = p as int;
            proof {
                // the next element of any matching array starts at p
                assert forall|jv: Jv, rest: Seq<u8>|
                    #[trigger] ser_at(t@, i as int, jv, rest) implies ser_at(
                    t@,
                    p as int,
                    jv->Arr_0[k],
                    arr_elem_rest(jv->Arr_0, k, rest),
                ) by {
                    let elems = jv->Arr_0;
                    lemma_wf_list_index(elems);
                    assert(elems.skip(k)[0] == elems[k]);
                    assert(elems.skip(k).drop_first() =~= elems.skip(k + 1));
                    if k + 1 < elems.len() {
                        assert(spec_ser_list(elems.skip(k)) =~= spec_ser(elems[k]) + seq![0x2Cu8]
                            + spec_ser_list(elems.skip(k + 1)));
                        assert(t@.subrange(p as int, t@.len() as int) =~= spec_ser(elems[k]) + (
                        seq![0x2Cu8] + spec_ser_list(elems.skip(k + 1)) + seq![0x5Du8] + rest));
                    } else {
                        assert(spec_ser_list(elems.skip(k)) =~= spec_ser(elems[k]));
                        assert(t@.subrange(p as int, t@.len() as int) =~= spec_ser(elems[k]) + (
                        seq![0x5Du8] + rest));
                    }
                }
            }
            let parsed = match parse_value(t, p) {
                None => {
                    proof {
                        assert forall|jv: Jv, rest: Seq<u8>|
                            #[trigger] ser_at(t@, i as int, jv, rest) implies false by {
                            assert(ser_at(t@, p as int, jv->Arr_0[k], arr_elem_rest(
                                jv->Arr_0,
                                k,
                                rest,
                            )));
                        }
                    }
                    return None;
                },
                Some(q) => q,
            };
            let (v, p2) = parsed;
            proof {
                assert forall|jv: Jv, rest: Seq<u8>|
                    #[trigger] ser_at(t@, i as int, jv, rest) implies jv_of(v) == jv->Arr_0[k] && p2
                    == p + spec_ser(jv->Arr_0[k]).len() && t@.subrange(p2 as int, t@.len() as int)
                    =~= arr_elem_rest(jv->Arr_0, k, rest) by {
                    assert(ser_at(t@, p as int, jv->Arr_0[k], arr_elem_rest(jv->Arr_0, k, rest)));
                    let sv = spec_ser(jv->Arr_0[k]);
                    assert(t@.subrange(p as int, t@.len() as int) =~= sv + arr_elem_rest(
                        jv->Arr_0,
                        k,
                        rest,
                    ));
                    assert(t@.subrange(p2 as int, t@.len() as int) =~= t@.subrange(
                        p as int,
                        t@.len() as int,
                    ).skip(sv.len() as int));
                }
            }
            let ghost items0 = items@;
            items.push(v);
            let p3 = skip_ws(t, p2);
            proof {
                assert forall|jv: Jv, rest: Seq<u8>|
                    #[trigger] ser_at(t@, i as int, jv, rest) implies p3 == p2 && p2 < n && (t@[p2 as int]
                    == 0x2C <==> k + 1 < jv->Arr_0.len()) && (t@[p2 as int] == 0x5D <==> k + 1
                    == jv->Arr_0.len()) by {
                    let er = arr_elem_rest(jv->Arr_0, k, rest);
                    assert(t@.subrange(p2 as int, t@.len() as int) =~= er);
                    assert(er.len() > 0);
                    assert(t@[p2 as int] == er[0]);
                    assert(!is_ws(er[0]));
                }
            }
            if p3 < n && t[p3] == 0x2C {
                let pn = skip_ws(t, p3 + 1);
                proof {
                    assert forall|jv: Jv, rest: Seq<u8>|
                        #[trigger] ser_at(t@, i as int, jv, rest) implies k + 1 < jv->Arr_0.len()
                        && pn == p3 + 1 && jv_list(items@) =~= jv->Arr_0.take(k + 1)
                        && t@.subrange(pn as int, t@.len() as int) =~= spec_ser_list(
                        jv->Arr_0.skip(k + 1),
                    ) + seq![0x5Du8] + rest by {
                        let elems = jv->Arr_0;
                        let er = arr_elem_rest(elems, k, rest);
                        assert(t@.subrange(p2 as int, t@.len() as int) =~= er);
                        assert(t@[p2 as int] == er[0]);
                        assert(k + 1 < elems.len());
                        assert(t@.subrange(p3 as int + 1, t@.len() as int) =~= er.skip(1));
                        assert(er.skip(1) =~= spec_ser_list(elems.skip(k + 1)) + seq![0x5Du8]
                            + rest);
                        lemma_wf_list_index(elems);
                        assert(elems.skip(k + 1)[0] == elems[k + 1]);
                        lemma_ser_first(elems[k + 1]);
                        assert(spec_ser_list(elems.skip(k + 1))[0] == spec_ser(elems[k + 1])[0]);
                        assert(t@.subrange(p3 as int + 1, t@.len() as int)[0] == t@[p3 as int + 1]);
                        assert((spec_ser_list(elems.skip(k + 1)) + seq![0x5Du8] + rest)[0]
                            == spec_ser_list(elems.skip(k + 1))[0]);
                        assert(t@[p3 as int + 1] == spec_ser_list(elems.skip(k + 1))[0]);
                        assert(!is_ws(t@[p3 as int + 1]));
                        assert(pn == p3 + 1);
                        lemma_jv_list_push(items0, v);
                        assert(items@ =~= items0.push(v));
                        assert(jv_list(items0) =~= elems.take(k));
                        assert(jv_list(items@) =~= elems.take(k).push(jv_of(v)));
                        assert(elems.take(k).push(elems[k]) =~= elems.take(k + 1));
                    }
                }
                p = pn;
                proof {
                    k = k + 1;
                }
            } else if p3 < n && t[p3] == 0x5D {
                proof {
                    assert forall|jv: Jv, rest: Seq<u8>|
                        #[trigger] ser_at(t@, i as int, jv, rest) implies jv == Jv::Arr(
                        jv_list(items@),
                    ) && p3 + 1 == i + spec_ser(jv).len() by {
                        let elems = jv->Arr_0;
                        let er = arr_elem_rest(elems, k, rest);
                        assert(t@.subrange(p2 as int, t@.len() as int) =~= er);
                        assert(t@[p2 as int] == er[0]);
                        assert(k + 1 == elems.len());
                        lemma_jv_list_push(items0, v);
                        assert(items@ =~= items0.push(v));
                        assert(jv_list(items0) =~= elems.take(k));
                        assert(jv_list(items@) =~= elems.take(k).push(jv_of(v)));
                        assert(elems.take(k).push(elems[k]) =~= elems.take(k + 1));
                        assert(elems.take(k + 1) =~= elems);
                        // the closing bracket ends the serialization
                        assert(er =~= seq![0x5Du8] + rest);
                        assert(t@.len() - rest.len() == p2 + 1);
                        lemma_ser_at_bytes(t@, i as int, jv, rest);
                        assert(i + spec_ser(jv).len() + rest.len() == t@.len());
                    }
                }
                let ghost fin = items@;
                proof {
                    lemma_jv_list(fin);
                    assert forall|x: int| 0 <= x < jv_list(fin).len() implies wf(
                        #[trigger] jv_list(fin)[x],
                    ) by {
                        assert(jv_list(fin)[x] == jv_of(fin[x]));
                        if x < items0.len() {
                            assert(fin[x] == items0[x]);
                        } else {
                            assert(fin[x] == v);
                        }
                    }
                    lemma_wf_list_index(jv_list(fin));
                    assert(wf_list(jv_list(fin)));
                }
                return Some((JsonValue::Arr(items), p3 + 1));
            } else {
                proof {
                    assert forall|jv: Jv, rest: Seq<u8>|
                        #[trigger] ser_at(t@, i as int, jv, rest) implies false by {
                        let er = arr_elem_rest(jv->Arr_0, k, rest);
                        assert(t@.subrange(p2 as int, t@.len() as int) =~= er);
                        assert(t@[p2 as int] == er[0]);
                    }
                }
                return None;
            }
        }
}

#[verifier::rlimit(100)]
fn parse_object(t: &[u8], i: usize) -> (r: Option<(JsonValue, usize)>)
    requires
        i < t@.len(),
        t@[i as int] == 0x7B,
    ensures
        r matches Some(p) ==> i < p.1 <= t@.len() && wf(p.0@),
        forall|jv: Jv, rest: Seq<u8>|
            #[trigger] ser_at(t@, i as int, jv, rest) ==> match r {
                Some(p) => p.0@ == jv && p.1 == i + spec_ser(jv).len(),
                None => false,
            },
    decreases t@.len() - i, 0int,
{
    let n = t.len();
        // an object
        proof {
            assert forall|jv: Jv, rest: Seq<u8>|
                #[trigger] ser_at(t@, i as int, jv, rest) implies jv is Obj && t@.subrange(
                i as int + 1,
                t@.len() as int,
            ) =~= spec_ser_members(jv->Obj_0) + seq![0x7Du8] + rest by {
                lemma_ser_at_bytes(t@, i as int, jv, rest);
                lemma_ser_first(jv);
                let s = spec_ser(jv);
                assert(t@.subrange(i as int, t@.len() as int) =~= s + rest);
                assert(t@.subrange(i as int + 1, t@.len() as int) =~= (s + rest).skip(1));
                assert((s + rest).skip(1) =~= spec_ser_members(jv->Obj_0) + seq![0x7Du8] + rest);
            }
        }
        let mut members: Vec<(Vec<u8>, JsonValue)> = Vec::new();
        let mut p = skip_ws(t, i + 1);
        if p < n && t[p] == 0x7D {
            proof {
                assert forall|jv: Jv, rest: Seq<u8>|
                    #[trigger] ser_at(t@, i as int, jv, rest) implies jv == Jv::Obj(
                    Seq::<(Seq<u8>, Jv)>::empty(),
                ) && p + 1 == i + spec_ser(jv).len() by {
                    lemma_ser_at_bytes(t@, i as int, jv, rest);
                    let ms = jv->Obj_0;
                    assert(t@.subrange(i as int + 1, t@.len() as int)[0] == t@[i as int + 1]);
                    if ms.len() > 0 {
                        assert(spec_ser_member(ms[0])[0] == 0x22);
                        assert(spec_ser_members(ms)[0] == spec_ser_member(ms[0])[0]);
                        assert((spec_ser_members(ms) + seq![0x7Du8] + rest)[0]
                            == spec_ser_members(ms)[0]);
                        assert(t@[i as int + 1] == 0x22);
                        assert(!is_ws(t@[i as int + 1]));
                        assert(p == i + 1);
                        assert(false);
                    }
                    assert(spec_ser_members(ms).len() == 0);
                    assert((spec_ser_members(ms) + seq![0x7Du8] + rest)[0] == 0x7D);
                    assert(t@[i as int + 1] == 0x7D);
                    assert(!is_ws(t@[i as int + 1]));
                    assert(p == i + 1);
                    assert(ms =~= Seq::<(Seq<u8>, Jv)>::empty());
                }
                assert(jv_members(Seq::<(Vec<u8>, JsonValue)>::empty()) =~= Seq::<
                    (Seq<u8>, Jv),
                >::empty());
            }
            return Some((JsonValue::Obj(members), p + 1));
        }
        proof {
            assert forall|jv: Jv, rest: Seq<u8>|
                #[trigger] ser_at(t@, i as int, jv, rest) implies jv->Obj_0.len() > 0 && p == i + 1
                && t@.subrange(p as int, t@.len() as int) =~= spec_ser_members(jv->Obj_0.skip(0))
                + seq![0x7Du8] + rest by {
                lemma_ser_at_bytes(t@, i as int, jv, rest);
                let ms = jv->Obj_0;
                assert(t@.subrange(i as int + 1, t@.len() as int)[0] == t@[i as int + 1]);
                if ms.len() == 0 {
                    assert((spec_ser_members(ms) + seq![0x7Du8] + rest)[0] == 0x7D);
                    assert(t@[i as int + 1] == 0x7D);
                    assert(!is_ws(t@[i as int + 1]));
                    assert(p == i + 1);
                    assert(false);
                }
                assert(spec_ser_member(ms[0])[0] == 0x22);
                assert(spec_ser_members(ms)[0] == spec_ser_member(ms[0])[0]);
                assert((spec_ser_members(ms) + seq![0x7Du8] + rest)[0] == spec_ser_members(ms)[0]);
                assert(t@[i as int + 1] == 0x22);
                assert(!is_ws(t@[i as int + 1]));
                assert(p == i + 1);
                assert(ms.skip(0) =~= ms);
            }
        }
        let ghost k: int = 0;
        loop
            invariant
                i < p <= n == t@.len(),
                members@.len() == k,
                forall|x: int| 0 <= x < members@.len() ==> wf(jv_of((#[trigger] members@[x]).1)),
                forall|jv: Jv, rest: Seq<u8>|
                    #[trigger] ser_at(t@, i as int, jv, rest) ==> {
                        let ms = jv->Obj_0;
                        &&& jv is Obj
                        &&& k < ms.len()
                        &&& jv_members(members@) =~= ms.take(k)
                        &&& t@.subrange(p as int, t@.len() as int) =~= spec_ser_members(ms.skip(k))
                            + seq![0x7Du8] + rest
                    },
            decreases t@.len() - p,
        {
            proof {
                // a member's key string begins at p
                assert forall|jv: Jv, rest: Seq<u8>|
                    #[trigger] ser_at(t@, i as int, jv, rest) implies t@[p as int] == 0x22
                    && str_at(t@, p as int, jv->Obj_0[k].0, obj_key_rest(jv->Obj_0, k, rest)) by {
                    let ms = jv->Obj_0;
                    assert(ms.skip(k)[0] == ms[k]);
                    assert(ms.skip(k).drop_first() =~= ms.skip(k + 1));
                    if k + 1 < ms.len() {
                        assert(spec_ser_members(ms.skip(k)) =~= spec_ser_member(ms[k]) + seq![
                            0x2Cu8,
                        ] + spec_ser_members(ms.skip(k + 1)));
                    } else {
                        assert(spec_ser_members(ms.skip(k)) =~= spec_ser_member(ms[k]));
                    }
                    assert(spec_ser_member(ms[k]) =~= seq![0x22u8] + esc_bytes(ms[k].0) + seq![
                        0x22u8,
                    ] + obj_key_rest(ms, k, rest).take(1 + spec_ser(ms[k].1).len() as int));
                    assert(t@.subrange(p as int, t@.len() as int) =~= seq![0x22u8] + esc_bytes(
                        ms[k].0,
                    ) + seq![0x22u8] + obj_key_rest(ms, k, rest));
                    assert(t@.subrange(p as int, t@.len() as int)[0] == t@[p as int]);
                    assert(t@[p as int] == 0x22);
                }
            }
            if !(p < n && t[p] == 0x22) {
                proof {
                    assert forall|jv: Jv, rest: Seq<u8>|
                        #[trigger] ser_at(t@, i as int, jv, rest) implies false by {
                        assert(t@[p as int] == 0x22);
                        assert(str_at(t@, p as int, jv->Obj_0[k].0, obj_key_rest(
                            jv->Obj_0,
                            k,
                            rest,
                        )));
                        assert(p as int + 1 <= t@.len());
                    }
                }
                return None;
            }
            let key = match parse_string(t, p) {
                None => {
                    proof {
                        assert forall|jv: Jv, rest: Seq<u8>|
                            #[trigger] ser_at(t@, i as int, jv, rest) implies false by {
                            assert(str_at(t@, p as int, jv->Obj_0[k].0, obj_key_rest(
                                jv->Obj_0,
                                k,
                                rest,
                            )));
                        }
                    }
                    return None;
                },
                Some(q) => q,
            };
            let (kbytes, pk) = key;
            let pc = skip_ws(t, pk);
            proof {
                assert forall|jv: Jv, rest: Seq<u8>|
                    #[trigger] ser_at(t@, i as int, jv, rest) implies kbytes@ == jv->Obj_0[k].0
                    && pc == pk && pk < n && t@[pk as int] == 0x3A && t@.subrange(
                    pk as int + 1,
                    t@.len() as int,
                ) =~= spec_ser(jv->Obj_0[k].1) + obj_val_rest(jv->Obj_0, k, rest) by {
                    let ms = jv->Obj_0;
                    let kr = obj_key_rest(ms, k, rest);
                    assert(str_at(t@, p as int, ms[k].0, kr));
                    assert(pk == p + 2 + esc_bytes(ms[k].0).len());
                    assert(t@.subrange(p as int, t@.len() as int) =~= seq![0x22u8] + esc_bytes(
                        ms[k].0,
                    ) + seq![0x22u8] + kr);
                    assert(t@.subrange(pk as int, t@.len() as int) =~= t@.subrange(
                        p as int,
                        t@.len() as int,
                    ).skip(2 + esc_bytes(ms[k].0).len() as int));
                    assert(t@.subrange(pk as int, t@.len() as int) =~= kr);
                    assert(kr[0] == 0x3A);
                    assert(t@[pk as int] == 0x3A);
                    assert(!is_ws(t@[pk as int]));
                    assert(t@.subrange(pk as int + 1, t@.len() as int) =~= kr.skip(1));
                    assert(kr.skip(1) =~= spec_ser(ms[k].1) + obj_val_rest(ms, k, rest));
                }
            }
            if !(pc < n && t[pc] == 0x3A) {
                return None;
            }
            let pv = skip_ws(t, pc + 1);
            proof {
                assert forall|jv: Jv, rest: Seq<u8>|
                    #[trigger] ser_at(t@, i as int, jv, rest) implies pv == pc + 1 && ser_at(
                    t@,
                    pv as int,
                    jv->Obj_0[k].1,
                    obj_val_rest(jv->Obj_0, k, rest),
                ) by {
                    let ms = jv->Obj_0;
                    lemma_wf_members_index(ms);
                    lemma_ser_first(ms[k].1);
                    assert(t@.subrange(pk as int + 1, t@.len() as int)[0] == t@[pk as int + 1]);
                    assert((spec_ser(ms[k].1) + obj_val_rest(ms, k, rest))[0] == spec_ser(
                        ms[k].1,
                    )[0]);
                    assert(t@[pc as int + 1] == spec_ser(ms[k].1)[0]);
                    assert(!is_ws(t@[pc as int + 1]));
                    assert(pv == pc + 1);
                }
            }
            let parsed = match parse_value(t, pv) {
                None => {
                    proof {
                        assert forall|jv: Jv, rest: Seq<u8>|
                            #[trigger] ser_at(t@, i as int, jv, rest) implies false by {
                            assert(ser_at(t@, pv as int, jv->Obj_0[k].1, obj_val_rest(
                                jv->Obj_0,
                                k,
                                rest,
                            )));
                        }
                    }
                    return None;
                },
                Some(q) => q,
            };
            let (v, p2) = parsed;
            proof {
                assert forall|jv: Jv, rest: Seq<u8>|
                    #[trigger] ser_at(t@, i as int, jv, rest) implies jv_of(v) == jv->Obj_0[k].1
                    && t@.subrange(p2 as int, t@.len() as int) =~= obj_val_rest(
                    jv->Obj_0,
                    k,
                    rest,
                ) by {
                    let ms = jv->Obj_0;
                    assert(ser_at(t@, pv as int, ms[k].1, obj_val_rest(ms, k, rest)));
                    let sv = spec_ser(ms[k].1);
                    assert(t@.subrange(pv as int, t@.len() as int) =~= sv + obj_val_rest(
                        ms,
                        k,
                        rest,
                    ));
                    assert(p2 == pv + sv.len());
                    assert(t@.subrange(p2 as int, t@.len() as int) =~= t@.subrange(
                        pv as int,
                        t@.len() as int,
                    ).skip(sv.len() as int));
                }
            }
            let ghost members0 = members@;
            let ghost kbytes0 = kbytes;
            members.push((kbytes, v));
            let p3 = skip_ws(t, p2);
            proof {
                assert forall|jv: Jv, rest: Seq<u8>|
                    #[trigger] ser_at(t@, i as int, jv, rest) implies p3 == p2 && p2 < n && (t@[p2 as int]
                    == 0x2C <==> k + 1 < jv->Obj_0.len()) && (t@[p2 as int] == 0x7D <==> k + 1
                    == jv->Obj_0.len()) by {
                    let vr = obj_val_rest(jv->Obj_0, k, rest);
                    assert(t@.subrange(p2 as int, t@.len() as int) =~= vr);
                    assert(vr.len() > 0);
                    assert(t@[p2 as int] == vr[0]);
                    assert(!is_ws(vr[0]));
                }
            }
            if p3 < n && t[p3] == 0x2C {
                let pn2 = skip_ws(t, p3 + 1);
                proof {
                    assert forall|jv: Jv, rest: Seq<u8>|
                        #[trigger] ser_at(t@, i as int, jv, rest) implies k + 1 < jv->Obj_0.len()
                        && pn2 == p3 + 1 && jv_members(members@) =~= jv->Obj_0.take(k + 1)
                        && t@.subrange(pn2 as int, t@.len() as int) =~= spec_ser_members(
                        jv->Obj_0.skip(k + 1),
                    ) + seq![0x7Du8] + rest by {
                        let ms = jv->Obj_0;
                        let vr = obj_val_rest(ms, k, rest);
                        assert(t@.subrange(p2 as int, t@.len() as int) =~= vr);
                        assert(t@[p2 as int] == vr[0]);
                        assert(k + 1 < ms.len());
                        assert(t@.subrange(p3 as int + 1, t@.len() as int) =~= vr.skip(1));
                        assert(vr.skip(1) =~= spec_ser_members(ms.skip(k + 1)) + seq![0x7Du8]
                            + rest);
                        assert(ms.skip(k + 1)[0] == ms[k + 1]);
                        assert(spec_ser_member(ms[k + 1])[0] == 0x22);
                        assert(spec_ser_members(ms.skip(k + 1))[0] == spec_ser_member(
                            ms[k + 1],
                        )[0]);
                        assert(t@.subrange(p3 as int + 1, t@.len() as int)[0] == t@[p3 as int + 1]);
                        assert((spec_ser_members(ms.skip(k + 1)) + seq![0x7Du8] + rest)[0]
                            == spec_ser_members(ms.skip(k + 1))[0]);
                        assert(t@[p3 as int + 1] == 0x22);
                        assert(!is_ws(t@[p3 as int + 1]));
                        assert(pn2 == p3 + 1);
                        lemma_jv_members_push(members0, kbytes0, v);
                        assert(members@ =~= members0.push((kbytes0, v)));
                        assert(jv_members(members0) =~= ms.take(k));
                        assert(jv_members(members@) =~= ms.take(k).push((kbytes0@, jv_of(v))));
                        assert(ms.take(k).push(ms[k]) =~= ms.take(k + 1));
                        assert((kbytes0@, jv_of(v)) == ms[k]);
                    }
                }
                p = pn2;
                proof {
                    k = k + 1;
                }
            } else if p3 < n && t[p3] == 0x7D {
                proof {
                    assert forall|jv: Jv, rest: Seq<u8>|
                        #[trigger] ser_at(t@, i as int, jv, rest) implies jv == Jv::Obj(
                        jv_members(members@),
                    ) && p3 + 1 == i + spec_ser(jv).len() by {
                        let ms = jv->Obj_0;
                        let vr = obj_val_rest(ms, k, rest);
                        assert(t@.subrange(p2 as int, t@.len() as int) =~= vr);
                        assert(t@[p2 as int] == vr[0]);
                        assert(k + 1 == ms.len());
                        lemma_jv_members_push(members0, kbytes0, v);
                        assert(members@ =~= members0.push((kbytes0, v)));
                        assert(jv_members(members0) =~= ms.take(k));
                        assert(jv_members(members@) =~= ms.take(k).push((kbytes0@, jv_of(v))));
                        assert((kbytes0@, jv_of(v)) == ms[k]);
                        assert(ms.take(k).push(ms[k]) =~= ms.take(k + 1));
                        assert(ms.take(k + 1) =~= ms);
                        assert(vr =~= seq![0x7Du8] + rest);
                        assert(t@.len() - rest.len() == p2 + 1);
                        lemma_ser_at_bytes(t@, i as int, jv, rest);
                        assert(i + spec_ser(jv).len() + rest.len() == t@.len());
                    }
                }
                let ghost fin = members@;
                proof {
                    lemma_jv_members(fin);
                    assert forall|x: int| 0 <= x < jv_members(fin).len() implies wf(
                        (#[trigger] jv_members(fin)[x]).1,
                    ) by {
                        assert(jv_members(fin)[x] == (fin[x].0@, jv_of(fin[x].1)));
                        if x < members0.len() {
                            assert(fin[x] == members0[x]);
                        } else {
                            assert(fin[x] == (kbytes0, v));
                        }
                    }
                    lemma_wf_members_index(jv_members(fin));
                    assert(wf_members(jv_members(fin)));
                }
                return Some((JsonValue::Obj(members), p3 + 1));
            } else {
                proof {
                    assert forall|jv: Jv, rest: Seq<u8>|
                        #[trigger] ser_at(t@, i as int, jv, rest) implies false by {
                        let vr = obj_val_rest(jv->Obj_0, k, rest);
                        assert(t@.subrange(p2 as int, t@.len() as int) =~= vr);
                        assert(t@[p2 as int] == vr[0]);
                    }
                }
                return None;
            }
        }
}

/// What follows element `k` of an array whose closing bracket is followed by
/// `rest`.
pub open spec fn arr_elem_rest(elems: Seq<Jv>, k: int, rest: Seq<u8>) -> Seq<u8> {
    if k + 1 < elems.len() {
        seq![0x2Cu8] + spec_ser_list(elems.skip(k + 1)) + seq![0x5Du8] + rest
    } else {
        seq![0x5Du8] + rest
    }
}

/// What follows the key string of member `k` of an object.
pub open spec fn obj_key_rest(ms: Seq<(Seq<u8>, Jv)>, k: int, rest: Seq<u8>) -> Seq<u8> {
    seq![0x3Au8] + spec_ser(ms[k].1) + obj_val_rest(ms, k, rest)
}

/// What follows the value of member `k` of an object.
pub open spec fn obj_val_rest(ms: Seq<(Seq<u8>, Jv)>, k: int, rest: Seq<u8>) -> Seq<u8> {
    if k + 1 < ms.len() {
        seq![0x2Cu8] + spec_ser_members(ms.skip(k + 1)) + seq![0x7Du8] + rest
    } else {
        seq![0x7Du8] + rest
    }
}

/// Parses a whole JSON document: one value, surrounded by optional blanks.
///
/// The second clause is the serializer round trip: on `spec_ser(v)` of any
/// well-formed `v` — in particular on the output of [`crate::json::to_bytes`]
/// — the parser returns exactly `v`.
pub fn parse(text: &[u8]) -> (r: Option<JsonValue>)
    ensures
        r matches Some(v) ==> wf(v@),
        forall|jv: Jv| wf(jv) && text@ == spec_ser(jv) ==> match r {
            Some(v) => v@ == jv,
            None => false,
        },
{
    let n = text.len();
    let i = skip_ws(text, 0);
    proof {
        assert forall|jv: Jv| wf(jv) && text@ == spec_ser(jv) implies i == 0 && ser_at(
            text@,
            0,
            jv,
            Seq::<u8>::empty(),
        ) by {
            lemma_ser_first(jv);
            assert(!is_ws(text@[0]));
            assert(text@.subrange(0, text@.len() as int) =~= spec_ser(jv) + Seq::<u8>::empty());
        }
    }
    match parse_value(text, i) {
        None => {
            proof {
                assert forall|jv: Jv| wf(jv) && text@ == spec_ser(jv) implies false by {
                    assert(ser_at(text@, 0, jv, Seq::<u8>::empty()));
                }
            }
            None
        },
        Some((v, j)) => {
            let j2 = skip_ws(text, j);
            if j2 == n {
                proof {
                    assert forall|jv: Jv| wf(jv) && text@ == spec_ser(jv) implies v@ == jv by {
                        assert(ser_at(text@, 0, jv, Seq::<u8>::empty()));
                    }
                }
                Some(v)
            } else {
                proof {
                    assert forall|jv: Jv| wf(jv) && text@ == spec_ser(jv) implies false by {
                        assert(ser_at(text@, 0, jv, Seq::<u8>::empty()));
                        assert(j == spec_ser(jv).len());
                        assert(j2 == n);
                    }
                }
                None
            }
        },
    }
}


} // verus!
