//! A small JSON document model with a verified serializer and parser.
//!
//! The gateway inspects request and response bodies (the `model` field, the
//! `stream` flag, chat messages, usage objects) and re-emits captured bodies
//! as canonical JSON. Values are modelled over raw UTF-8 bytes; strings are
//! kept as their decoded byte content, integers as `i64`, and any other
//! numeric lexeme verbatim.

use vstd::prelude::*;

pub mod parse;

verus! {

/// A parsed JSON value.
///
/// `Int` holds every integer lexeme that fits in `i64`; `NumRaw` keeps any
/// other numeric lexeme (fractions, exponents, out-of-range integers)
/// verbatim, so that serializing writes the original text back. `Str` holds
/// the string content with escapes resolved, as UTF-8 bytes. Objects keep
/// their members in document order.
#[derive(Debug)]
pub enum JsonValue {
    Null,
    Bool(bool),
    Int(i64),
    NumRaw(Vec<u8>),
    Str(Vec<u8>),
    Arr(Vec<JsonValue>),
    Obj(Vec<(Vec<u8>, JsonValue)>),
}

/// The mathematical shape of a JSON value: what `JsonValue` abstracts to.
pub enum Jv {
    Null,
    Bool(bool),
    Int(int),
    NumRaw(Seq<u8>),
    Str(Seq<u8>),
    Arr(Seq<Jv>),
    Obj(Seq<(Seq<u8>, Jv)>),
}

pub open spec fn jv_of(v: JsonValue) -> Jv
    decreases v,
{
    match v {
        JsonValue::Null => Jv::Null,
        JsonValue::Bool(b) => Jv::Bool(b),
        JsonValue::Int(n) => Jv::Int(n as int),
        JsonValue::NumRaw(r) => Jv::NumRaw(r@),
        JsonValue::Str(s) => Jv::Str(s@),
        JsonValue::Arr(a) => Jv::Arr(jv_list(a@)),
        JsonValue::Obj(m) => Jv::Obj(jv_members(m@)),
    }
}

pub open spec fn jv_list(a: Seq<JsonValue>) -> Seq<Jv>
    decreases a,
{
    if a.len() == 0 {
        Seq::empty()
    } else {
        seq![jv_of(a[0])] + jv_list(a.drop_first())
    }
}

pub open spec fn jv_members(m: Seq<(Vec<u8>, JsonValue)>) -> Seq<(Seq<u8>, Jv)>
    decreases m,
{
    if m.len() == 0 {
        Seq::empty()
    } else {
        seq![(m[0].0@, jv_of(m[0].1))] + jv_members(m.drop_first())
    }
}

impl View for JsonValue {
    type V = Jv;

    open spec fn view(&self) -> Jv {
        jv_of(*self)
    }
}

impl DeepView for JsonValue {
    type V = Jv;

    open spec fn deep_view(&self) -> Jv {
        jv_of(*self)
    }
}

pub proof fn lemma_jv_list(a: Seq<JsonValue>)
    ensures
        jv_list(a).len() == a.len(),
        forall|i: int| 0 <= i < a.len() ==> jv_list(a)[i] == jv_of(#[trigger] a[i]),
    decreases a,
{
    if a.len() > 0 {
        lemma_jv_list(a.drop_first());
        assert forall|i: int| 0 <= i < a.len() implies jv_list(a)[i] == jv_of(#[trigger] a[i]) by {
            if i > 0 {
                assert(a.drop_first()[i - 1] == a[i]);
            }
        }
    }
}

pub proof fn lemma_jv_members(m: Seq<(Vec<u8>, JsonValue)>)
    ensures
        jv_members(m).len() == m.len(),
        forall|i: int|
            0 <= i < m.len() ==> jv_members(m)[i] == ((#[trigger] m[i]).0@, jv_of(m[i].1)),
    decreases m,
{
    if m.len() > 0 {
        lemma_jv_members(m.drop_first());
        assert forall|i: int|
            0 <= i < m.len() implies jv_members(m)[i] == ((#[trigger] m[i]).0@, jv_of(m[i].1)) by {
            if i > 0 {
                assert(m.drop_first()[i - 1] == m[i]);
            }
        }
    }
}

// ---------------------------------------------------------------------------
// Number lexemes
// ---------------------------------------------------------------------------

pub open spec fn is_digit(b: u8) -> bool {
    0x30 <= b <= 0x39
}

/// Position of the first non-digit at or after `i`.
pub open spec fn digits_end(s: Seq<u8>, i: int) -> int
    decreases s.len() - i,
{
    if 0 <= i < s.len() && is_digit(s[i]) {
        digits_end(s, i + 1)
    } else {
        i
    }
}

/// End of the integer part (`0` or a nonzero digit followed by digits)
/// starting at `i`, if the bytes there begin one.
pub open spec fn int_part_end(s: Seq<u8>, i: int) -> Option<int> {
    if 0 <= i < s.len() && s[i] == 0x30 {
        Some(i + 1)
    } else if 0 <= i < s.len() && 0x31 <= s[i] <= 0x39 {
        Some(digits_end(s, i + 1))
    } else {
        None
    }
}

/// End of the fraction part starting at `i` (empty if none begins there).
pub open spec fn frac_part_end(s: Seq<u8>, i: int) -> Option<int> {
    if 0 <= i < s.len() && s[i] == 0x2E {
        if i + 1 < s.len() && is_digit(s[i + 1]) {
            Some(digits_end(s, i + 1))
        } else {
            None
        }
    } else {
        Some(i)
    }
}

/// End of the exponent part starting at `i` (empty if none begins there).
pub open spec fn exp_part_end(s: Seq<u8>, i: int) -> Option<int> {
    if 0 <= i < s.len() && (s[i] == 0x65 || s[i] == 0x45) {
        let j = if i + 1 < s.len() && (s[i + 1] == 0x2B || s[i + 1] == 0x2D) {
            i + 2
        } else {
            i + 1
        };
        if j < s.len() && is_digit(s[j]) {
            Some(digits_end(s, j))
        } else {
            None
        }
    } else {
        Some(i)
    }
}

/// End of a full JSON number lexeme starting at `i`, if one begins there.
pub open spec fn num_end(s: Seq<u8>, i: int) -> Option<int> {
    let j = if 0 <= i < s.len() && s[i] == 0x2D {
        i + 1
    } else {
        i
    };
    match int_part_end(s, j) {
        None => None,
        Some(k) => match frac_part_end(s, k) {
            None => None,
            Some(l) => exp_part_end(s, l),
        },
    }
}

/// `s` is exactly one JSON number lexeme.
pub open spec fn is_num_lexeme(s: Seq<u8>) -> bool {
    num_end(s, 0) == Some(s.len() as int)
}

/// `s` is a pure integer lexeme: optional minus, then only digits.
pub open spec fn is_int_lexeme(s: Seq<u8>) -> bool {
    &&& is_num_lexeme(s)
    &&& forall|k: int| 0 <= k < s.len() ==> is_digit(#[trigger] s[k]) || (k == 0 && s[k] == 0x2D)
}

/// Value of a digit string, most significant first.
pub open spec fn dec_val(s: Seq<u8>) -> int
    decreases s.len(),
{
    if s.len() == 0 {
        0
    } else {
        dec_val(s.drop_last()) * 10 + (s.last() - 0x30)
    }
}

/// Signed value of a pure integer lexeme.
pub open spec fn int_lexeme_val(s: Seq<u8>) -> int {
    if s.len() > 0 && s[0] == 0x2D {
        -dec_val(s.skip(1))
    } else {
        dec_val(s)
    }
}

// ---------------------------------------------------------------------------
// Well-formedness
// ---------------------------------------------------------------------------

/// A value the serializer and parser round-trip exactly.
///
/// The constraints: integers fit `i64`, and a `NumRaw` lexeme must really be
/// a JSON number that the parser would not turn into `Int` — it has a
/// fraction or exponent, or is an integer outside the `i64` range.
pub open spec fn wf(v: Jv) -> bool
    decreases v,
{
    match v {
        Jv::Null => true,
        Jv::Bool(_) => true,
        Jv::Int(n) => i64::MIN <= n <= i64::MAX,
        Jv::NumRaw(r) => {
            &&& is_num_lexeme(r)
            &&& r.len() > 0
            &&& (!is_int_lexeme(r) || int_lexeme_val(r) < i64::MIN || int_lexeme_val(r) > i64::MAX)
        },
        Jv::Str(_) => true,
        Jv::Arr(a) => wf_list(a),
        Jv::Obj(m) => wf_members(m),
    }
}

pub open spec fn wf_list(a: Seq<Jv>) -> bool
    decreases a,
{
    if a.len() == 0 {
        true
    } else {
        wf(a[0]) && wf_list(a.drop_first())
    }
}

pub open spec fn wf_members(m: Seq<(Seq<u8>, Jv)>) -> bool
    decreases m,
{
    if m.len() == 0 {
        true
    } else {
        wf(m[0].1) && wf_members(m.drop_first())
    }
}

pub proof fn lemma_wf_list_index(a: Seq<Jv>)
    ensures
        wf_list(a) <==> (forall|i: int| 0 <= i < a.len() ==> wf(#[trigger] a[i])),
    decreases a,
{
    if a.len() > 0 {
        lemma_wf_list_index(a.drop_first());
        assert(forall|i: int| 1 <= i < a.len() ==> #[trigger] a[i] == a.drop_first()[i - 1]);
    }
}

pub proof fn lemma_wf_members_index(m: Seq<(Seq<u8>, Jv)>)
    ensures
        wf_members(m) <==> (forall|i: int| 0 <= i < m.len() ==> wf((#[trigger] m[i]).1)),
    decreases m,
{
    if m.len() > 0 {
        lemma_wf_members_index(m.drop_first());
        assert(forall|i: int| 1 <= i < m.len() ==> #[trigger] m[i] == m.drop_first()[i - 1]);
    }
}

// ---------------------------------------------------------------------------
// Serialization, specification level
// ---------------------------------------------------------------------------

/// Lowercase hex digit for `n < 16`.
pub open spec fn hex_digit(n: u8) -> u8 {
    if n < 10 {
        (0x30 + n) as u8
    } else {
        (0x61 + (n - 10)) as u8
    }
}

/// How one string byte is written: `"` and `\` get a backslash escape,
/// control bytes become `\u00XX`, everything else is written verbatim.
pub open spec fn esc_byte(b: u8) -> Seq<u8> {
    if b == 0x22 {
        seq![0x5Cu8, 0x22u8]
    } else if b == 0x5C {
        seq![0x5Cu8, 0x5Cu8]
    } else if b < 0x20 {
        seq![0x5Cu8, 0x75u8, 0x30u8, 0x30u8, hex_digit(b / 16), hex_digit(b % 16)]
    } else {
        seq![b]
    }
}

pub open spec fn esc_bytes(s: Seq<u8>) -> Seq<u8>
    decreases s.len(),
{
    if s.len() == 0 {
        Seq::empty()
    } else {
        esc_byte(s[0]) + esc_bytes(s.drop_first())
    }
}

/// Decimal digits of `n >= 0`, most significant first; empty for 0.
pub open spec fn dec_digits(n: int) -> Seq<u8>
    decreases n,
{
    if n <= 0 {
        Seq::empty()
    } else {
        dec_digits(n / 10).push((0x30 + n % 10) as u8)
    }
}

/// The canonical decimal spelling of an integer.
pub open spec fn int_bytes(n: int) -> Seq<u8> {
    if n == 0 {
        seq![0x30u8]
    } else if n < 0 {
        seq![0x2Du8] + dec_digits(-n)
    } else {
        dec_digits(n)
    }
}

/// The serialized bytes of a value: minimal JSON with no whitespace.
pub open spec fn spec_ser(v: Jv) -> Seq<u8>
    decreases v,
{
    match v {
        Jv::Null => seq![0x6Eu8, 0x75u8, 0x6Cu8, 0x6Cu8],
        Jv::Bool(b) => if b {
            seq![0x74u8, 0x72u8, 0x75u8, 0x65u8]
        } else {
            seq![0x66u8, 0x61u8, 0x6Cu8, 0x73u8, 0x65u8]
        },
        Jv::Int(n) => int_bytes(n),
        Jv::NumRaw(r) => r,
        Jv::Str(s) => seq![0x22u8] + esc_bytes(s) + seq![0x22u8],
        Jv::Arr(a) => seq![0x5Bu8] + spec_ser_list(a) + seq![0x5Du8],
        Jv::Obj(m) => seq![0x7Bu8] + spec_ser_members(m) + seq![0x7Du8],
    }
}

pub open spec fn spec_ser_list(a: Seq<Jv>) -> Seq<u8>
    decreases a,
{
    if a.len() == 0 {
        Seq::empty()
    } else if a.len() == 1 {
        spec_ser(a[0])
    } else {
        spec_ser(a[0]) + seq![0x2Cu8] + spec_ser_list(a.drop_first())
    }
}

pub open spec fn spec_ser_member(m: (Seq<u8>, Jv)) -> Seq<u8>
    decreases m,
{
    seq![0x22u8] + esc_bytes(m.0) + seq![0x22u8, 0x3Au8] + spec_ser(m.1)
}

pub open spec fn spec_ser_members(m: Seq<(Seq<u8>, Jv)>) -> Seq<u8>
    decreases m,
{
    if m.len() == 0 {
        Seq::empty()
    } else if m.len() == 1 {
        spec_ser_member(m[0])
    } else {
        spec_ser_member(m[0]) + seq![0x2Cu8] + spec_ser_members(m.drop_first())
    }
}

// ---------------------------------------------------------------------------
// Serialization, executable
// ---------------------------------------------------------------------------

proof fn lemma_reverse_push(s: Seq<u8>, x: u8)
    ensures
        s.push(x).reverse() =~= seq![x] + s.reverse(),
{
}

/// Appends the canonical decimal spelling of `n`.
fn write_int(n: i64, out: &mut Vec<u8>)
    ensures
        final(out)@ == old(out)@ + int_bytes(n as int),
{
    if n == 0 {
        out.push(0x30);
        assert(out@ =~= old(out)@ + int_bytes(0));
        return ;
    }
    let ghost base = out@;
    let mut mag: u64 = if n >= 0 {
        n as u64
    } else {
        out.push(0x2D);
        ((-(n + 1)) as u64) + 1
    };
    let ghost mid = out@;
    let ghost orig = mag as int;
    let mut rev: Vec<u8> = Vec::new();
    while mag > 0
        invariant
            dec_digits(orig) =~= dec_digits(mag as int) + rev@.reverse(),
        decreases mag,
    {
        let d = (mag % 10) as u8;
        proof {
            lemma_reverse_push(rev@, (0x30 + d) as u8);
        }
        rev.push(0x30 + d);
        mag = mag / 10;
    }
    let mut j: usize = rev.len();
    while j > 0
        invariant
            j <= rev@.len(),
            dec_digits(orig) =~= rev@.reverse(),
            out@ == mid + rev@.reverse().take((rev@.len() - j) as int),
        decreases j,
    {
        j = j - 1;
        out.push(rev[j]);
        proof {
            assert(rev@.reverse()[(rev@.len() - j - 1) as int] == rev@[j as int]);
            assert(out@ =~= mid + rev@.reverse().take((rev@.len() - j) as int));
        }
    }
    proof {
        assert(out@ =~= mid + dec_digits(orig));
        if n > 0 {
            assert(out@ =~= base + int_bytes(n as int));
        } else {
            assert(mid =~= base + seq![0x2Du8]);
            assert(orig == -(n as int));
            assert(out@ =~= base + int_bytes(n as int));
        }
    }
}

/// Appends one string byte in its escaped form.
fn write_escaped_byte(b: u8, out: &mut Vec<u8>)
    ensures
        final(out)@ == old(out)@ + esc_byte(b),
{
    if b == 0x22 {
        out.push(0x5C);
        out.push(0x22);
    } else if b == 0x5C {
        out.push(0x5C);
        out.push(0x5C);
    } else if b < 0x20 {
        out.push(0x5C);
        out.push(0x75);
        out.push(0x30);
        out.push(0x30);
        let hi = b / 16;
        let lo = b % 16;
        out.push(if hi < 10 {
            0x30 + hi
        } else {
            0x61 + (hi - 10)
        });
        out.push(if lo < 10 {
            0x30 + lo
        } else {
            0x61 + (lo - 10)
        });
    } else {
        out.push(b);
    }
    assert(out@ =~= old(out)@ + esc_byte(b));
}

pub proof fn lemma_esc_bytes_take(s: Seq<u8>, k: int)
    requires
        0 <= k < s.len(),
    ensures
        esc_bytes(s.take(k + 1)) =~= esc_bytes(s.take(k)) + esc_byte(s[k]),
    decreases k,
{
    if k == 0 {
        assert(s.take(1).drop_first() =~= Seq::<u8>::empty());
        assert(s.take(0) =~= Seq::<u8>::empty());
    } else {
        assert(s.take(k + 1)[0] == s[0]);
        assert(s.take(k + 1).drop_first() =~= s.drop_first().take(k));
        assert(s.take(k)[0] == s[0]);
        assert(s.take(k).drop_first() =~= s.drop_first().take(k - 1));
        lemma_esc_bytes_take(s.drop_first(), k - 1);
        assert(s.drop_first()[k - 1] == s[k]);
    }
}

/// Appends a whole string literal, quotes included.
fn write_string(s: &Vec<u8>, out: &mut Vec<u8>)
    ensures
        final(out)@ == old(out)@ + seq![0x22u8] + esc_bytes(s@) + seq![0x22u8],
{
    out.push(0x22);
    let ghost mid = out@;
    let mut k: usize = 0;
    while k < s.len()
        invariant
            k <= s@.len(),
            out@ == mid + esc_bytes(s@.take(k as int)),
        decreases s@.len() - k,
    {
        proof {
            lemma_esc_bytes_take(s@, k as int);
        }
        write_escaped_byte(s[k], out);
        k = k + 1;
    }
    assert(s@.take(s@.len() as int) =~= s@);
    out.push(0x22);
    assert(out@ =~= old(out)@ + seq![0x22u8] + esc_bytes(s@) + seq![0x22u8]);
}

proof fn lemma_ser_list_take(a: Seq<Jv>, k: int)
    requires
        0 < k < a.len(),
    ensures
        spec_ser_list(a.take(k + 1)) =~= spec_ser_list(a.take(k)) + seq![0x2Cu8] + spec_ser(a[k]),
    decreases k,
{
    if k == 1 {
        assert(a.take(2).drop_first() =~= seq![a[1]]);
        assert(a.take(2)[0] == a[0]);
        assert(a.take(1) =~= seq![a[0]]);
        assert(spec_ser_list(seq![a[1]]) == spec_ser(a[1]));
        assert(spec_ser_list(a.take(2)) =~= spec_ser(a[0]) + seq![0x2Cu8] + spec_ser(a[1]));
    } else {
        assert(a.take(k + 1)[0] == a[0]);
        assert(a.take(k + 1).drop_first() =~= a.drop_first().take(k));
        assert(a.take(k)[0] == a[0]);
        assert(a.take(k).drop_first() =~= a.drop_first().take(k - 1));
        lemma_ser_list_take(a.drop_first(), k - 1);
        assert(a.drop_first()[k - 1] == a[k]);
        assert(spec_ser_list(a.take(k + 1)) =~= spec_ser(a[0]) + seq![0x2Cu8] + spec_ser_list(
            a.drop_first().take(k),
        ));
        assert(spec_ser_list(a.take(k)) =~= spec_ser(a[0]) + seq![0x2Cu8] + spec_ser_list(
            a.drop_first().take(k - 1),
        ));
    }
}

proof fn lemma_ser_members_take(m: Seq<(Seq<u8>, Jv)>, k: int)
    requires
        0 < k < m.len(),
    ensures
        spec_ser_members(m.take(k + 1)) =~= spec_ser_members(m.take(k)) + seq![0x2Cu8]
            + spec_ser_member(m[k]),
    decreases k,
{
    if k == 1 {
        assert(m.take(2).drop_first() =~= seq![m[1]]);
        assert(m.take(2)[0] == m[0]);
        assert(m.take(1) =~= seq![m[0]]);
        assert(spec_ser_members(seq![m[1]]) == spec_ser_member(m[1]));
        assert(spec_ser_members(m.take(2)) =~= spec_ser_member(m[0]) + seq![0x2Cu8]
            + spec_ser_member(m[1]));
    } else {
        assert(m.take(k + 1)[0] == m[0]);
        assert(m.take(k + 1).drop_first() =~= m.drop_first().take(k));
        assert(m.take(k)[0] == m[0]);
        assert(m.take(k).drop_first() =~= m.drop_first().take(k - 1));
        lemma_ser_members_take(m.drop_first(), k - 1);
        assert(m.drop_first()[k - 1] == m[k]);
        assert(spec_ser_members(m.take(k + 1)) =~= spec_ser_member(m[0]) + seq![0x2Cu8]
            + spec_ser_members(m.drop_first().take(k)));
        assert(spec_ser_members(m.take(k)) =~= spec_ser_member(m[0]) + seq![0x2Cu8]
            + spec_ser_members(m.drop_first().take(k - 1)));
    }
}

fn to_bytes_into(v: &JsonValue, out: &mut Vec<u8>)
    ensures
        final(out)@ == old(out)@ + spec_ser(v@),
    decreases *v,
{
    match v {
        JsonValue::Null => {
            out.push(0x6E);
            out.push(0x75);
            out.push(0x6C);
            out.push(0x6C);
            assert(out@ =~= old(out)@ + spec_ser(v@));
        },
        JsonValue::Bool(b) => {
            if *b {
                out.push(0x74);
                out.push(0x72);
                out.push(0x75);
                out.push(0x65);
            } else {
                out.push(0x66);
                out.push(0x61);
                out.push(0x6C);
                out.push(0x73);
                out.push(0x65);
            }
            assert(out@ =~= old(out)@ + spec_ser(v@));
        },
        JsonValue::Int(n) => {
            write_int(*n, out);
        },
        JsonValue::NumRaw(r) => {
            let mut k: usize = 0;
            while k < r.len()
                invariant
                    k <= r@.len(),
                    out@ == old(out)@ + r@.take(k as int),
                decreases r@.len() - k,
            {
                out.push(r[k]);
                k = k + 1;
                assert(out@ =~= old(out)@ + r@.take(k as int));
            }
            assert(r@.take(r@.len() as int) =~= r@);
            assert(out@ =~= old(out)@ + spec_ser(v@));
        },
        JsonValue::Str(s) => {
            write_string(s, out);
            assert(out@ =~= old(out)@ + spec_ser(v@));
        },
        JsonValue::Arr(a) => {
            out.push(0x5B);
            let ghost mid = out@;
            let ghost ga = jv_list(a@);
            proof {
                lemma_jv_list(a@);
            }
            let mut k: usize = 0;
            while k < a.len()
                invariant
                    k <= a@.len(),
                    *v == JsonValue::Arr(*a),
                    ga == jv_list(a@),
                    ga.len() == a@.len(),
                    forall|i: int| 0 <= i < a@.len() ==> ga[i] == jv_of(#[trigger] a@[i]),
                    out@ == mid + spec_ser_list(ga.take(k as int)),
                decreases a@.len() - k,
            {
                proof {
                    assert(decreases_to!(*v => v->Arr_0));
                    assert(v->Arr_0 == *a);
                    assert(decreases_to!(*a => a@));
                    assert(decreases_to!(a@ => a@[k as int]));
                }
                if k > 0 {
                    out.push(0x2C);
                    to_bytes_into(&a[k], out);
                    proof {
                        lemma_ser_list_take(ga, k as int);
                    }
                } else {
                    to_bytes_into(&a[k], out);
                    proof {
                        assert(ga.take(1) =~= seq![ga[0]]);
                        assert(spec_ser_list(ga.take(1)) == spec_ser(ga[0]));
                    }
                }
                k = k + 1;
                assert(out@ =~= mid + spec_ser_list(ga.take(k as int)));
            }
            assert(ga.take(ga.len() as int) =~= ga);
            out.push(0x5D);
            assert(out@ =~= old(out)@ + spec_ser(v@));
        },
        JsonValue::Obj(m) => {
            out.push(0x7B);
            let ghost mid = out@;
            let ghost gm = jv_members(m@);
            proof {
                lemma_jv_members(m@);
            }
            let mut k: usize = 0;
            while k < m.len()
                invariant
                    k <= m@.len(),
                    *v == JsonValue::Obj(*m),
                    gm == jv_members(m@),
                    gm.len() == m@.len(),
                    forall|i: int|
                        0 <= i < m@.len() ==> gm[i] == ((#[trigger] m@[i]).0@, jv_of(m@[i].1)),
                    out@ == mid + spec_ser_members(gm.take(k as int)),
                decreases m@.len() - k,
            {
                proof {
                    assert(decreases_to!(*v => v->Obj_0));
                    assert(v->Obj_0 == *m);
                    assert(decreases_to!(*m => m@));
                    assert(decreases_to!(m@ => m@[k as int]));
                    assert(decreases_to!(m@[k as int] => m@[k as int].1));
                }
                if k > 0 {
                    out.push(0x2C);
                }
                write_string(&m[k].0, out);
                out.push(0x3A);
                to_bytes_into(&m[k].1, out);
                proof {
                    if k > 0 {
                        lemma_ser_members_take(gm, k as int);
                    } else {
                        assert(gm.take(1) =~= seq![gm[0]]);
                        assert(spec_ser_members(gm.take(1)) == spec_ser_member(gm[0]));
                    }
                }
                k = k + 1;
                assert(out@ =~= mid + spec_ser_members(gm.take(k as int)));
            }
            assert(gm.take(gm.len() as int) =~= gm);
            out.push(0x7D);
            assert(out@ =~= old(out)@ + spec_ser(v@));
        },
    }
}

/// Serializes a value as minimal JSON bytes.
pub fn to_bytes(v: &JsonValue) -> (r: Vec<u8>)
    ensures
        r@ == spec_ser(v@),
{
    let mut out: Vec<u8> = Vec::new();
    to_bytes_into(v, &mut out);
    out
}

// ---------------------------------------------------------------------------
// Accessors
// ---------------------------------------------------------------------------

/// The value of `key` in an object, taking the last occurrence, as JSON
/// processors that build a map do.
pub open spec fn spec_obj_get(v: Jv, key: Seq<u8>) -> Option<Jv> {
    match v {
        Jv::Obj(m) => spec_members_get(m, key),
        _ => None,
    }
}

pub open spec fn spec_members_get(m: Seq<(Seq<u8>, Jv)>, key: Seq<u8>) -> Option<Jv>
    decreases m.len(),
{
    if m.len() == 0 {
        None
    } else if m.last().0 == key {
        Some(m.last().1)
    } else {
        spec_members_get(m.drop_last(), key)
    }
}

impl JsonValue {
    /// Looks a key up in an object; `None` on any other kind of value.
    pub fn get<'a>(&'a self, key: &[u8]) -> (r: Option<&'a JsonValue>)
        ensures
            match r {
                Some(x) => spec_obj_get(self@, key@) == Some(x@),
                None => spec_obj_get(self@, key@) is None,
            },
    {
        match self {
            JsonValue::Obj(m) => {
                let ghost gm = jv_members(m@);
                proof {
                    lemma_jv_members(m@);
                    assert(gm.take(gm.len() as int) =~= gm);
                }
                let mut j: usize = m.len();
                while j > 0
                    invariant
                        j <= m@.len(),
                        *self == JsonValue::Obj(*m),
                        gm == jv_members(m@),
                        gm.len() == m@.len(),
                        forall|i: int|
                            0 <= i < m@.len() ==> gm[i] == ((#[trigger] m@[i]).0@, jv_of(m@[i].1)),
                        spec_members_get(gm, key@) == spec_members_get(gm.take(j as int), key@),
                    decreases j,
                {
                    proof {
                        assert(gm.take(j as int).len() == j as int);
                        assert(gm.take(j as int).last() == gm[j - 1]);
                        assert(gm.take(j as int).drop_last() =~= gm.take(j - 1));
                    }
                    if bytes_eq(m[j - 1].0.as_slice(), key) {
                        assert(spec_members_get(gm.take(j as int), key@) == Some(gm[j - 1].1));
                        return Some(&m[j - 1].1);
                    }
                    j = j - 1;
                }
                assert(gm.take(0) =~= Seq::<(Seq<u8>, Jv)>::empty());
                None
            },
            _ => None,
        }
    }

    /// The string content, when the value is a string.
    pub fn as_str_bytes<'a>(&'a self) -> (r: Option<&'a Vec<u8>>)
        ensures
            match r {
                Some(s) => self@ == Jv::Str(s@),
                None => !(self@ is Str),
            },
    {
        match self {
            JsonValue::Str(s) => Some(s),
            _ => None,
        }
    }

    /// The boolean, when the value is one.
    pub fn as_bool(&self) -> (r: Option<bool>)
        ensures
            match r {
                Some(b) => self@ == Jv::Bool(b),
                None => !(self@ is Bool),
            },
    {
        match self {
            JsonValue::Bool(b) => Some(*b),
            _ => None,
        }
    }

    /// The integer, when the value is an integer that fits `i64`.
    pub fn as_int(&self) -> (r: Option<i64>)
        ensures
            match r {
                Some(n) => self@ == Jv::Int(n as int),
                None => !(self@ is Int),
            },
    {
        match self {
            JsonValue::Int(n) => Some(*n),
            _ => None,
        }
    }
}

/// Copies `t[a..b]` into a fresh vector.
pub fn copy_range(t: &[u8], a: usize, b: usize) -> (r: Vec<u8>)
    requires
        a <= b <= t@.len(),
    ensures
        r@ == t@.subrange(a as int, b as int),
{
    let mut out: Vec<u8> = Vec::new();
    let mut p = a;
    while p < b
        invariant
            a <= p <= b <= t@.len(),
            out@ == t@.subrange(a as int, p as int),
        decreases b - p,
    {
        out.push(t[p]);
        p = p + 1;
        assert(out@ =~= t@.subrange(a as int, p as int));
    }
    out
}

/// Byte-slice equality.
pub fn bytes_eq(a: &[u8], b: &[u8]) -> (r: bool)
    ensures
        r == (a@ == b@),
{
    if a.len() != b.len() {
        assert(a@.len() != b@.len());
        return false;
    }
    let mut k: usize = 0;
    while k < a.len()
        invariant
            k <= a@.len(),
            a@.len() == b@.len(),
            forall|i: int| 0 <= i < k ==> a@[i] == b@[i],
        decreases a@.len() - k,
    {
        if a[k] != b[k] {
            return false;
        }
        k = k + 1;
    }
    proof {
        assert(a@ =~= b@);
    }
    true
}

} // verus!
