//! The library's bridge to outside crates.
//!
//! Every function here is trusted: its body makes one outside computation
//! and Verus believes the stated contract without reading the body. Each
//! doc comment names the outside function relied on. Results that would take
//! pages to state exactly (a MAC, a tokenizer's count, a base64url decoding)
//! are given an uninterpreted name instead, claiming only that they are
//! functions of their arguments.

use base64::Engine;
use hmac::{Hmac, KeyInit, Mac};
use rand::distr::{Alphanumeric, SampleString};
use vstd::prelude::*;

verus! {

// ---------------------------------------------------------------------------
// Keyed hashing
// ---------------------------------------------------------------------------

/// The HMAC-SHA-256 tag of a message under a key: a function of the key and
/// message bytes alone.
pub uninterp spec fn hmac_sha256_of(key: Seq<u8>, msg: Seq<u8>) -> Seq<u8>;

/// Relies on hmac's `Hmac<Sha256>` (through digest's `KeyInit` and `Mac`):
/// keyed hashing with a 32-byte tag; keys of any length are accepted.
#[verifier::external_body]
pub(crate) fn hmac_sha256(key: &[u8], msg: &[u8]) -> (r: Vec<u8>)
    ensures
        r@ == hmac_sha256_of(key@, msg@),
        r@.len() == 32,
{
    let mut mac = <Hmac<sha2::Sha256> as KeyInit>::new_from_slice(key).expect(
        "HMAC accepts keys of any length",
    );
    mac.update(msg);
    mac.finalize().into_bytes().to_vec()
}

// ---------------------------------------------------------------------------
// Base64
// ---------------------------------------------------------------------------

/// What base64url (no padding) decoding yields, when the input is valid: a
/// function of the input bytes alone.
pub uninterp spec fn b64url_decoded(s: Seq<u8>) -> Option<Seq<u8>>;

/// Relies on base64's `URL_SAFE_NO_PAD` engine: decoding succeeds on valid
/// url-safe base64 without padding and is a function of the input alone.
#[verifier::external_body]
pub(crate) fn b64url_decode(s: &[u8]) -> (r: Option<Vec<u8>>)
    ensures
        match b64url_decoded(s@) {
            Some(sv) => r matches Some(v) && v@ == sv,
            None => r is None,
        },
{
    base64::engine::general_purpose::URL_SAFE_NO_PAD.decode(s).ok()
}

/// The standard base64 alphabet.
pub open spec fn b64_char(n: int) -> u8 {
    if n < 26 {
        (0x41 + n) as u8
    } else if n < 52 {
        (0x61 + (n - 26)) as u8
    } else if n < 62 {
        (0x30 + (n - 52)) as u8
    } else if n == 62 {
        0x2Bu8
    } else {
        0x2Fu8
    }
}

/// Standard base64 with `=` padding: three bytes become four alphabet
/// characters; a final group of one or two bytes is padded.
pub open spec fn base64_encoded(b: Seq<u8>) -> Seq<u8>
    decreases b.len(),
{
    if b.len() == 0 {
        Seq::empty()
    } else if b.len() == 1 {
        seq![b64_char(b[0] as int / 4), b64_char((b[0] as int % 4) * 16), 0x3Du8, 0x3Du8]
    } else if b.len() == 2 {
        seq![
            b64_char(b[0] as int / 4),
            b64_char((b[0] as int % 4) * 16 + b[1] as int / 16),
            b64_char((b[1] as int % 16) * 4),
            0x3Du8,
        ]
    } else {
        seq![
            b64_char(b[0] as int / 4),
            b64_char((b[0] as int % 4) * 16 + b[1] as int / 16),
            b64_char((b[1] as int % 16) * 4 + b[2] as int / 64),
            b64_char(b[2] as int % 64),
        ] + base64_encoded(b.skip(3))
    }
}

/// Relies on base64's `STANDARD` engine: classic base64 with padding, as
/// `base64_encoded` spells out.
#[verifier::external_body]
pub(crate) fn b64_encode(b: &[u8]) -> (r: Vec<u8>)
    ensures
        r@ == base64_encoded(b@),
{
    base64::engine::general_purpose::STANDARD.encode(b).into_bytes()
}

// ---------------------------------------------------------------------------
// Randomness
// ---------------------------------------------------------------------------

pub open spec fn is_alnum_char(c: char) -> bool {
    ('0' <= c && c <= '9') || ('a' <= c && c <= 'z') || ('A' <= c && c <= 'Z')
}

/// Relies on rand's `Alphanumeric` distribution with `SampleString`: sixteen
/// characters drawn from `A-Z`, `a-z` and `0-9`. The result is random, so
/// nothing more than its shape is claimed.
#[verifier::external_body]
pub(crate) fn ray_id_string() -> (r: String)
    ensures
        r@.len() == 16,
        forall|i: int| 0 <= i < r@.len() ==> is_alnum_char(#[trigger] r@[i]),
{
    Alphanumeric.sample_string(&mut rand::rng(), 16)
}

// ---------------------------------------------------------------------------
// UTF-8
// ---------------------------------------------------------------------------

/// Relies on `String::from_utf8`: it succeeds exactly on valid UTF-8 and
/// decodes it.
#[verifier::external_body]
pub(crate) fn utf8_string(b: &[u8]) -> (r: Option<String>)
    ensures
        match r {
            Some(s) => vstd::utf8::valid_utf8(b@) && s@ == vstd::utf8::decode_utf8(b@),
            None => !vstd::utf8::valid_utf8(b@),
        },
{
    String::from_utf8(b.to_vec()).ok()
}

// ---------------------------------------------------------------------------
// Token counting
// ---------------------------------------------------------------------------

/// The token count of a text under a model's byte-pair encoder, when the
/// model has one and the text is UTF-8: a function of model and text alone.
pub uninterp spec fn text_tokens(model: Seq<u8>, text: Seq<u8>) -> Option<usize>;

/// Relies on tiktoken's `get_tokenizer`, `get_bpe_from_tokenizer` and
/// `CoreBPE::encode_with_special_tokens`: the length of the text's encoding,
/// a function of model and text alone; there is no count when the model has
/// no tokenizer or the text is not UTF-8.
#[verifier::external_body]
pub(crate) fn text_token_count(model: &[u8], text: &[u8]) -> (r: Option<usize>)
    ensures
        r == text_tokens(model@, text@),
{
    let model = core::str::from_utf8(model).ok()?;
    let text = core::str::from_utf8(text).ok()?;
    let tokenizer = tiktoken_rs::tokenizer::get_tokenizer(model)?;
    let bpe = tiktoken_rs::get_bpe_from_tokenizer(tokenizer).ok()?;
    Some(bpe.encode_with_special_tokens(text).len())
}

/// One chat message handed to the token counter.
pub struct ChatMessage {
    pub role: Vec<u8>,
    pub content: Vec<u8>,
    pub name: Option<Vec<u8>>,
}

impl View for ChatMessage {
    type V = (Seq<u8>, Seq<u8>, Option<Seq<u8>>);

    open spec fn view(&self) -> (Seq<u8>, Seq<u8>, Option<Seq<u8>>) {
        (self.role@, self.content@, match self.name {
            Some(n) => Some(n@),
            None => None,
        })
    }
}

impl DeepView for ChatMessage {
    type V = (Seq<u8>, Seq<u8>, Option<Seq<u8>>);

    open spec fn deep_view(&self) -> (Seq<u8>, Seq<u8>, Option<Seq<u8>>) {
        self.view()
    }
}

/// The chat-message token formula of a model over a message list: a
/// function of model and messages alone.
pub uninterp spec fn message_tokens(
    model: Seq<u8>,
    msgs: Seq<(Seq<u8>, Seq<u8>, Option<Seq<u8>>)>,
) -> Option<usize>;

/// Relies on tiktoken's `num_tokens_from_messages`: the chat-message token
/// formula (per-message framing plus content tokens), a function of model
/// and messages alone; there is no count for models without a supported
/// chat tokenizer.
#[verifier::external_body]
pub(crate) fn chat_token_count(model: &[u8], msgs: &Vec<ChatMessage>) -> (r: Option<usize>)
    ensures
        r == message_tokens(model@, msgs.deep_view()),
{
    let model = core::str::from_utf8(model).ok()?;
    let converted: Vec<tiktoken_rs::ChatCompletionRequestMessage> = msgs.iter().map(
        |m| tiktoken_rs::ChatCompletionRequestMessage {
            role: String::from_utf8_lossy(&m.role).into_owned(),
            content: Some(String::from_utf8_lossy(&m.content).into_owned()),
            name: m.name.as_ref().map(|n| String::from_utf8_lossy(n).into_owned()),
            ..Default::default()
        },
    ).collect();
    tiktoken_rs::num_tokens_from_messages(model, &converted).ok()
}

} // verus!
