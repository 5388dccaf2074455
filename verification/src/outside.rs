//! Calls into outside crates, each behind a contract that Verus
//! believes without proof, together with the named results those
//! contracts speak of.
use vstd::prelude::*;

verus! {

/// The standard base64 text (with `+`, `/` and `=` padding) of a byte
/// sequence. Named rather than spelled out; the contracts below say
/// what the library relies on.
pub uninterp spec fn b64_chars_of(bytes: Seq<u8>) -> Seq<char>;

/// The UTF-8 bytes of a text after HTML sanitization with ammonia's
/// default settings: a pure function of the input text.
pub uninterp spec fn sanitized_bytes_of(name: Seq<char>) -> Seq<u8>;

/// Holds of every character base64 text can contain: the standard
/// alphabet and the padding character. In particular neither `-` nor
/// `_` occurs, so the URL-safe substitution can be undone exactly.
pub open spec fn is_b64_char(c: char) -> bool {
    ('A' <= c && c <= 'Z') || ('a' <= c && c <= 'z') || ('0' <= c && c <= '9') || c == '+' || c
        == '/' || c == '='
}

/// Relies on base64::encode (the STANDARD configuration): it returns
/// the standard base64 text of the input, over the standard alphabet
/// with `=` padding.
#[verifier::external_body]
pub(crate) fn b64_encode(bytes: &Vec<u8>) -> (r: String)
    ensures
        r@ == b64_chars_of(bytes@),
        forall|i: int| 0 <= i < r@.len() ==> is_b64_char(#[trigger] r@[i]),
{
    base64::encode(bytes)
}

/// What decoding base64 text promises: on the base64 text of any byte
/// sequence, exactly that sequence comes back.
pub open spec fn b64_decode_post(s: Seq<char>, r: Result<Vec<u8>, ()>) -> bool {
    forall|bs: Seq<u8>| s == b64_chars_of(bs) ==> (r matches Ok(v) && v@ == bs)
}

/// Relies on base64::decode (the STANDARD configuration): it inverts
/// base64::encode, so on the base64 text of any byte sequence it
/// returns exactly that sequence.
#[verifier::external_body]
pub(crate) fn b64_decode(s: &str) -> (r: Result<Vec<u8>, ()>)
    ensures
        b64_decode_post(s@, r),
{
    match base64::decode(s) {
        Ok(v) => Ok(v),
        Err(_) => Err(()),
    }
}

/// Relies on ammonia::clean: it sanitizes HTML with the default
/// settings, depending on nothing but the input text.
#[verifier::external_body]
pub(crate) fn sanitize_name(name: &str) -> (r: Vec<u8>)
    ensures
        r@ == sanitized_bytes_of(name@),
{
    ammonia::clean(name).into_bytes()
}

/// Relies on String::push: it appends one character.
#[verifier::external_body]
pub(crate) fn push_char(s: &mut String, c: char)
    ensures
        final(s)@ == old(s)@.push(c),
{
    s.push(c);
}

} // verus!
