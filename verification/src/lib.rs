//! Codec for Artifact Deck Codes: a compact, URL-safe text token holding a
//! deck's heroes, cards and name.
//!
//! The binary layout is a bit-packed variable-length integer encoding with
//! delta compression over identifiers sorted ascending, a three-byte header
//! (version and hero count, checksum, name length) and a trailing name.
//! The token is the base64 form of that payload behind a literal `ADC`
//! prefix, with `/` and `=` replaced by URL-safe characters.
use vstd::prelude::*;

pub mod canon;
pub mod de;
pub mod format;
pub mod laws;
pub mod outside;
pub mod ser;

verus! {

/// A failure of either direction of the codec.
#[derive(Debug)]
pub enum Error {
    /// The token or its payload cannot be read back as a deck.
    Decode(&'static str),
    /// The deck cannot be turned into a token.
    Encode(&'static str),
}

/// Decode an Artifact Deck Code into a structured deck.
pub fn decode(adc: &str) -> (r: Result<de::DeserializedDeck, Error>)
    ensures
        r is Err ==> r->Err_0 is Decode,
        forall|bs: Seq<u8>|
            format::url_unsub(format::strip_prefix_adc(adc@)) == outside::b64_chars_of(bs)
                ==> de::decoded_deck_matches(r, bs),
{
    de::decode(adc)
}

/// Encode a structured deck as an Artifact Deck Code. Sorting both
/// entry lists by id happens in place as part of encoding.
pub fn encode(deck: &mut de::DeserializedDeck) -> (r: Result<String, Error>)
    ensures
        ser::deck_encodable(
            de::hero_pairs(old(deck).heroes@),
            de::card_pairs(old(deck).cards@),
        ) ==> (r matches Ok(t) && t@ == ser::deck_token(
            de::hero_pairs(old(deck).heroes@),
            de::card_pairs(old(deck).cards@),
            old(deck).name@,
        ) && de::hero_pairs(final (deck).heroes@) == crate::canon::sort_pairs_spec(
            de::hero_pairs(old(deck).heroes@),
        ) && de::card_pairs(final (deck).cards@) == crate::canon::sort_pairs_spec(
            de::card_pairs(old(deck).cards@),
        ) && final (deck).name == old(deck).name),
        !ser::deck_encodable(
            de::hero_pairs(old(deck).heroes@),
            de::card_pairs(old(deck).cards@),
        ) ==> (r is Err && r->Err_0 is Encode && *final (deck) == *old(deck)),
{
    ser::encode(deck)
}

} // verus!
