//! The wire format, as mathematical functions.
//!
//! Everything here is specification: the byte layout of an encoded deck
//! (`payload_bytes`) and the reading of such bytes back into entries
//! (`parse_payload`), over plain sequences. The executable encoder and
//! decoder are verified against these functions, and the round-trip laws
//! relate the two directions.
//!
//! An entry is an `(id, count)` pair of 32-bit values; for a hero the
//! count slot carries the turn. Identifiers are delta-compressed against
//! the previous id, so entry sequences are sorted ascending by id before
//! encoding.
use vstd::prelude::*;
use crate::outside::b64_chars_of;
use crate::outside::sanitized_bytes_of;

verus! {

/// Layout version written by the encoder. Versions above 1 carry a
/// name-length byte in the header; version 1 does not.
pub const CURRENT_VERSION: u8 = 2;

/// Bytes of the fixed header for versions above 1: version and hero
/// count, checksum, name length.
pub const HEADER_SIZE: usize = 3;

/// Hard cap, in bytes, on the name stored in a token.
pub const MAX_NAME_BYTES: usize = 63;

// ---------------------------------------------------------------------
// Variable-length integers, encoding side
// ---------------------------------------------------------------------
/// One continuation byte: the low seven bits of `v`, with the top bit
/// set when more bytes follow.
pub open spec fn chunk_byte(v: u32) -> u8 {
    if v >= 128 {
        (v % 128 + 128) as u8
    } else {
        (v % 128) as u8
    }
}

/// The continuation bytes of `v`: seven value bits per byte, least
/// significant first, the top bit of each byte flagging a successor.
/// Zero needs no bytes at all.
pub open spec fn chunks(v: u32) -> Seq<u8>
    decreases v,
{
    if v == 0 {
        Seq::empty()
    } else {
        seq![chunk_byte(v)] + chunks((v / 128) as u32)
    }
}

/// The low three bits of `v` as stored inline in a header byte, with a
/// carry flag at bit three when `v` does not fit in three bits.
pub open spec fn inline3(v: u32) -> u8 {
    if v >= 8 {
        (v % 8 + 8) as u8
    } else {
        (v % 8) as u8
    }
}

/// The low five bits of `v` as stored inline in a header byte, with a
/// carry flag at bit five when `v` does not fit in five bits.
pub open spec fn inline5(v: u32) -> u8 {
    if v >= 32 {
        (v % 32 + 32) as u8
    } else {
        (v % 32) as u8
    }
}

/// Continuation bytes that follow three inline bits.
pub open spec fn tail3(v: u32) -> Seq<u8> {
    chunks((v / 8) as u32)
}

/// Continuation bytes that follow five inline bits.
pub open spec fn tail5(v: u32) -> Seq<u8> {
    chunks((v / 32) as u32)
}

// ---------------------------------------------------------------------
// Entries, encoding side
// ---------------------------------------------------------------------
/// The two-bit code stored in the top of an entry's header byte: counts
/// one to three inline, biased by one; three flags an extended count.
pub open spec fn count_code(count: u32) -> u8 {
    if count >= 4 {
        3
    } else {
        (count - 1) as u8
    }
}

/// One encoded entry: a header byte holding the count code and the low
/// five bits of the id delta, the delta's continuation bytes, and, for
/// counts of four or more, the full count as a standalone integer.
pub open spec fn entry_bytes(count: u32, delta: u32) -> Seq<u8> {
    seq![(count_code(count) * 64 + inline5(delta)) as u8] + tail5(delta) + if count >= 4 {
        chunks(count)
    } else {
        Seq::empty()
    }
}

/// A run of entries, each id encoded as its distance from the one
/// before; `prev` is the running base, zero at the start of a section.
pub open spec fn entries_bytes(entries: Seq<(u32, u32)>, prev: u32) -> Seq<u8>
    decreases entries.len(),
{
    if entries.len() == 0 {
        Seq::empty()
    } else {
        entry_bytes(entries[0].1, (entries[0].0 - prev) as u32) + entries_bytes(
            entries.drop_first(),
            entries[0].0,
        )
    }
}

/// Entries are encodable when their ids ascend (so deltas are never
/// negative) and every count is at least one (a zero count has no code).
pub open spec fn sorted_by_id(entries: Seq<(u32, u32)>) -> bool {
    forall|i: int, j: int| 0 <= i < j < entries.len() ==> entries[i].0 <= entries[j].0
}

/// Every count (for heroes: turn) in the run is at least one.
pub open spec fn counts_positive(entries: Seq<(u32, u32)>) -> bool {
    forall|i: int| 0 <= i < entries.len() ==> #[trigger] entries[i].1 >= 1
}

// ---------------------------------------------------------------------
// Checksum
// ---------------------------------------------------------------------
/// Plain sum of a byte range.
pub open spec fn byte_sum(s: Seq<u8>) -> nat
    decreases s.len(),
{
    if s.len() == 0 {
        0
    } else {
        s[0] as nat + byte_sum(s.drop_first())
    }
}

/// The checksum stored in the header: the byte sum of the entry section,
/// masked to its low eight bits.
pub open spec fn checksum_byte(s: Seq<u8>) -> u8 {
    (byte_sum(s) % 256) as u8
}

/// Appending a byte adds it to the sum.
pub proof fn lemma_byte_sum_push(s: Seq<u8>, x: u8)
    ensures
        byte_sum(s.push(x)) == byte_sum(s) + x,
    decreases s.len(),
{
    if s.len() == 0 {
        assert(s.push(x).drop_first() =~= Seq::empty());
        assert(s.push(x)[0] == x);
        assert(byte_sum(s.push(x).drop_first()) == 0);
        assert(byte_sum(s.push(x)) == x + byte_sum(s.push(x).drop_first()));
        assert(byte_sum(s) == 0);
    } else {
        assert(s.push(x).drop_first() =~= s.drop_first().push(x));
        lemma_byte_sum_push(s.drop_first(), x);
        assert(s.push(x)[0] == s[0]);
        assert(byte_sum(s.push(x)) == s[0] + byte_sum(s.push(x).drop_first()));
    }
}

/// The sum of two adjacent ranges is the sum of their concatenation.
pub proof fn lemma_byte_sum_concat(a: Seq<u8>, b: Seq<u8>)
    ensures
        byte_sum(a + b) == byte_sum(a) + byte_sum(b),
    decreases b.len(),
{
    if b.len() == 0 {
        assert(a + b =~= a);
    } else {
        lemma_byte_sum_concat(a, b.drop_last());
        lemma_byte_sum_push(a + b.drop_last(), b.last());
        assert((a + b.drop_last()).push(b.last()) =~= a + b);
        lemma_byte_sum_push(b.drop_last(), b.last());
        assert(b.drop_last().push(b.last()) =~= b);
    }
}

// ---------------------------------------------------------------------
// Name processing
// ---------------------------------------------------------------------
/// How far one trimming step shrinks a name of `len` bytes: a quarter of
/// the excess over the cap, but always at least one byte.
pub open spec fn trim_step(len: nat) -> nat {
    if (len - 63) / 4 > 1 {
        ((len - 63) / 4) as nat
    } else {
        1
    }
}

/// The length an over-long name is cut to: repeated coarse-then-fine
/// shrinking until it fits the cap.
pub open spec fn trimmed_len(len: nat) -> nat
    decreases len,
{
    if len <= 63 {
        len
    } else {
        trimmed_len((len - trim_step(len)) as nat)
    }
}

/// Trimming never grows a name, and always brings an over-long one
/// under the cap.
pub proof fn lemma_trimmed_len(len: nat)
    ensures
        trimmed_len(len) <= len,
        trimmed_len(len) <= 63,
    decreases len,
{
    if len > 63 {
        lemma_trimmed_len((len - trim_step(len)) as nat);
    }
}

/// An over-long byte string keeps only its trimmed-length prefix.
pub open spec fn trimmed(b: Seq<u8>) -> Seq<u8> {
    b.take(trimmed_len(b.len()) as int)
}

/// The name bytes stored in a token: the sanitized form of the given
/// name, trimmed to the cap. An empty name skips sanitization.
pub open spec fn processed_name(name: Seq<char>) -> Seq<u8> {
    if name.len() == 0 {
        Seq::empty()
    } else {
        trimmed(sanitized_bytes_of(name))
    }
}

// ---------------------------------------------------------------------
// Whole payload, encoding side
// ---------------------------------------------------------------------
/// The first header byte: the version in the high nibble, the hero
/// count's three inline bits and carry in the low nibble.
pub open spec fn version_byte(hero_count: u32) -> u8 {
    (CURRENT_VERSION * 16 + inline3(hero_count)) as u8
}

/// The entry section: the hero count's continuation bytes, the hero
/// entries, then the card entries, each section's delta base at zero.
pub open spec fn body_bytes(heroes: Seq<(u32, u32)>, cards: Seq<(u32, u32)>) -> Seq<u8> {
    tail3(heroes.len() as u32) + entries_bytes(heroes, 0) + entries_bytes(cards, 0)
}

/// A whole encoded payload: three header bytes, the entry section, and
/// the raw name bytes. The checksum covers the entry section only.
pub open spec fn payload_bytes(
    heroes: Seq<(u32, u32)>,
    cards: Seq<(u32, u32)>,
    name_b: Seq<u8>,
) -> Seq<u8> {
    let body = body_bytes(heroes, cards);
    seq![
        version_byte(heroes.len() as u32),
        checksum_byte(body),
        name_b.len() as u8,
    ] + body + name_b
}

// ---------------------------------------------------------------------
// Variable-length integers, parsing side
// ---------------------------------------------------------------------
/// Read continuation bytes starting at `i`, each contributing its low
/// seven bits scaled by `mult` (the power of two of the bit offset so
/// far). Stops at the first byte without the continuation flag. Reading
/// past `end`, a value beyond 32 bits, or a continuation past the 32-bit
/// range is a malformed input and yields `None`.
pub open spec fn parse_varint_cont(
    b: Seq<u8>,
    i: int,
    end: int,
    acc: nat,
    mult: nat,
) -> Option<(u32, int)>
    decreases end - i,
{
    if i < 0 || i >= end || end > b.len() || mult >= 0x1_0000_0000 {
        None
    } else {
        let acc2 = acc + (b[i] % 128) as nat * mult;
        if b[i] < 128 {
            if acc2 < 0x1_0000_0000 {
                Some((acc2 as u32, i + 1))
            } else {
                None
            }
        } else {
            parse_varint_cont(b, i + 1, end, acc2, mult * 128)
        }
    }
}

/// An integer stored entirely in continuation bytes (no inline bits).
pub open spec fn parse_varint0(b: Seq<u8>, i: int, end: int) -> Option<(u32, int)> {
    parse_varint_cont(b, i, end, 0, 1)
}

/// An integer whose low three bits sit in `base`, with the carry flag at
/// bit three deciding whether continuation bytes follow.
pub open spec fn parse_varint3(b: Seq<u8>, i: int, end: int, base: u8) -> Option<(u32, int)> {
    if (base / 8) % 2 == 1 {
        parse_varint_cont(b, i, end, (base % 8) as nat, 8)
    } else {
        Some(((base % 8) as u32, i))
    }
}

/// An integer whose low five bits sit in `base`, with the carry flag at
/// bit five deciding whether continuation bytes follow.
pub open spec fn parse_varint5(b: Seq<u8>, i: int, end: int, base: u8) -> Option<(u32, int)> {
    if (base / 32) % 2 == 1 {
        parse_varint_cont(b, i, end, (base % 32) as nat, 32)
    } else {
        Some(((base % 32) as u32, i))
    }
}

// ---------------------------------------------------------------------
// Entries, parsing side
// ---------------------------------------------------------------------
/// Read one entry at `i`: the header byte gives the count code and the
/// id delta's inline bits; a code of three means the count follows the
/// delta as a standalone integer. The new id is `prev` plus the delta;
/// an id beyond 32 bits is malformed.
pub open spec fn parse_entry(b: Seq<u8>, i: int, end: int, prev: u32) -> Option<
    ((u32, u32), int),
> {
    if i < 0 || i >= end || end > b.len() {
        None
    } else {
        let header = b[i];
        match parse_varint5(b, i + 1, end, header) {
            None => None,
            Some((delta, j)) => if prev + delta > u32::MAX {
                None
            } else {
                let id = (prev + delta) as u32;
                if header / 64 == 3 {
                    match parse_varint0(b, j, end) {
                        None => None,
                        Some((count, k)) => Some(((id, count), k)),
                    }
                } else {
                    Some(((id, (header / 64 + 1) as u32), j))
                }
            },
        }
    }
}

/// A run of already-read entries placed in front of a partial parse.
pub open spec fn with_prefix(prefix: Seq<(u32, u32)>, tail: Option<(Seq<(u32, u32)>, int)>) -> Option<
    (Seq<(u32, u32)>, int),
> {
    match tail {
        None => None,
        Some((rest, j)) => Some((prefix + rest, j)),
    }
}

/// Read exactly `n` entries, threading the delta base.
pub open spec fn parse_entries_n(b: Seq<u8>, i: int, end: int, prev: u32, n: nat) -> Option<
    (Seq<(u32, u32)>, int),
>
    decreases n,
{
    if n == 0 {
        Some((Seq::empty(), i))
    } else {
        match parse_entry(b, i, end, prev) {
            None => None,
            Some((e, j)) => match parse_entries_n(b, j, end, e.0, (n - 1) as nat) {
                None => None,
                Some((rest, k)) => Some((seq![e] + rest, k)),
            },
        }
    }
}

/// Read entries until the cursor reaches `end`. Every read entry moves
/// the cursor forward, which bounds the recursion.
pub open spec fn parse_entries_to_end(b: Seq<u8>, i: int, end: int, prev: u32) -> Option<
    (Seq<(u32, u32)>, int),
>
    decreases end - i,
    via parse_entries_to_end_decreases
{
    if i >= end {
        Some((Seq::empty(), i))
    } else {
        match parse_entry(b, i, end, prev) {
            None => None,
            Some((e, j)) => match parse_entries_to_end(b, j, end, e.0) {
                None => None,
                Some((rest, k)) => Some((seq![e] + rest, k)),
            },
        }
    }
}

#[via_fn]
proof fn parse_entries_to_end_decreases(b: Seq<u8>, i: int, end: int, prev: u32) {
    if i < end {
        if let Some((e, j)) = parse_entry(b, i, end, prev) {
            lemma_parse_entry_advances(b, i, end, prev);
        }
    }
}

/// A successful continuation read always moves the cursor forward, and
/// never past `end`.
pub proof fn lemma_parse_varint_cont_advances(b: Seq<u8>, i: int, end: int, acc: nat, mult: nat)
    ensures
        parse_varint_cont(b, i, end, acc, mult) matches Some(r) ==> i < r.1 <= end,
    decreases end - i,
{
    if !(i < 0 || i >= end || end > b.len() || mult >= 0x1_0000_0000) {
        if b[i] >= 128 {
            lemma_parse_varint_cont_advances(
                b,
                i + 1,
                end,
                acc + (b[i] % 128) as nat * mult,
                mult * 128,
            );
        }
    }
}

/// A successful entry read always moves the cursor forward, and never
/// past `end`.
pub proof fn lemma_parse_entry_advances(b: Seq<u8>, i: int, end: int, prev: u32)
    ensures
        parse_entry(b, i, end, prev) matches Some(r) ==> i < r.1 <= end,
{
    if !(i < 0 || i >= end || end > b.len()) {
        lemma_parse_varint_cont_advances(b, i + 1, end, (b[i] % 32) as nat, 32);
        if let Some((delta, j)) = parse_varint5(b, i + 1, end, b[i]) {
            lemma_parse_varint_cont_advances(b, j, end, 0, 1);
        }
    }
}

// ---------------------------------------------------------------------
// Whole payload, parsing side
// ---------------------------------------------------------------------
/// The version stored in a payload's first byte.
pub open spec fn payload_version(b: Seq<u8>) -> u8 {
    b[0] / 16
}

/// Where the entry section ends and the name begins: for versions above
/// 1 the third header byte counts the name bytes at the tail; version 1
/// has no name-length byte and no name.
pub open spec fn entries_end(b: Seq<u8>) -> int {
    if payload_version(b) > 1 {
        b.len() - b[2]
    } else {
        b.len() as int
    }
}

/// Bytes of the header, by version.
pub open spec fn header_size_of(b: Seq<u8>) -> int {
    if payload_version(b) > 1 {
        3
    } else {
        2
    }
}

/// Read a whole payload back into hero entries, card entries and name
/// bytes. `None` on anything malformed: a buffer too short for its
/// header, a name length past the buffer, a checksum that does not match
/// the entry section (versions above 1), or an unreadable entry.
pub open spec fn parse_payload(b: Seq<u8>) -> Option<
    (Seq<(u32, u32)>, Seq<(u32, u32)>, Seq<u8>),
> {
    if b.len() < 2 || (payload_version(b) > 1 && b.len() < 3) {
        None
    } else {
        let hdr = header_size_of(b);
        let end = entries_end(b);
        if end < hdr {
            None
        } else if payload_version(b) > 1 && checksum_byte(b.subrange(3, end)) != b[1] {
            None
        } else {
            match parse_varint3(b, hdr, end, b[0]) {
                None => None,
                Some((hero_count, i)) => match parse_entries_n(b, i, end, 0, hero_count as nat) {
                    None => None,
                    Some((heroes, j)) => match parse_entries_to_end(b, j, end, 0) {
                        None => None,
                        Some((cards, _k)) => Some(
                            (heroes, cards, b.subrange(end, b.len() as int)),
                        ),
                    },
                },
            }
        }
    }
}

// ---------------------------------------------------------------------
// Text transport
// ---------------------------------------------------------------------
/// Replace the two base64 characters that are not URL-safe.
pub open spec fn url_sub(s: Seq<char>) -> Seq<char> {
    s.map_values(
        |c: char|
            if c == '/' {
                '-'
            } else if c == '=' {
                '_'
            } else {
                c
            },
    )
}

/// Undo `url_sub`.
pub open spec fn url_unsub(s: Seq<char>) -> Seq<char> {
    s.map_values(
        |c: char|
            if c == '-' {
                '/'
            } else if c == '_' {
                '='
            } else {
                c
            },
    )
}

/// A token's literal prefix, removed before base64 decoding when
/// present.
pub open spec fn strip_prefix_adc(s: Seq<char>) -> Seq<char> {
    if s.len() >= 3 && s[0] == 'A' && s[1] == 'D' && s[2] == 'C' {
        s.skip(3)
    } else {
        s
    }
}

/// The finished text token for a payload already split into sorted
/// entries and name bytes.
pub open spec fn token_chars(
    heroes: Seq<(u32, u32)>,
    cards: Seq<(u32, u32)>,
    name_b: Seq<u8>,
) -> Seq<char> {
    seq!['A', 'D', 'C'] + url_sub(b64_chars_of(payload_bytes(heroes, cards, name_b)))
}

} // verus!
