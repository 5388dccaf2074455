//! Decoding: from a text token back to a structured deck.
use vstd::prelude::*;
use crate::Error;
use crate::format::parse_varint_cont;
use crate::format::parse_varint0;
use crate::format::parse_varint3;
use crate::format::parse_varint5;
use crate::format::parse_entry;
use crate::format::parse_entries_n;
use crate::format::parse_entries_to_end;
use crate::format::parse_payload;
use crate::format::with_prefix;
use crate::format::checksum_byte;
use crate::format::HEADER_SIZE;
use crate::format::lemma_byte_sum_push;
use crate::format::strip_prefix_adc;
use crate::format::url_unsub;
use crate::outside::b64_chars_of;
use crate::outside::b64_decode;
use crate::outside::push_char;

verus! {

/// A hero as stored in a token: a card identifier and the turn the
/// hero becomes available. Equality and order go by `id` alone.
#[derive(Debug, Clone, Copy)]
pub struct DeserializedHero {
    pub id: u32,
    pub turn: u32,
}

/// A card as stored in a token: a card identifier and how many copies
/// the deck holds. Equality and order go by `id` alone.
#[derive(Debug, Clone, Copy)]
pub struct DeserializedCard {
    pub id: u32,
    pub count: u32,
}

/// A deck: five heroes, at least one card, and a free-text name.
/// Decoding delivers both entry lists ascending by `id`.
#[derive(Debug)]
pub struct DeserializedDeck {
    pub heroes: Vec<DeserializedHero>,
    pub cards: Vec<DeserializedCard>,
    pub name: String,
}

impl PartialEq for DeserializedHero {
    fn eq(&self, other: &DeserializedHero) -> (r: bool) {
        self.id == other.id
    }
}

impl vstd::std_specs::cmp::PartialEqSpecImpl for DeserializedHero {
    open spec fn obeys_eq_spec() -> bool {
        true
    }

    open spec fn eq_spec(&self, other: &DeserializedHero) -> bool {
        self.id == other.id
    }
}

impl PartialOrd for DeserializedHero {
    fn partial_cmp(&self, other: &DeserializedHero) -> (r: Option<core::cmp::Ordering>) {
        if self.id < other.id {
            Some(core::cmp::Ordering::Less)
        } else if self.id == other.id {
            Some(core::cmp::Ordering::Equal)
        } else {
            Some(core::cmp::Ordering::Greater)
        }
    }
}

impl vstd::std_specs::cmp::PartialOrdSpecImpl for DeserializedHero {
    open spec fn obeys_partial_cmp_spec() -> bool {
        true
    }

    open spec fn partial_cmp_spec(&self, other: &DeserializedHero) -> Option<core::cmp::Ordering> {
        if self.id < other.id {
            Some(core::cmp::Ordering::Less)
        } else if self.id == other.id {
            Some(core::cmp::Ordering::Equal)
        } else {
            Some(core::cmp::Ordering::Greater)
        }
    }
}

impl PartialEq for DeserializedCard {
    fn eq(&self, other: &DeserializedCard) -> (r: bool) {
        self.id == other.id
    }
}

impl vstd::std_specs::cmp::PartialEqSpecImpl for DeserializedCard {
    open spec fn obeys_eq_spec() -> bool {
        true
    }

    open spec fn eq_spec(&self, other: &DeserializedCard) -> bool {
        self.id == other.id
    }
}

impl PartialOrd for DeserializedCard {
    fn partial_cmp(&self, other: &DeserializedCard) -> (r: Option<core::cmp::Ordering>) {
        if self.id < other.id {
            Some(core::cmp::Ordering::Less)
        } else if self.id == other.id {
            Some(core::cmp::Ordering::Equal)
        } else {
            Some(core::cmp::Ordering::Greater)
        }
    }
}

impl vstd::std_specs::cmp::PartialOrdSpecImpl for DeserializedCard {
    open spec fn obeys_partial_cmp_spec() -> bool {
        true
    }

    open spec fn partial_cmp_spec(&self, other: &DeserializedCard) -> Option<core::cmp::Ordering> {
        if self.id < other.id {
            Some(core::cmp::Ordering::Less)
        } else if self.id == other.id {
            Some(core::cmp::Ordering::Equal)
        } else {
            Some(core::cmp::Ordering::Greater)
        }
    }
}

/// The wire-level view of a hero list: `(id, turn)` pairs.
pub open spec fn hero_pairs(s: Seq<DeserializedHero>) -> Seq<(u32, u32)> {
    s.map_values(|h: DeserializedHero| (h.id, h.turn))
}

/// The wire-level view of a card list: `(id, count)` pairs.
pub open spec fn card_pairs(s: Seq<DeserializedCard>) -> Seq<(u32, u32)> {
    s.map_values(|c: DeserializedCard| (c.id, c.count))
}

impl DeserializedDeck {
    /// An empty deck: no heroes, no cards, an empty name.
    pub fn new() -> (r: Self)
        ensures
            r.heroes@.len() == 0,
            r.cards@.len() == 0,
            r.name@.len() == 0,
    {
        Self { heroes: Vec::new(), cards: Vec::new(), name: String::new() }
    }
}

/// Read one variable-length integer's continuation bytes, starting with
/// `acc0` already-known low bits below the scale `mult0`.
fn read_varint_cont(bytes: &Vec<u8>, start: usize, end: usize, acc0: u64, mult0: u64) -> (r:
    Option<(u32, usize)>)
    requires
        end <= bytes@.len(),
        acc0 < mult0,
        mult0 <= 0x1_0000_0000u64,
    ensures
        r is Some <==> parse_varint_cont(
            bytes@,
            start as int,
            end as int,
            acc0 as nat,
            mult0 as nat,
        ) is Some,
        r matches Some(q) ==> parse_varint_cont(
            bytes@,
            start as int,
            end as int,
            acc0 as nat,
            mult0 as nat,
        ) == Some((q.0, q.1 as int)),
{
    let mut i: usize = start;
    let mut acc: u64 = acc0;
    let mut mult: u64 = mult0;
    loop
        invariant
            end <= bytes@.len(),
            start <= i,
            acc < mult,
            mult <= 0x80_0000_0000u64,
            parse_varint_cont(bytes@, start as int, end as int, acc0 as nat, mult0 as nat)
                == parse_varint_cont(bytes@, i as int, end as int, acc as nat, mult as nat),
        decreases end - i,
    {
        if mult >= 0x1_0000_0000u64 || i >= end {
            return None;
        }
        let b = bytes[i];
        proof {
            assert((b & 0x7f) == b % 128) by (bit_vector);
            assert((b & 0x80 == 0) == (b < 128)) by (bit_vector);
        }
        let low: u64 = (b & 0x7f) as u64;
        proof {
            assert(acc + low * mult < mult * 128) by (nonlinear_arith)
                requires
                    acc < mult,
                    low < 128u64,
            ;
        }
        i = i + 1;
        acc = acc + low * mult;
        if b & 0x80 == 0 {
            if acc < 0x1_0000_0000u64 {
                return Some((acc as u32, i));
            } else {
                return None;
            }
        }
        mult = mult * 128;
    }
}

/// Read an integer stored entirely in continuation bytes.
fn read_varint0(bytes: &Vec<u8>, start: usize, end: usize) -> (r: Option<(u32, usize)>)
    requires
        end <= bytes@.len(),
    ensures
        r is Some <==> parse_varint0(bytes@, start as int, end as int) is Some,
        r matches Some(q) ==> parse_varint0(bytes@, start as int, end as int) == Some(
            (q.0, q.1 as int),
        ),
{
    read_varint_cont(bytes, start, end, 0, 1)
}

/// Read an integer whose low three bits sit in `base`.
fn read_varint3(bytes: &Vec<u8>, start: usize, end: usize, base: u8) -> (r: Option<(u32, usize)>)
    requires
        end <= bytes@.len(),
    ensures
        r is Some <==> parse_varint3(bytes@, start as int, end as int, base) is Some,
        r matches Some(q) ==> parse_varint3(bytes@, start as int, end as int, base) == Some(
            (q.0, q.1 as int),
        ),
{
    proof {
        assert((base & 7) == base % 8) by (bit_vector);
        assert((base & 8 != 0) == ((base / 8) % 2 == 1)) by (bit_vector);
    }
    let low = base & 7;
    if base & 8 != 0 {
        read_varint_cont(bytes, start, end, low as u64, 8)
    } else {
        Some((low as u32, start))
    }
}

/// Read an integer whose low five bits sit in `base`.
fn read_varint5(bytes: &Vec<u8>, start: usize, end: usize, base: u8) -> (r: Option<(u32, usize)>)
    requires
        end <= bytes@.len(),
    ensures
        r is Some <==> parse_varint5(bytes@, start as int, end as int, base) is Some,
        r matches Some(q) ==> parse_varint5(bytes@, start as int, end as int, base) == Some(
            (q.0, q.1 as int),
        ),
{
    proof {
        assert((base & 0x1f) == base % 32) by (bit_vector);
        assert((base & 0x20 != 0) == ((base / 32) % 2 == 1)) by (bit_vector);
    }
    let low = base & 0x1f;
    if base & 0x20 != 0 {
        read_varint_cont(bytes, start, end, low as u64, 32)
    } else {
        Some((low as u32, start))
    }
}

/// Sum the bytes in `[start, end)`, masked to the low eight bits.
pub(crate) fn checksum_range(bytes: &Vec<u8>, start: usize, end: usize) -> (r: u8)
    requires
        start <= end <= bytes@.len(),
    ensures
        r == checksum_byte(bytes@.subrange(start as int, end as int)),
{
    let mut sum: u32 = 0;
    let mut idx: usize = start;
    while idx < end
        invariant
            start <= idx <= end <= bytes@.len(),
            sum == crate::format::byte_sum(bytes@.subrange(start as int, idx as int)) % 256,
        decreases end - idx,
    {
        proof {
            lemma_byte_sum_push(bytes@.subrange(start as int, idx as int), bytes@[idx as int]);
            assert(bytes@.subrange(start as int, idx as int).push(bytes@[idx as int]) =~= bytes@
                .subrange(start as int, idx as int + 1));
        }
        sum = (sum + bytes[idx] as u32) % 256;
        idx = idx + 1;
    }
    sum as u8
}

/// Read one entry: its header byte, the id delta, and the inline or
/// extended count.
fn read_entry(bytes: &Vec<u8>, start: usize, end: usize, prev: u32) -> (r: Option<
    ((u32, u32), usize),
>)
    requires
        end <= bytes@.len(),
    ensures
        r is Some <==> parse_entry(bytes@, start as int, end as int, prev) is Some,
        r matches Some(q) ==> parse_entry(bytes@, start as int, end as int, prev) == Some(
            (q.0, q.1 as int),
        ),
        r matches Some(q) ==> start < q.1 <= end,
{
    proof {
        crate::format::lemma_parse_entry_advances(bytes@, start as int, end as int, prev);
    }
    if start >= end {
        return None;
    }
    let header = bytes[start];
    proof {
        assert(header >> 6 == header / 64) by (bit_vector);
    }
    let code = header >> 6;
    let (delta, j) = match read_varint5(bytes, start + 1, end, header) {
        None => {
            return None;
        },
        Some(q) => q,
    };
    if delta > u32::MAX - prev {
        return None;
    }
    let id = prev + delta;
    if code == 3 {
        let (count, k) = match read_varint0(bytes, j, end) {
            None => {
                return None;
            },
            Some(q) => q,
        };
        Some(((id, count), k))
    } else {
        Some(((id, code as u32 + 1), j))
    }
}

/// Read exactly `hero_count` hero entries starting at `start`.
#[verifier::loop_isolation(false)]
fn read_heroes(bytes: &Vec<u8>, start: usize, end: usize, hero_count: u32) -> (r: Option<
    (Vec<DeserializedHero>, usize),
>)
    requires
        start <= end <= bytes@.len(),
    ensures
        r is Some <==> parse_entries_n(
            bytes@,
            start as int,
            end as int,
            0,
            hero_count as nat,
        ) is Some,
        r matches Some(q) ==> parse_entries_n(bytes@, start as int, end as int, 0, hero_count as nat)
            == Some((hero_pairs(q.0@), q.1 as int)) && q.1 <= end,
{
    proof {
        let whole = parse_entries_n(bytes@, start as int, end as int, 0, hero_count as nat);
        if let Some(p) = whole {
            assert(Seq::<(u32, u32)>::empty() + p.0 =~= p.0);
        }
        assert(hero_pairs(Seq::<DeserializedHero>::empty()) =~= Seq::<(u32, u32)>::empty());
    }
    let mut heroes: Vec<DeserializedHero> = Vec::new();
    let mut prev: u32 = 0;
    let mut i: usize = start;
    let mut k: u32 = 0;
    while k < hero_count
        invariant
            i <= end,
            k <= hero_count,
            heroes@.len() == k,
            parse_entries_n(bytes@, start as int, end as int, 0, hero_count as nat) == with_prefix(
                hero_pairs(heroes@),
                parse_entries_n(bytes@, i as int, end as int, prev, (hero_count - k) as nat),
            ),
        decreases hero_count - k,
    {
        let ghost pre = hero_pairs(heroes@);
        match read_entry(bytes, i, end, prev) {
            None => {
                proof {
                    assert(parse_entries_n(
                        bytes@,
                        i as int,
                        end as int,
                        prev,
                        (hero_count - k) as nat,
                    ) is None);
                }
                return None;
            },
            Some(((id, count), j)) => {
                proof {
                    let tail = parse_entries_n(
                        bytes@,
                        j as int,
                        end as int,
                        id,
                        (hero_count - k - 1) as nat,
                    );
                    if let Some(p) = tail {
                        assert(pre + (seq![(id, count)] + p.0) =~= (pre + seq![(id, count)]) + p.0);
                    }
                    assert(hero_pairs(heroes@.push(DeserializedHero { id, turn: count })) =~= pre
                        + seq![(id, count)]);
                }
                heroes.push(DeserializedHero { id, turn: count });
                prev = id;
                i = j;
                k = k + 1;
            },
        }
    }
    proof {
        assert(hero_pairs(heroes@) + Seq::<(u32, u32)>::empty() =~= hero_pairs(heroes@));
    }
    Some((heroes, i))
}

/// Read card entries from `start` until the entry section's end.
#[verifier::loop_isolation(false)]
fn read_cards(bytes: &Vec<u8>, start: usize, end: usize) -> (r: Option<Vec<DeserializedCard>>)
    requires
        start <= end <= bytes@.len(),
    ensures
        r is Some <==> parse_entries_to_end(bytes@, start as int, end as int, 0) is Some,
        r matches Some(v) ==> parse_entries_to_end(bytes@, start as int, end as int, 0) matches
            Some(p) && p.0 == card_pairs(v@),
{
    proof {
        let whole = parse_entries_to_end(bytes@, start as int, end as int, 0);
        if let Some(p) = whole {
            assert(Seq::<(u32, u32)>::empty() + p.0 =~= p.0);
        }
        assert(card_pairs(Seq::<DeserializedCard>::empty()) =~= Seq::<(u32, u32)>::empty());
    }
    let mut cards: Vec<DeserializedCard> = Vec::new();
    let mut prev: u32 = 0;
    let mut i: usize = start;
    while i < end
        invariant
            i <= end,
            parse_entries_to_end(bytes@, start as int, end as int, 0) == with_prefix(
                card_pairs(cards@),
                parse_entries_to_end(bytes@, i as int, end as int, prev),
            ),
        decreases end - i,
    {
        let ghost pre = card_pairs(cards@);
        match read_entry(bytes, i, end, prev) {
            None => {
                proof {
                    assert(parse_entries_to_end(bytes@, i as int, end as int, prev) is None);
                }
                return None;
            },
            Some(((id, count), j)) => {
                proof {
                    let tail = parse_entries_to_end(bytes@, j as int, end as int, id);
                    if let Some(p) = tail {
                        assert(pre + (seq![(id, count)] + p.0) =~= (pre + seq![(id, count)]) + p.0);
                    }
                    assert(card_pairs(cards@.push(DeserializedCard { id, count })) =~= pre
                        + seq![(id, count)]);
                }
                cards.push(DeserializedCard { id, count });
                prev = id;
                i = j;
            },
        }
    }
    proof {
        assert(card_pairs(cards@) + Seq::<(u32, u32)>::empty() =~= card_pairs(cards@));
    }
    Some(cards)
}

/// Turn the name's raw bytes into text, one character per byte.
#[verifier::loop_isolation(false)]
fn read_name(bytes: &Vec<u8>, start: usize) -> (r: String)
    requires
        start <= bytes@.len(),
    ensures
        r@ == bytes@.subrange(start as int, bytes@.len() as int).map_values(|b: u8| b as char),
{
    let n = bytes.len();
    let mut name = String::new();
    let mut idx: usize = start;
    while idx < n
        invariant
            start <= idx <= n,
            name@ == bytes@.subrange(start as int, idx as int).map_values(|b: u8| b as char),
        decreases n - idx,
    {
        let c = bytes[idx] as char;
        push_char(&mut name, c);
        idx = idx + 1;
        proof {
            assert(bytes@.subrange(start as int, idx as int).map_values(|b: u8| b as char)
                =~= bytes@.subrange(start as int, idx as int - 1).map_values(
                |b: u8| b as char,
            ).push(bytes@[idx as int - 1] as char));
        }
    }
    name
}

/// Read a whole payload into a deck. Succeeds exactly when the bytes
/// form a well-formed payload: readable header, matching checksum (for
/// versions above 1), and cleanly delimited entries; the decoded lists
/// and name are pinned to what `parse_payload` reads from the bytes.
pub fn parse_deck_bytes(bytes: &Vec<u8>) -> (r: Result<DeserializedDeck, Error>)
    ensures
        r is Ok <==> parse_payload(bytes@) is Some,
        r is Err ==> r->Err_0 is Decode,
        parse_payload(bytes@) matches Some(t) ==> (r matches Ok(d) && hero_pairs(d.heroes@) == t.0
            && card_pairs(d.cards@) == t.1 && d.name@ == t.2.map_values(|b: u8| b as char)),
{
    let n = bytes.len();
    if n < 2 {
        return Err(Error::Decode("payload shorter than its header"));
    }
    let b0 = bytes[0];
    proof {
        assert(b0 >> 4 == b0 / 16) by (bit_vector);
    }
    let version = b0 >> 4;
    if version > 1 && n < 3 {
        return Err(Error::Decode("payload shorter than its header"));
    }
    let hdr: usize = if version > 1 {
        HEADER_SIZE
    } else {
        2
    };
    let name_len: usize = if version > 1 {
        bytes[2] as usize
    } else {
        0
    };
    if name_len + hdr > n {
        return Err(Error::Decode("name length exceeds the payload"));
    }
    let end: usize = n - name_len;
    if version > 1 {
        let cs = checksum_range(bytes, HEADER_SIZE, end);
        if cs != bytes[1] {
            return Err(Error::Decode("checksum mismatch"));
        }
    }
    let (hero_count, i0) = match read_varint3(bytes, hdr, end, b0) {
        None => {
            return Err(Error::Decode("unreadable hero count"));
        },
        Some(q) => q,
    };
    proof {
        crate::format::lemma_parse_varint_cont_advances(
            bytes@,
            hdr as int,
            end as int,
            (b0 % 8) as nat,
            8,
        );
    }
    let (heroes, j) = match read_heroes(bytes, i0, end, hero_count) {
        None => {
            return Err(Error::Decode("unreadable hero entry"));
        },
        Some(q) => q,
    };
    let cards = match read_cards(bytes, j, end) {
        None => {
            return Err(Error::Decode("unreadable card entry"));
        },
        Some(v) => v,
    };
    let name = read_name(bytes, end);
    Ok(DeserializedDeck { heroes, cards, name })
}

/// Undo the text transport: drop a leading `ADC` if present and undo
/// the URL-safe character substitution.
#[verifier::loop_isolation(false)]
fn strip_and_unsub(adc: &str) -> (r: String)
    ensures
        r@ == url_unsub(strip_prefix_adc(adc@)),
{
    let n = adc.unicode_len();
    let start: usize = if n >= 3 && adc.get_char(0) == 'A' && adc.get_char(1) == 'D'
        && adc.get_char(2) == 'C' {
        3
    } else {
        0
    };
    let ghost stripped = strip_prefix_adc(adc@);
    proof {
        if start == 0 {
            assert(stripped =~= adc@.skip(0));
        }
        assert(stripped == adc@.skip(start as int));
        assert(url_unsub(stripped).take(0) =~= Seq::<char>::empty());
    }
    let mut out = String::new();
    let mut i: usize = start;
    while i < n
        invariant
            start <= i <= n,
            out@ == url_unsub(stripped).take(i - start),
        decreases n - i,
    {
        let c = adc.get_char(i);
        let mapped: char = if c == '-' {
            '/'
        } else if c == '_' {
            '='
        } else {
            c
        };
        proof {
            assert(stripped[i - start] == adc@[i as int]);
            assert(url_unsub(stripped)[i - start] == mapped);
            assert(url_unsub(stripped).take(i - start).push(mapped) =~= url_unsub(
                stripped,
            ).take(i + 1 - start));
        }
        push_char(&mut out, mapped);
        i = i + 1;
    }
    proof {
        assert(url_unsub(stripped).take(n - start) =~= url_unsub(stripped));
    }
    out
}

/// What decoding a token must deliver for any byte sequence whose
/// base64 text matches the token after transport: exactly what
/// `parse_payload` reads from those bytes, or an error where it reads
/// nothing.
pub open spec fn decoded_deck_matches(r: Result<DeserializedDeck, Error>, bs: Seq<u8>) -> bool {
    match parse_payload(bs) {
        None => r is Err,
        Some(t) => (r matches Ok(d) && hero_pairs(d.heroes@) == t.0 && card_pairs(d.cards@) == t.1
            && d.name@ == t.2.map_values(|b: u8| b as char)),
    }
}

/// Decode a text token into a deck: strip the `ADC` prefix if present,
/// undo the URL-safe substitution, base64-decode, and read the payload.
/// On the base64 text of any payload the result is pinned to what
/// `parse_payload` reads from it; any failure, including text that is
/// not base64 at all, is a `Decode` error.
pub fn decode(adc: &str) -> (r: Result<DeserializedDeck, Error>)
    ensures
        r is Err ==> r->Err_0 is Decode,
        forall|bs: Seq<u8>|
            url_unsub(strip_prefix_adc(adc@)) == b64_chars_of(bs) ==> decoded_deck_matches(r, bs),
{
    let stripped_adc = strip_and_unsub(adc);
    match b64_decode(stripped_adc.as_str()) {
        Err(()) => Err(Error::Decode("the token is not base64 text")),
        Ok(decoded) => parse_deck_bytes(&decoded),
    }
}

/// Decode a text token held in a `String`.
pub fn decode_from_string(adc: &String) -> (r: Result<DeserializedDeck, Error>)
    ensures
        r is Err ==> r->Err_0 is Decode,
        forall|bs: Seq<u8>|
            url_unsub(strip_prefix_adc(adc@)) == b64_chars_of(bs) ==> decoded_deck_matches(r, bs),
{
    decode(adc.as_str())
}

} // verus!
