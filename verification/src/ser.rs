//! Encoding: from a structured deck to a text token.
use vstd::prelude::*;
use crate::Error;
use crate::canon::sort_pairs;
use crate::canon::sort_pairs_spec;
use crate::canon::lemma_sort_pairs_sorted;
use crate::canon::lemma_sort_pairs_counts;
use crate::de::DeserializedDeck;
use crate::de::DeserializedHero;
use crate::de::DeserializedCard;
use crate::de::hero_pairs;
use crate::de::card_pairs;
use crate::format::CURRENT_VERSION;
use crate::format::chunks;
use crate::format::chunk_byte;
use crate::format::inline3;
use crate::format::inline5;
use crate::format::tail3;
use crate::format::tail5;
use crate::format::entry_bytes;
use crate::format::entries_bytes;
use crate::format::sorted_by_id;
use crate::format::counts_positive;
use crate::format::checksum_byte;
use crate::format::MAX_NAME_BYTES;
use crate::format::trimmed_len;
use crate::format::trim_step;
use crate::format::trimmed;
use crate::format::processed_name;
use crate::format::version_byte;
use crate::format::body_bytes;
use crate::format::payload_bytes;
use crate::format::url_sub;
use crate::format::url_unsub;
use crate::format::strip_prefix_adc;
use crate::format::token_chars;
use crate::outside::b64_chars_of;
use crate::outside::b64_encode;
use crate::outside::is_b64_char;
use crate::outside::push_char;
use crate::outside::sanitize_name;
use crate::outside::sanitized_bytes_of;

verus! {

/// When a deck can be encoded at all: exactly five heroes, at least
/// one card, and no zero turn or count (a zero has no code on the
/// wire, so writing one would corrupt the token).
pub open spec fn deck_encodable(heroes: Seq<(u32, u32)>, cards: Seq<(u32, u32)>) -> bool {
    heroes.len() == 5 && cards.len() >= 1 && counts_positive(heroes) && counts_positive(cards)
}

/// The token an encodable deck turns into: both entry lists sorted by
/// id, the name sanitized and trimmed, the payload wrapped as text.
pub open spec fn deck_token(
    heroes: Seq<(u32, u32)>,
    cards: Seq<(u32, u32)>,
    name: Seq<char>,
) -> Seq<char> {
    token_chars(sort_pairs_spec(heroes), sort_pairs_spec(cards), processed_name(name))
}

/// The low `num_bits` bits of `value`, with a carry flag at bit
/// `num_bits` when the value does not fit in them.
fn extract_n_bits_with_carry(value: u32, num_bits: u8) -> (r: u8)
    requires
        num_bits == 3 || num_bits == 5 || num_bits == 7,
    ensures
        num_bits == 3 ==> r == inline3(value),
        num_bits == 5 ==> r == inline5(value),
        num_bits == 7 ==> r == chunk_byte(value),
{
    proof {
        assert(1u32 << 3u8 == 8 && 1u32 << 5u8 == 32 && 1u32 << 7u8 == 128) by (bit_vector);
    }
    let limit: u32 = 1u32 << num_bits;
    let mut result: u32 = value & (limit - 1);
    if value >= limit {
        result = result | limit;
    }
    proof {
        if num_bits == 3 {
            assert((value & 7u32) == value % 8 && value % 8 < 8) by (bit_vector);
            assert(((value % 8) | 8u32) == value % 8 + 8) by (bit_vector);
        } else if num_bits == 5 {
            assert((value & 31u32) == value % 32 && value % 32 < 32) by (bit_vector);
            assert(((value % 32) | 32u32) == value % 32 + 32) by (bit_vector);
        } else {
            assert((value & 127u32) == value % 128 && value % 128 < 128) by (bit_vector);
            assert(((value % 128) | 128u32) == value % 128 + 128) by (bit_vector);
        }
    }
    result as u8
}

/// Append the continuation bytes of `value` after its low
/// `already_written_bits` bits were stored inline elsewhere.
fn add_remaining_number_to_buffer(value: u32, already_written_bits: u8, bytes: &mut Vec<u8>)
    requires
        already_written_bits == 0 || already_written_bits == 3 || already_written_bits == 5,
    ensures
        already_written_bits == 0 ==> final (bytes)@ == old(bytes)@ + chunks(value),
        already_written_bits == 3 ==> final (bytes)@ == old(bytes)@ + tail3(value),
        already_written_bits == 5 ==> final (bytes)@ == old(bytes)@ + tail5(value),
{
    proof {
        assert(value >> 0u8 == value) by (bit_vector);
        assert(value >> 3u8 == value / 8) by (bit_vector);
        assert(value >> 5u8 == value / 32) by (bit_vector);
    }
    let mut curr: u32 = value >> already_written_bits;
    while curr > 0
        invariant
            already_written_bits == 0 ==> old(bytes)@ + chunks(value) == bytes@ + chunks(curr),
            already_written_bits == 3 ==> old(bytes)@ + tail3(value) == bytes@ + chunks(curr),
            already_written_bits == 5 ==> old(bytes)@ + tail5(value) == bytes@ + chunks(curr),
        decreases curr,
    {
        let next_byte = extract_n_bits_with_carry(curr, 7);
        proof {
            assert(curr >> 7u8 == curr / 128) by (bit_vector);
            assert(bytes@.push(chunk_byte(curr)) + chunks((curr / 128) as u32) =~= bytes@ + (seq![
                chunk_byte(curr),
            ] + chunks((curr / 128) as u32)));
        }
        bytes.push(next_byte);
        curr = curr >> 7;
    }
    proof {
        assert(bytes@ + Seq::<u8>::empty() =~= bytes@);
        assert(old(bytes)@ + Seq::<u8>::empty() =~= old(bytes)@);
    }
}

/// Append one entry: header byte, delta continuation, extended count.
fn add_card_to_buffer(count: u32, value: u32, bytes: &mut Vec<u8>)
    requires
        count >= 1,
    ensures
        final (bytes)@ == old(bytes)@ + entry_bytes(count, value),
{
    let extended_count = count >= 4;
    let first_byte_count: u8 = if extended_count {
        3
    } else {
        (count - 1) as u8
    };
    let inline = extract_n_bits_with_carry(value, 5);
    proof {
        assert(inline5(value) < 64);
        assert(((first_byte_count << 6u8) | inline) == first_byte_count * 64 + inline)
            by (bit_vector)
            requires
                first_byte_count <= 3u8,
                inline < 64u8,
        ;
    }
    let first_byte: u8 = (first_byte_count << 6) | inline;
    let ghost b0 = bytes@;
    bytes.push(first_byte);
    add_remaining_number_to_buffer(value, 5, bytes);
    let ghost b1 = bytes@;
    if extended_count {
        add_remaining_number_to_buffer(count, 0, bytes);
        proof {
            assert(b1 == b0.push(first_byte) + tail5(value));
            assert(b0.push(first_byte) + tail5(value) + chunks(count) =~= b0 + (seq![first_byte]
                + tail5(value) + chunks(count)));
        }
    } else {
        proof {
            assert(b0.push(first_byte) + tail5(value) =~= b0 + (seq![first_byte] + tail5(value)
                + Seq::<u8>::empty()));
        }
    }
}

/// Append a whole entry run, delta base starting at zero.
#[verifier::loop_isolation(false)]
fn add_entries_to_buffer(entries: &Vec<(u32, u32)>, bytes: &mut Vec<u8>)
    requires
        sorted_by_id(entries@),
        counts_positive(entries@),
    ensures
        final (bytes)@ == old(bytes)@ + entries_bytes(entries@, 0),
{
    let mut prev: u32 = 0;
    let mut i: usize = 0;
    proof {
        assert(entries@.skip(0) =~= entries@);
    }
    while i < entries.len()
        invariant
            i <= entries@.len(),
            i == 0 ==> prev == 0,
            i > 0 ==> prev == entries@[i as int - 1].0,
            old(bytes)@ + entries_bytes(entries@, 0) == bytes@ + entries_bytes(
                entries@.skip(i as int),
                prev,
            ),
        decreases entries@.len() - i,
    {
        let e = entries[i];
        proof {
            assert(entries@.skip(i as int)[0] == e);
            assert(entries@.skip(i as int).drop_first() =~= entries@.skip(i as int + 1));
        }
        let ghost pre = bytes@;
        add_card_to_buffer(e.1, e.0 - prev, bytes);
        proof {
            assert(pre + (entry_bytes(e.1, (e.0 - prev) as u32) + entries_bytes(
                entries@.skip(i as int + 1),
                e.0,
            )) =~= (pre + entry_bytes(e.1, (e.0 - prev) as u32)) + entries_bytes(
                entries@.skip(i as int + 1),
                e.0,
            ));
        }
        prev = e.0;
        i = i + 1;
    }
    proof {
        assert(entries@.skip(entries@.len() as int) =~= Seq::<(u32, u32)>::empty());
        assert(bytes@ + Seq::<u8>::empty() =~= bytes@);
    }
}

/// Sanitize a name and cut it down to the cap by the coarse-then-fine
/// shrink rule.
fn process_name(name: &String) -> (r: Vec<u8>)
    ensures
        r@ == processed_name(name@),
{
    if name.as_str().is_empty() {
        Vec::new()
    } else {
        let mut b = sanitize_name(name.as_str());
        let ghost orig = sanitized_bytes_of(name@);
        proof {
            assert(orig.take(orig.len() as int) =~= orig);
        }
        while b.len() > MAX_NAME_BYTES
            invariant
                b@.len() <= orig.len(),
                b@ == orig.take(b@.len() as int),
                trimmed_len(orig.len()) == trimmed_len(b@.len() as nat),
            decreases b@.len(),
        {
            let trim_len = b.len();
            let mut amount_to_trim: usize = (trim_len - MAX_NAME_BYTES) / 4;
            if amount_to_trim < 1 {
                amount_to_trim = 1;
            }
            proof {
                assert(amount_to_trim == trim_step(trim_len as nat));
                assert(orig.take(trim_len as int).take(trim_len as int - amount_to_trim as int)
                    =~= orig.take(trim_len as int - amount_to_trim as int));
            }
            b.truncate(trim_len - amount_to_trim);
        }
        b
    }
}

/// Compute the checksum of everything `bytes` holds.
fn compute_checksum(bytes: &Vec<u8>) -> (r: u8)
    ensures
        r == checksum_byte(bytes@),
{
    let r = crate::de::checksum_range(bytes, 0, bytes.len());
    proof {
        assert(bytes@.subrange(0, bytes@.len() as int) =~= bytes@);
    }
    r
}

/// Build the binary payload of a deck whose entry lists are already
/// sorted and whose name bytes are already processed.
fn encode_bytes(heroes: &Vec<(u32, u32)>, cards: &Vec<(u32, u32)>, name_b: &Vec<u8>) -> (r: Vec<
    u8,
>)
    requires
        heroes@.len() == 5,
        sorted_by_id(heroes@),
        sorted_by_id(cards@),
        counts_positive(heroes@),
        counts_positive(cards@),
        name_b@.len() <= MAX_NAME_BYTES,
    ensures
        r@ == payload_bytes(heroes@, cards@, name_b@),
{
    let count_heroes: u32 = 5;
    let mut body: Vec<u8> = Vec::new();
    add_remaining_number_to_buffer(count_heroes, 3, &mut body);
    add_entries_to_buffer(heroes, &mut body);
    add_entries_to_buffer(cards, &mut body);
    proof {
        assert(Seq::<u8>::empty() + tail3(5) =~= tail3(5));
        assert(body@ =~= body_bytes(heroes@, cards@));
    }
    let checksum = compute_checksum(&body);
    let version = (CURRENT_VERSION << 4) | extract_n_bits_with_carry(count_heroes, 3);
    proof {
        assert(inline3(5) < 16);
        assert(((2u8 << 4u8) | inline3(5)) == 2u8 * 16 + inline3(5)) by (bit_vector)
            requires
                inline3(5) < 16u8,
        ;
    }
    let mut out: Vec<u8> = Vec::new();
    out.push(version);
    out.push(checksum);
    out.push(name_b.len() as u8);
    let ghost hdr = out@;
    let mut moved_body = body;
    out.append(&mut moved_body);
    let ghost with_body = out@;
    let mut i: usize = 0;
    while i < name_b.len()
        invariant
            i <= name_b@.len(),
            out@ == with_body + name_b@.take(i as int),
            with_body == hdr + body_bytes(heroes@, cards@),
        decreases name_b@.len() - i,
    {
        proof {
            assert(name_b@.take(i as int).push(name_b@[i as int]) =~= name_b@.take(i as int + 1));
        }
        out.push(name_b[i]);
        i = i + 1;
    }
    proof {
        assert(name_b@.take(name_b@.len() as int) =~= name_b@);
        assert(hdr =~= seq![
            version_byte(heroes@.len() as u32),
            checksum_byte(body_bytes(heroes@, cards@)),
            name_b@.len() as u8,
        ]);
        assert(out@ =~= payload_bytes(heroes@, cards@, name_b@));
    }
    out
}

/// Wrap a payload as a text token: base64, the literal prefix, and the
/// URL-safe substitution. The substitution can be undone exactly, since
/// base64 text never contains the substitute characters.
fn encode_bytes_to_string(payload: &Vec<u8>) -> (r: String)
    ensures
        r@ == seq!['A', 'D', 'C'] + url_sub(b64_chars_of(payload@)),
        url_unsub(strip_prefix_adc(r@)) == b64_chars_of(payload@),
{
    let b64 = b64_encode(payload);
    let ghost bc = b64@;
    let mut out = String::new();
    push_char(&mut out, 'A');
    push_char(&mut out, 'D');
    push_char(&mut out, 'C');
    proof {
        assert(out@ =~= seq!['A', 'D', 'C']);
        assert(seq!['A', 'D', 'C'] + url_sub(bc).take(0) =~= seq!['A', 'D', 'C']);
    }
    let bs = b64.as_str();
    let m = bs.unicode_len();
    let mut i: usize = 0;
    while i < m
        invariant
            i <= m,
            m == bc.len(),
            bs@ == bc,
            out@ == seq!['A', 'D', 'C'] + url_sub(bc).take(i as int),
        decreases m - i,
    {
        let c = bs.get_char(i);
        let mapped: char = if c == '/' {
            '-'
        } else if c == '=' {
            '_'
        } else {
            c
        };
        proof {
            assert(url_sub(bc)[i as int] == mapped);
            assert(url_sub(bc).take(i as int).push(mapped) =~= url_sub(bc).take(i as int + 1));
            assert((seq!['A', 'D', 'C'] + url_sub(bc).take(i as int)).push(mapped) =~= seq![
                'A',
                'D',
                'C',
            ] + url_sub(bc).take(i as int + 1));
        }
        push_char(&mut out, mapped);
        i = i + 1;
    }
    proof {
        assert(url_sub(bc).take(bc.len() as int) =~= url_sub(bc));
        let t = seq!['A', 'D', 'C'] + url_sub(bc);
        assert(t.skip(3) =~= url_sub(bc));
        assert forall|k: int| 0 <= k < bc.len() implies url_unsub(url_sub(bc))[k] == bc[k] by {
            assert(is_b64_char(bc[k]));
        }
        assert(url_unsub(url_sub(bc)) =~= bc);
    }
    out
}

/// Encode a deck as a text token. Sorting both entry lists by id is
/// part of encoding and happens in place; the name is sanitized and
/// trimmed but left untouched on the deck itself. Fails, leaving the
/// deck as it was, exactly when the deck is not encodable: a hero
/// count other than five, no cards, or a zero turn or count.
#[verifier::loop_isolation(false)]
pub fn encode(deck: &mut DeserializedDeck) -> (r: Result<String, Error>)
    ensures
        deck_encodable(hero_pairs(old(deck).heroes@), card_pairs(old(deck).cards@)) ==> (r
            matches Ok(t) && t@ == deck_token(
            hero_pairs(old(deck).heroes@),
            card_pairs(old(deck).cards@),
            old(deck).name@,
        ) && url_unsub(strip_prefix_adc(t@)) == b64_chars_of(
            payload_bytes(
                sort_pairs_spec(hero_pairs(old(deck).heroes@)),
                sort_pairs_spec(card_pairs(old(deck).cards@)),
                processed_name(old(deck).name@),
            ),
        ) && hero_pairs(final (deck).heroes@) == sort_pairs_spec(hero_pairs(old(deck).heroes@))
            && card_pairs(final (deck).cards@) == sort_pairs_spec(card_pairs(old(deck).cards@))
            && final (deck).name == old(deck).name),
        !deck_encodable(hero_pairs(old(deck).heroes@), card_pairs(old(deck).cards@)) ==> (r is Err
            && r->Err_0 is Encode && *final (deck) == *old(deck)),
{
    let ghost hp0 = hero_pairs(deck.heroes@);
    let ghost cp0 = card_pairs(deck.cards@);
    if deck.heroes.len() != 5 {
        return Err(Error::Encode("Decks must have 5 heroes"));
    }
    if deck.cards.len() == 0 {
        return Err(Error::Encode("Decks must have cards"));
    }
    let mut i: usize = 0;
    while i < deck.heroes.len()
        invariant
            i <= deck.heroes@.len(),
            deck == old(deck),
            forall|k: int| 0 <= k < i ==> deck.heroes@[k].turn >= 1,
        decreases deck.heroes@.len() - i,
    {
        if deck.heroes[i].turn == 0 {
            proof {
                assert(hp0[i as int].1 == 0);
            }
            return Err(Error::Encode("Hero turns must be at least 1"));
        }
        i = i + 1;
    }
    i = 0;
    while i < deck.cards.len()
        invariant
            i <= deck.cards@.len(),
            deck == old(deck),
            forall|k: int| 0 <= k < i ==> deck.cards@[k].count >= 1,
        decreases deck.cards@.len() - i,
    {
        if deck.cards[i].count == 0 {
            proof {
                assert(cp0[i as int].1 == 0);
            }
            return Err(Error::Encode("Card counts must be at least 1"));
        }
        i = i + 1;
    }
    proof {
        assert forall|k: int| 0 <= k < hp0.len() implies #[trigger] hp0[k].1 >= 1 by {
            assert(hp0[k].1 == deck.heroes@[k].turn);
        }
        assert forall|k: int| 0 <= k < cp0.len() implies #[trigger] cp0[k].1 >= 1 by {
            assert(cp0[k].1 == deck.cards@[k].count);
        }
    }
    let mut hp: Vec<(u32, u32)> = Vec::new();
    i = 0;
    while i < deck.heroes.len()
        invariant
            i <= deck.heroes@.len(),
            deck == old(deck),
            hp@ == hp0.take(i as int),
        decreases deck.heroes@.len() - i,
    {
        let h = deck.heroes[i];
        proof {
            assert(hp0.take(i as int).push((h.id, h.turn)) =~= hp0.take(i as int + 1));
        }
        hp.push((h.id, h.turn));
        i = i + 1;
    }
    let mut cp: Vec<(u32, u32)> = Vec::new();
    i = 0;
    while i < deck.cards.len()
        invariant
            i <= deck.cards@.len(),
            deck == old(deck),
            cp@ == cp0.take(i as int),
        decreases deck.cards@.len() - i,
    {
        let c = deck.cards[i];
        proof {
            assert(cp0.take(i as int).push((c.id, c.count)) =~= cp0.take(i as int + 1));
        }
        cp.push((c.id, c.count));
        i = i + 1;
    }
    proof {
        assert(hp0.take(hp0.len() as int) =~= hp0);
        assert(cp0.take(cp0.len() as int) =~= cp0);
        lemma_sort_pairs_sorted(hp0);
        lemma_sort_pairs_sorted(cp0);
        lemma_sort_pairs_counts(hp0);
        lemma_sort_pairs_counts(cp0);
    }
    sort_pairs(&mut hp);
    sort_pairs(&mut cp);
    let mut sorted_heroes: Vec<DeserializedHero> = Vec::new();
    i = 0;
    while i < hp.len()
        invariant
            i <= hp@.len(),
            hp@ == sort_pairs_spec(hp0),
            sorted_heroes@.len() == i,
            forall|k: int|
                0 <= k < i ==> #[trigger] sorted_heroes@[k] == (DeserializedHero {
                    id: hp@[k].0,
                    turn: hp@[k].1,
                }),
        decreases hp@.len() - i,
    {
        let p = hp[i];
        sorted_heroes.push(DeserializedHero { id: p.0, turn: p.1 });
        i = i + 1;
    }
    let mut sorted_cards: Vec<DeserializedCard> = Vec::new();
    i = 0;
    while i < cp.len()
        invariant
            i <= cp@.len(),
            cp@ == sort_pairs_spec(cp0),
            sorted_cards@.len() == i,
            forall|k: int|
                0 <= k < i ==> #[trigger] sorted_cards@[k] == (DeserializedCard {
                    id: cp@[k].0,
                    count: cp@[k].1,
                }),
        decreases cp@.len() - i,
    {
        let p = cp[i];
        sorted_cards.push(DeserializedCard { id: p.0, count: p.1 });
        i = i + 1;
    }
    proof {
        assert(hero_pairs(sorted_heroes@) =~= sort_pairs_spec(hp0));
        assert(card_pairs(sorted_cards@) =~= sort_pairs_spec(cp0));
    }
    deck.heroes = sorted_heroes;
    deck.cards = sorted_cards;
    let name_b = process_name(&deck.name);
    proof {
        crate::format::lemma_trimmed_len(sanitized_bytes_of(deck.name@).len());
    }
    let payload = encode_bytes(&hp, &cp, &name_b);
    let token = encode_bytes_to_string(&payload);
    Ok(token)
}

/// A reference from one card to another, by identifier.
#[derive(Debug, Clone, Copy)]
pub struct CardReference {
    pub card_id: u32,
}

/// Card metadata as far as encoding needs it: the card's identifier
/// and the cards it references (a hero's signature cards).
#[derive(Debug)]
pub struct Card {
    pub card_id: u32,
    pub references: Vec<CardReference>,
}

/// A hero slot in a full deck: the hero card and its turn.
#[derive(Debug)]
pub struct HeroCard {
    pub card: Card,
    pub turn: u32,
}

/// A card slot in a full deck: the card and how many copies.
#[derive(Debug)]
pub struct CardCount {
    pub card: Card,
    pub count: u32,
}

/// A deck enriched with card metadata, as a card database delivers it.
#[derive(Debug)]
pub struct Deck {
    pub heroes: Vec<HeroCard>,
    pub cards: Vec<CardCount>,
    pub name: String,
}

/// The identifiers a hero's card references.
pub open spec fn hero_refs(h: HeroCard) -> Seq<u32> {
    h.card.references@.map_values(|r: CardReference| r.card_id)
}

/// All identifiers referenced by a hero list, in hero order.
pub open spec fn referenced_ids(hs: Seq<HeroCard>) -> Seq<u32>
    decreases hs.len(),
{
    if hs.len() == 0 {
        Seq::empty()
    } else {
        referenced_ids(hs.drop_last()) + hero_refs(hs.last())
    }
}

/// The wire-level view of a full deck's hero list.
pub open spec fn deck_hero_pairs(hs: Seq<HeroCard>) -> Seq<(u32, u32)> {
    hs.map_values(|h: HeroCard| (h.card.card_id, h.turn))
}

/// The wire-level view of a full deck's card list with every card a
/// hero references dropped: those cards ride along with their hero and
/// are not encoded on their own.
pub open spec fn kept_card_pairs(cards: Seq<CardCount>, refs: Seq<u32>) -> Seq<(u32, u32)>
    decreases cards.len(),
{
    if cards.len() == 0 {
        Seq::empty()
    } else {
        let rest = kept_card_pairs(cards.drop_last(), refs);
        if refs.contains(cards.last().card.card_id) {
            rest
        } else {
            rest.push((cards.last().card.card_id, cards.last().count))
        }
    }
}

/// Whether a list of identifiers holds `x`.
fn contains_id(v: &Vec<u32>, x: u32) -> (r: bool)
    ensures
        r == v@.contains(x),
{
    let mut i: usize = 0;
    while i < v.len()
        invariant
            i <= v@.len(),
            forall|k: int| 0 <= k < i ==> v@[k] != x,
        decreases v@.len() - i,
    {
        if v[i] == x {
            return true;
        }
        i = i + 1;
    }
    false
}

/// Encode a full deck: heroes carry their turn; cards referenced by a
/// hero are dropped, the rest keep their counts; the name rides along.
/// Fails exactly when the resulting plain deck is not encodable.
#[verifier::loop_isolation(false)]
pub fn encode_from_deck(deck: &Deck) -> (r: Result<String, Error>)
    ensures
        deck_encodable(
            deck_hero_pairs(deck.heroes@),
            kept_card_pairs(deck.cards@, referenced_ids(deck.heroes@)),
        ) ==> (r matches Ok(t) && t@ == deck_token(
            deck_hero_pairs(deck.heroes@),
            kept_card_pairs(deck.cards@, referenced_ids(deck.heroes@)),
            deck.name@,
        )),
        !deck_encodable(
            deck_hero_pairs(deck.heroes@),
            kept_card_pairs(deck.cards@, referenced_ids(deck.heroes@)),
        ) ==> (r is Err && r->Err_0 is Encode),
{
    let ghost hp0 = deck_hero_pairs(deck.heroes@);
    let ghost all_refs = referenced_ids(deck.heroes@);
    let mut de_deck = crate::de::DeserializedDeck::new();
    let mut refs: Vec<u32> = Vec::new();
    let mut i: usize = 0;
    proof {
        assert(deck.heroes@.take(0) =~= Seq::<HeroCard>::empty());
        assert(hero_pairs(de_deck.heroes@) =~= hp0.take(0));
        assert(refs@ =~= referenced_ids(deck.heroes@.take(0)));
    }
    while i < deck.heroes.len()
        invariant
            i <= deck.heroes@.len(),
            hero_pairs(de_deck.heroes@) == hp0.take(i as int),
            refs@ == referenced_ids(deck.heroes@.take(i as int)),
            de_deck.cards@.len() == 0,
            de_deck.name@.len() == 0,
        decreases deck.heroes@.len() - i,
    {
        let hero = &deck.heroes[i];
        let ghost pre_heroes = hero_pairs(de_deck.heroes@);
        de_deck.heroes.push(
            DeserializedHero { id: hero.card.card_id, turn: hero.turn },
        );
        proof {
            assert(hero_pairs(de_deck.heroes@) =~= pre_heroes.push(
                (hero.card.card_id, hero.turn),
            ));
            assert(hp0.take(i as int).push(hp0[i as int]) =~= hp0.take(i as int + 1));
        }
        let ghost pre_refs = refs@;
        let mut j: usize = 0;
        proof {
            assert(hero_refs(deck.heroes@[i as int]).take(0) =~= Seq::<u32>::empty());
            assert(refs@ =~= pre_refs + hero_refs(deck.heroes@[i as int]).take(0));
        }
        while j < hero.card.references.len()
            invariant
                j <= hero.card.references@.len(),
                refs@ == pre_refs + hero_refs(deck.heroes@[i as int]).take(j as int),
            decreases hero.card.references@.len() - j,
        {
            let reference = &hero.card.references[j];
            proof {
                let hr = hero_refs(deck.heroes@[i as int]);
                assert(hr[j as int] == reference.card_id);
                assert((pre_refs + hr.take(j as int)).push(reference.card_id) =~= pre_refs
                    + hr.take(j as int + 1));
            }
            refs.push(reference.card_id);
            j = j + 1;
        }
        i = i + 1;
        proof {
            let taken = deck.heroes@.take(i as int);
            assert(taken.drop_last() =~= deck.heroes@.take(i as int - 1));
            assert(taken.last() == deck.heroes@[i as int - 1]);
            assert(hero_refs(taken.last()).take(hero_refs(taken.last()).len() as int)
                =~= hero_refs(taken.last()));
        }
    }
    proof {
        assert(deck.heroes@.take(deck.heroes@.len() as int) =~= deck.heroes@);
        assert(hp0.take(hp0.len() as int) =~= hp0);
        assert(deck.cards@.take(0) =~= Seq::<CardCount>::empty());
        assert(card_pairs(de_deck.cards@) =~= kept_card_pairs(deck.cards@.take(0), all_refs));
    }
    i = 0;
    while i < deck.cards.len()
        invariant
            i <= deck.cards@.len(),
            refs@ == all_refs,
            hero_pairs(de_deck.heroes@) == hp0,
            card_pairs(de_deck.cards@) == kept_card_pairs(deck.cards@.take(i as int), all_refs),
            de_deck.name@.len() == 0,
        decreases deck.cards@.len() - i,
    {
        let card = &deck.cards[i];
        let ghost pre_cards = card_pairs(de_deck.cards@);
        let keep = !contains_id(&refs, card.card.card_id);
        if keep {
            de_deck.cards.push(
                DeserializedCard { id: card.card.card_id, count: card.count },
            );
            proof {
                assert(card_pairs(de_deck.cards@) =~= pre_cards.push(
                    (card.card.card_id, card.count),
                ));
            }
        }
        i = i + 1;
        proof {
            let taken = deck.cards@.take(i as int);
            assert(taken.drop_last() =~= deck.cards@.take(i as int - 1));
            assert(taken.last() == deck.cards@[i as int - 1]);
        }
    }
    proof {
        assert(deck.cards@.take(deck.cards@.len() as int) =~= deck.cards@);
    }
    de_deck.name = deck.name.clone();
    encode(&mut de_deck)
}

} // verus!
