//! The codec's laws: what decoding reads back from what encoding
//! wrote, byte range by byte range, up to the whole payload; and the
//! checksum's tamper detection.
use vstd::prelude::*;
use crate::format::chunk_byte;
use crate::format::chunks;
use crate::format::inline3;
use crate::format::inline5;
use crate::format::tail3;
use crate::format::tail5;
use crate::format::count_code;
use crate::format::entry_bytes;
use crate::format::entries_bytes;
use crate::format::sorted_by_id;
use crate::format::counts_positive;
use crate::format::checksum_byte;
use crate::format::byte_sum;
use crate::format::version_byte;
use crate::format::body_bytes;
use crate::format::payload_bytes;
use crate::format::payload_version;
use crate::format::entries_end;
use crate::format::header_size_of;
use crate::format::parse_varint_cont;
use crate::format::parse_varint0;
use crate::format::parse_varint3;
use crate::format::parse_varint5;
use crate::format::parse_entry;
use crate::format::parse_entries_n;
use crate::format::parse_entries_to_end;
use crate::format::parse_payload;

verus! {

/// A chunk run always holds at least one byte for a nonzero value,
/// and its first byte is the value's first chunk.
proof fn lemma_chunks_first(v: u32)
    requires
        v >= 1,
    ensures
        chunks(v).len() >= 1,
        chunks(v)[0] == chunk_byte(v),
        chunks(v).drop_first() == chunks((v / 128) as u32),
{
    assert(seq![chunk_byte(v)] + chunks((v / 128) as u32) == chunks(v));
    assert(chunks(v).drop_first() =~= chunks((v / 128) as u32));
}

/// Reading back a chunk run recovers the encoded value: the
/// continuation parser, started below scale `mult` with `acc` already
/// gathered, consumes exactly the run of `v` and returns the total.
proof fn lemma_parse_cont_of_chunks(b: Seq<u8>, i: int, end: int, acc: nat, mult: nat, v: u32)
    requires
        0 <= i,
        end <= b.len(),
        i + chunks(v).len() <= end,
        b.subrange(i, i + chunks(v).len()) == chunks(v),
        v >= 1,
        1 <= mult,
        acc < mult,
        acc + v * mult < 0x1_0000_0000,
    ensures
        parse_varint_cont(b, i, end, acc, mult) == Some(
            ((acc + v * mult) as u32, i + chunks(v).len()),
        ),
    decreases v,
{
    lemma_chunks_first(v);
    assert(b[i] == chunks(v)[0]);
    assert(mult <= v * mult) by (nonlinear_arith)
        requires
            v >= 1,
            mult >= 1,
    ;
    let byte = chunk_byte(v);
    assert(byte % 128 == v % 128);
    let acc2 = acc + (byte % 128) as nat * mult;
    if v < 128 {
        assert(byte == v % 128);
        assert(byte < 128);
        assert(v % 128 == v);
        assert((v / 128) as u32 == 0);
        assert(chunks(v).len() == 1);
        assert(acc2 == acc + v * mult);
    } else {
        assert(byte == v % 128 + 128);
        assert(byte >= 128);
        let v2 = (v / 128) as u32;
        assert(v2 >= 1);
        assert(chunks(v).len() == 1 + chunks(v2).len());
        assert(b.subrange(i + 1, i + 1 + chunks(v2).len()) =~= chunks(v2)) by {
            assert forall|k: int| 0 <= k < chunks(v2).len() implies b.subrange(
                i + 1,
                i + 1 + chunks(v2).len(),
            )[k] == chunks(v2)[k] by {
                assert(b.subrange(i, i + chunks(v).len())[k + 1] == chunks(v)[k + 1]);
            }
        }
        assert(acc2 < mult * 128) by (nonlinear_arith)
            requires
                acc < mult,
                acc2 == acc + (v % 128) * mult,
                v % 128 < 128,
        ;
        assert(acc2 + v2 * (mult * 128) == acc + v * mult) by (nonlinear_arith)
            requires
                acc2 == acc + (v % 128) * mult,
                v2 == v / 128,
                v == 128 * (v / 128) + v % 128,
        ;
        lemma_parse_cont_of_chunks(b, i + 1, end, acc2, mult * 128, v2);
    }
}

/// Reading back an integer whose low five bits sit in a header byte
/// recovers it, wherever the header's upper bits came from.
proof fn lemma_parse_varint5_at(b: Seq<u8>, i: int, end: int, base: u8, v: u32)
    requires
        0 <= i,
        end <= b.len(),
        i + tail5(v).len() <= end,
        b.subrange(i, i + tail5(v).len()) == tail5(v),
        base % 64 == inline5(v),
    ensures
        parse_varint5(b, i, end, base) == Some((v, i + tail5(v).len())),
{
    assert(base % 32 == (base % 64) % 32);
    assert(base / 32 % 2 == (base % 64) / 32 % 2);
    if v < 32 {
        assert(inline5(v) == v % 32);
        assert(inline5(v) / 32 % 2 == 0);
        assert((v / 32) as u32 == 0);
        assert(tail5(v).len() == 0);
        assert(base % 32 == v);
    } else {
        assert(inline5(v) == v % 32 + 32);
        assert(inline5(v) / 32 % 2 == 1);
        assert(base % 32 == v % 32);
        let v2 = (v / 32) as u32;
        assert(v2 >= 1);
        assert((v % 32) as nat + v2 * 32 == v) by (nonlinear_arith)
            requires
                v2 == v / 32,
                v == 32 * (v / 32) + v % 32,
        ;
        lemma_parse_cont_of_chunks(b, i, end, (v % 32) as nat, 32, v2);
    }
}

/// Reading back an integer whose low three bits sit in a header byte
/// recovers it, wherever the header's upper bits came from.
proof fn lemma_parse_varint3_at(b: Seq<u8>, i: int, end: int, base: u8, v: u32)
    requires
        0 <= i,
        end <= b.len(),
        i + tail3(v).len() <= end,
        b.subrange(i, i + tail3(v).len()) == tail3(v),
        base % 16 == inline3(v),
    ensures
        parse_varint3(b, i, end, base) == Some((v, i + tail3(v).len())),
{
    assert(base % 8 == (base % 16) % 8);
    assert(base / 8 % 2 == (base % 16) / 8 % 2);
    if v < 8 {
        assert(inline3(v) == v % 8);
        assert((v / 8) as u32 == 0);
        assert(tail3(v).len() == 0);
        assert(base % 8 == v);
    } else {
        assert(inline3(v) == v % 8 + 8);
        assert(base % 8 == v % 8);
        let v2 = (v / 8) as u32;
        assert(v2 >= 1);
        assert((v % 8) as nat + v2 * 8 == v) by (nonlinear_arith)
            requires
                v2 == v / 8,
                v == 8 * (v / 8) + v % 8,
        ;
        lemma_parse_cont_of_chunks(b, i, end, (v % 8) as nat, 8, v2);
    }
}

/// Reading back an integer stored entirely in continuation bytes
/// recovers it.
proof fn lemma_parse_varint0_at(b: Seq<u8>, i: int, end: int, v: u32)
    requires
        0 <= i,
        end <= b.len(),
        i + chunks(v).len() <= end,
        b.subrange(i, i + chunks(v).len()) == chunks(v),
        v >= 1,
    ensures
        parse_varint0(b, i, end) == Some((v, i + chunks(v).len())),
{
    lemma_parse_cont_of_chunks(b, i, end, 0, 1, v);
}

/// Reading back one encoded entry recovers its count and its id,
/// rebuilt from the delta against `prev`.
pub proof fn lemma_parse_entry_of(b: Seq<u8>, i: int, end: int, prev: u32, count: u32, delta: u32)
    requires
        0 <= i,
        end <= b.len(),
        i + entry_bytes(count, delta).len() <= end,
        b.subrange(i, i + entry_bytes(count, delta).len()) == entry_bytes(count, delta),
        count >= 1,
        prev + delta <= u32::MAX,
    ensures
        parse_entry(b, i, end, prev) == Some(
            (((prev + delta) as u32, count), i + entry_bytes(count, delta).len()),
        ),
{
    let eb = entry_bytes(count, delta);
    let code = count_code(count);
    let first = (code * 64 + inline5(delta)) as u8;
    assert(inline5(delta) < 64);
    assert(code <= 3);
    assert(eb[0] == first);
    assert(b[i] == first);
    assert(first % 64 == inline5(delta));
    assert(first / 64 == code);
    let t5 = tail5(delta);
    assert(b.subrange(i + 1, i + 1 + t5.len()) =~= t5) by {
        assert forall|k: int| 0 <= k < t5.len() implies b.subrange(i + 1, i + 1 + t5.len())[k]
            == t5[k] by {
            assert(b.subrange(i, i + eb.len())[k + 1] == eb[k + 1]);
            assert(eb[k + 1] == t5[k]);
        }
    }
    lemma_parse_varint5_at(b, i + 1, end, first, delta);
    let j = i + 1 + t5.len();
    if count >= 4 {
        assert(code == 3);
        let cc = chunks(count);
        assert(b.subrange(j, j + cc.len()) =~= cc) by {
            assert forall|k: int| 0 <= k < cc.len() implies b.subrange(j, j + cc.len())[k]
                == cc[k] by {
                assert(b.subrange(i, i + eb.len())[1 + t5.len() + k] == eb[1 + t5.len() + k]);
                assert(eb[1 + t5.len() + k] == cc[k]);
            }
        }
        lemma_parse_varint0_at(b, j, end, count);
        assert(eb.len() == 1 + t5.len() + cc.len());
    } else {
        assert(code < 3);
        assert(code + 1 == count);
        assert(eb.len() == 1 + t5.len());
    }
}

/// Reading back a run of `n` encoded entries recovers them all, ids
/// rebuilt left to right.
proof fn lemma_parse_entries_n_of(b: Seq<u8>, i: int, end: int, prev: u32, entries: Seq<(u32, u32)>)
    requires
        0 <= i,
        end <= b.len(),
        i + entries_bytes(entries, prev).len() <= end,
        b.subrange(i, i + entries_bytes(entries, prev).len()) == entries_bytes(entries, prev),
        sorted_by_id(entries),
        counts_positive(entries),
        entries.len() > 0 ==> entries[0].0 >= prev,
    ensures
        parse_entries_n(b, i, end, prev, entries.len() as nat) == Some(
            (entries, i + entries_bytes(entries, prev).len()),
        ),
    decreases entries.len(),
{
    if entries.len() == 0 {
        assert(parse_entries_n(b, i, end, prev, 0) == Some((Seq::<(u32, u32)>::empty(), i)));
        assert(entries =~= Seq::<(u32, u32)>::empty());
    } else {
        let e = entries[0];
        let delta = (e.0 - prev) as u32;
        let eb = entry_bytes(e.1, delta);
        let rest = entries_bytes(entries.drop_first(), e.0);
        assert(entries_bytes(entries, prev) == eb + rest);
        assert(b.subrange(i, i + eb.len()) =~= eb) by {
            assert forall|k: int| 0 <= k < eb.len() implies b.subrange(i, i + eb.len())[k]
                == eb[k] by {
                assert(b.subrange(i, i + eb.len() + rest.len())[k] == (eb + rest)[k]);
            }
        }
        assert(e.1 >= 1);
        lemma_parse_entry_of(b, i, end, prev, e.1, delta);
        let j = i + eb.len();
        assert(b.subrange(j, j + rest.len()) =~= rest) by {
            assert forall|k: int| 0 <= k < rest.len() implies b.subrange(j, j + rest.len())[k]
                == rest[k] by {
                assert(b.subrange(i, i + eb.len() + rest.len())[eb.len() + k] == (eb
                    + rest)[eb.len() + k]);
            }
        }
        assert(sorted_by_id(entries.drop_first()));
        assert(counts_positive(entries.drop_first()));
        if entries.len() > 1 {
            assert(entries.drop_first()[0] == entries[1]);
            assert(entries[0].0 <= entries[1].0);
        }
        lemma_parse_entries_n_of(b, j, end, e.0, entries.drop_first());
        assert(seq![((prev + delta) as u32, e.1)] + entries.drop_first() =~= entries);
    }
}

/// Reading back a run of encoded entries that fills the space up to
/// `end` exactly recovers them all and stops at `end`.
proof fn lemma_parse_entries_to_end_of(
    b: Seq<u8>,
    i: int,
    end: int,
    prev: u32,
    entries: Seq<(u32, u32)>,
)
    requires
        0 <= i,
        end <= b.len(),
        i + entries_bytes(entries, prev).len() == end,
        b.subrange(i, end) == entries_bytes(entries, prev),
        sorted_by_id(entries),
        counts_positive(entries),
        entries.len() > 0 ==> entries[0].0 >= prev,
    ensures
        parse_entries_to_end(b, i, end, prev) == Some((entries, end)),
    decreases entries.len(),
{
    if entries.len() == 0 {
        assert(entries =~= Seq::<(u32, u32)>::empty());
    } else {
        let e = entries[0];
        let delta = (e.0 - prev) as u32;
        let eb = entry_bytes(e.1, delta);
        let rest = entries_bytes(entries.drop_first(), e.0);
        assert(entries_bytes(entries, prev) == eb + rest);
        assert(eb.len() >= 1);
        assert(i < end);
        assert(b.subrange(i, i + eb.len()) =~= eb) by {
            assert forall|k: int| 0 <= k < eb.len() implies b.subrange(i, i + eb.len())[k]
                == eb[k] by {
                assert(b.subrange(i, end)[k] == (eb + rest)[k]);
            }
        }
        assert(e.1 >= 1);
        lemma_parse_entry_of(b, i, end, prev, e.1, delta);
        let j = i + eb.len();
        assert(b.subrange(j, end) =~= rest) by {
            assert forall|k: int| 0 <= k < rest.len() implies b.subrange(j, end)[k] == rest[k] by {
                assert(b.subrange(i, end)[eb.len() + k] == (eb + rest)[eb.len() + k]);
            }
        }
        assert(sorted_by_id(entries.drop_first()));
        assert(counts_positive(entries.drop_first()));
        if entries.len() > 1 {
            assert(entries.drop_first()[0] == entries[1]);
            assert(entries[0].0 <= entries[1].0);
        }
        lemma_parse_entries_to_end_of(b, j, end, e.0, entries.drop_first());
        assert(seq![((prev + delta) as u32, e.1)] + entries.drop_first() =~= entries);
    }
}

/// Reading back a whole payload recovers the entry lists and name
/// bytes it was built from, provided the lists were fit to encode:
/// five heroes, ids ascending, counts at least one, and a name within
/// the cap.
pub proof fn lemma_payload_round_trip(
    heroes: Seq<(u32, u32)>,
    cards: Seq<(u32, u32)>,
    name_b: Seq<u8>,
)
    requires
        heroes.len() == 5,
        sorted_by_id(heroes),
        sorted_by_id(cards),
        counts_positive(heroes),
        counts_positive(cards),
        name_b.len() <= 63,
    ensures
        parse_payload(payload_bytes(heroes, cards, name_b)) == Some((heroes, cards, name_b)),
{
    let hb = entries_bytes(heroes, 0);
    let cb = entries_bytes(cards, 0);
    let body = body_bytes(heroes, cards);
    let vb = version_byte(heroes.len() as u32);
    let cs = checksum_byte(body);
    let p = payload_bytes(heroes, cards, name_b);
    assert((5u32 / 8) as u32 == 0);
    assert(tail3(5) =~= Seq::<u8>::empty());
    assert(body =~= hb + cb);
    assert(inline3(5) == 5);
    assert(vb == 37);
    assert(p[0] == 37);
    assert(payload_version(p) == 2);
    assert(p.len() == 3 + body.len() + name_b.len());
    assert(p[2] == name_b.len() as u8);
    let end = entries_end(p);
    assert(end == 3 + body.len());
    assert(header_size_of(p) == 3);
    assert(p.subrange(3, end) =~= body) by {
        assert forall|k: int| 0 <= k < body.len() implies p.subrange(3, end)[k] == body[k] by {
            assert(p[3 + k] == body[k]);
        }
    }
    assert(checksum_byte(p.subrange(3, end)) == p[1]);
    assert(p[0] % 16 == 5);
    assert(tail3(5).len() == 0);
    assert(p.subrange(3, 3) =~= tail3(5));
    lemma_parse_varint3_at(p, 3, end, p[0], 5);
    assert(parse_varint3(p, 3, end, p[0]) == Some((5u32, 3int)));
    assert(p.subrange(3, 3 + hb.len() as int) =~= hb) by {
        assert forall|k: int| 0 <= k < hb.len() implies p.subrange(3, 3 + hb.len() as int)[k] == hb[k] by {
            assert(p[3 + k] == body[k]);
            assert(body[k] == (hb + cb)[k]);
        }
    }
    lemma_parse_entries_n_of(p, 3, end, 0, heroes);
    let j: int = 3 + hb.len() as int;
    assert(p.subrange(j, end) =~= cb) by {
        assert forall|k: int| 0 <= k < cb.len() implies p.subrange(j, end)[k] == cb[k] by {
            assert(p[3 + hb.len() + k] == body[hb.len() + k]);
            assert(body[hb.len() + k] == (hb + cb)[hb.len() + k]);
        }
    }
    lemma_parse_entries_to_end_of(p, j, end, 0, cards);
    assert(p.subrange(end, p.len() as int) =~= name_b) by {
        assert forall|k: int| 0 <= k < name_b.len() implies p.subrange(end, p.len() as int)[k]
            == name_b[k] by {
            assert(p[end + k] == name_b[k]);
        }
    }
}

/// Round trip: an encodable deck comes back from its own payload.
/// For any deck with exactly five heroes, at least one card, and no
/// zero turn or count, reading the payload written for its sorted
/// entry lists and processed name yields exactly those lists and that
/// name. Together with the contracts of `ser::encode` (which writes
/// `payload_bytes` of the sorted lists behind the text transport) and
/// `de::decode` (which reads `parse_payload` from behind the text
/// transport), this pins `decode(encode(deck))` to the deck's
/// canonical form.
pub proof fn lemma_round_trip(heroes: Seq<(u32, u32)>, cards: Seq<(u32, u32)>, name: Seq<char>)
    requires
        crate::ser::deck_encodable(heroes, cards),
    ensures
        parse_payload(
            payload_bytes(
                crate::canon::sort_pairs_spec(heroes),
                crate::canon::sort_pairs_spec(cards),
                crate::format::processed_name(name),
            ),
        ) == Some(
            (
                crate::canon::sort_pairs_spec(heroes),
                crate::canon::sort_pairs_spec(cards),
                crate::format::processed_name(name),
            ),
        ),
{
    crate::canon::lemma_sort_pairs_sorted(heroes);
    crate::canon::lemma_sort_pairs_sorted(cards);
    crate::canon::lemma_sort_pairs_counts(heroes);
    crate::canon::lemma_sort_pairs_counts(cards);
    crate::format::lemma_trimmed_len(crate::outside::sanitized_bytes_of(name).len());
    lemma_payload_round_trip(
        crate::canon::sort_pairs_spec(heroes),
        crate::canon::sort_pairs_spec(cards),
        crate::format::processed_name(name),
    );
}

/// Idempotent canonicalization: re-encoding a decoded deck writes the
/// very token it was decoded from. Holds of every deck in a token's
/// image whose name the encoder's own processing leaves alone: already
/// sorted lists, and name bytes that sanitization maps to themselves
/// once read back as characters (sanitization can rewrite markup, and
/// a byte above 127 reads back as a character that re-encodes to two
/// bytes; such names re-encode to a different token).
pub proof fn lemma_reencode_identical(h: Seq<(u32, u32)>, c: Seq<(u32, u32)>, nb: Seq<u8>)
    requires
        sorted_by_id(h),
        sorted_by_id(c),
        nb.len() <= 63,
        crate::outside::sanitized_bytes_of(nb.map_values(|b: u8| b as char)) == nb,
    ensures
        crate::ser::deck_token(h, c, nb.map_values(|b: u8| b as char)) == crate::format::token_chars(
            h,
            c,
            nb,
        ),
{
    crate::canon::lemma_sort_pairs_of_sorted(h);
    crate::canon::lemma_sort_pairs_of_sorted(c);
    let name = nb.map_values(|b: u8| b as char);
    if name.len() == 0 {
        assert(crate::format::processed_name(name) =~= nb);
    } else {
        crate::format::lemma_trimmed_len(nb.len());
        assert(crate::format::trimmed_len(nb.len()) == nb.len());
        assert(crate::format::trimmed(nb) =~= nb);
    }
}

/// Encoding a deck twice, with a decode in between, writes the same
/// token bytes both times: the first encode leaves nothing for the
/// second to change, provided sanitization leaves the once-processed
/// name alone when it comes back as text. The first clause is the
/// decode of the first token; the second says the decoded deck encodes
/// to the very same token content.
pub proof fn lemma_second_encoding_identical(
    heroes: Seq<(u32, u32)>,
    cards: Seq<(u32, u32)>,
    name: Seq<char>,
)
    requires
        crate::ser::deck_encodable(heroes, cards),
        crate::outside::sanitized_bytes_of(
            crate::format::processed_name(name).map_values(|b: u8| b as char),
        ) == crate::format::processed_name(name),
    ensures
        parse_payload(
            payload_bytes(
                crate::canon::sort_pairs_spec(heroes),
                crate::canon::sort_pairs_spec(cards),
                crate::format::processed_name(name),
            ),
        ) == Some(
            (
                crate::canon::sort_pairs_spec(heroes),
                crate::canon::sort_pairs_spec(cards),
                crate::format::processed_name(name),
            ),
        ),
        crate::ser::deck_token(
            crate::canon::sort_pairs_spec(heroes),
            crate::canon::sort_pairs_spec(cards),
            crate::format::processed_name(name).map_values(|b: u8| b as char),
        ) == crate::format::token_chars(
            crate::canon::sort_pairs_spec(heroes),
            crate::canon::sort_pairs_spec(cards),
            crate::format::processed_name(name),
        ),
{
    lemma_round_trip(heroes, cards, name);
    crate::canon::lemma_sort_pairs_sorted(heroes);
    crate::canon::lemma_sort_pairs_sorted(cards);
    crate::format::lemma_trimmed_len(crate::outside::sanitized_bytes_of(name).len());
    lemma_reencode_identical(
        crate::canon::sort_pairs_spec(heroes),
        crate::canon::sort_pairs_spec(cards),
        crate::format::processed_name(name),
    );
}

/// Changing one element of a sequence moves its sum by the difference.
proof fn lemma_byte_sum_update(s: Seq<u8>, q: int, x: u8)
    requires
        0 <= q < s.len(),
    ensures
        byte_sum(s.update(q, x)) + s[q] == byte_sum(s) + x,
{
    let front = s.take(q);
    let back = s.skip(q + 1);
    assert(s =~= front + (seq![s[q]] + back));
    assert(s.update(q, x) =~= front + (seq![x] + back));
    crate::format::lemma_byte_sum_concat(front, seq![s[q]] + back);
    crate::format::lemma_byte_sum_concat(front, seq![x] + back);
    assert((seq![s[q]] + back).drop_first() =~= back);
    assert((seq![x] + back).drop_first() =~= back);
    assert(byte_sum(seq![s[q]] + back) == s[q] + byte_sum(back));
    assert(byte_sum(seq![x] + back) == x + byte_sum(back));
}

/// Tamper detection: flipping any single byte strictly between the
/// header and the name boundary of a readable payload (of a version
/// that carries a checksum) makes the payload unreadable, because the
/// stored checksum no longer matches the entry section.
pub proof fn lemma_flipped_byte_rejected(b: Seq<u8>, p: int, x: u8)
    requires
        parse_payload(b) is Some,
        payload_version(b) > 1,
        3 <= p < entries_end(b),
        x != b[p],
    ensures
        parse_payload(b.update(p, x)) is None,
{
    let b2 = b.update(p, x);
    assert(b2.len() == b.len());
    assert(b2[0] == b[0] && b2[1] == b[1] && b2[2] == b[2]);
    assert(payload_version(b2) == payload_version(b));
    let end = entries_end(b);
    assert(entries_end(b2) == end);
    let sub = b.subrange(3, end);
    let sub2 = b2.subrange(3, end);
    assert(checksum_byte(sub) == b[1]);
    assert(sub2 =~= sub.update(p - 3, x));
    lemma_byte_sum_update(sub, p - 3, x);
    assert(sub[p - 3] == b[p]);
    let old_sum = byte_sum(sub);
    let new_sum = byte_sum(sub2);
    assert(new_sum + b[p] == old_sum + x);
    assert(new_sum % 256 != old_sum % 256) by (nonlinear_arith)
        requires
            new_sum + b[p] == old_sum + x,
            b[p] < 256,
            x < 256,
            x != b[p],
            new_sum >= 0,
            old_sum >= 0,
    ;
    assert(checksum_byte(sub2) != b[1]);
}

/// An encoded entry read back on its own recovers its id and count,
/// whatever the count's form on the wire: decode undoes encode for
/// one entry, for inline counts and extended counts alike.
pub proof fn lemma_entry_round_trip(count: u32, delta: u32, prev: u32)
    requires
        count >= 1,
        prev + delta <= u32::MAX,
    ensures
        parse_entry(
            entry_bytes(count, delta),
            0,
            entry_bytes(count, delta).len() as int,
            prev,
        ) == Some((((prev + delta) as u32, count), entry_bytes(count, delta).len() as int)),
{
    let eb = entry_bytes(count, delta);
    assert(eb.subrange(0, eb.len() as int) =~= eb);
    lemma_parse_entry_of(eb, 0, eb.len() as int, prev, count, delta);
}

/// Count boundary: counts one to three ride inline in the header's top
/// two bits, biased by one; four and above set both bits and append
/// the full count as a standalone integer.
pub proof fn lemma_count_encoding_boundary(count: u32, delta: u32)
    requires
        count >= 1,
    ensures
        count <= 3 ==> count_code(count) == count - 1 && entry_bytes(count, delta).len() == 1
            + tail5(delta).len(),
        count >= 4 ==> count_code(count) == 3 && entry_bytes(count, delta).len() == 1 + tail5(
            delta,
        ).len() + chunks(count).len() && chunks(count).len() >= 1,
{
    if count >= 4 {
        assert(chunks(count).len() >= 1);
    }
}

/// Delta boundary: a delta that fits in five bits needs no
/// continuation byte; a delta of 32 or more needs at least one.
pub proof fn lemma_delta_width_boundary(delta: u32)
    ensures
        delta <= 31 ==> tail5(delta).len() == 0,
        delta >= 32 ==> tail5(delta).len() >= 1,
{
    if delta <= 31 {
        assert((delta / 32) as u32 == 0);
    } else {
        assert((delta / 32) as u32 >= 1);
    }
}

/// A read entry's id never falls below the delta base.
proof fn lemma_parse_entry_id_ge(b: Seq<u8>, i: int, end: int, prev: u32)
    ensures
        parse_entry(b, i, end, prev) matches Some(e) ==> e.0.0 >= prev,
{
}

/// A fixed-length run of read entries ascends by id from the delta
/// base on: deltas cannot be negative on the wire.
proof fn lemma_parse_entries_n_sorted(b: Seq<u8>, i: int, end: int, prev: u32, n: nat)
    ensures
        parse_entries_n(b, i, end, prev, n) matches Some(t) ==> sorted_by_id(t.0) && forall|k: int|
            0 <= k < t.0.len() ==> #[trigger] t.0[k].0 >= prev,
    decreases n,
{
    if n > 0 {
        if let Some(e) = parse_entry(b, i, end, prev) {
            lemma_parse_entry_id_ge(b, i, end, prev);
            lemma_parse_entries_n_sorted(b, e.1, end, e.0.0, (n - 1) as nat);
            if let Some(t) = parse_entries_n(b, i, end, prev, n) {
                if let Some(rest) = parse_entries_n(b, e.1, end, e.0.0, (n - 1) as nat) {
                    assert forall|x: int, y: int| 0 <= x < y < t.0.len() implies t.0[x].0
                        <= t.0[y].0 by {
                        if x > 0 {
                            assert(t.0[x] == rest.0[x - 1]);
                        }
                        assert(t.0[y] == rest.0[y - 1]);
                    }
                }
            }
        }
    }
}

/// A run of read entries that fills the space to `end` ascends by id
/// from the delta base on.
proof fn lemma_parse_entries_to_end_sorted(b: Seq<u8>, i: int, end: int, prev: u32)
    ensures
        parse_entries_to_end(b, i, end, prev) matches Some(t) ==> sorted_by_id(t.0) && forall|
            k: int,
        | 0 <= k < t.0.len() ==> #[trigger] t.0[k].0 >= prev,
    decreases end - i,
{
    if i < end {
        if let Some(e) = parse_entry(b, i, end, prev) {
            lemma_parse_entry_id_ge(b, i, end, prev);
            crate::format::lemma_parse_entry_advances(b, i, end, prev);
            lemma_parse_entries_to_end_sorted(b, e.1, end, e.0.0);
            if let Some(t) = parse_entries_to_end(b, i, end, prev) {
                if let Some(rest) = parse_entries_to_end(b, e.1, end, e.0.0) {
                    assert forall|x: int, y: int| 0 <= x < y < t.0.len() implies t.0[x].0
                        <= t.0[y].0 by {
                        if x > 0 {
                            assert(t.0[x] == rest.0[x - 1]);
                        }
                        assert(t.0[y] == rest.0[y - 1]);
                    }
                }
            }
        }
    }
}

/// Decoding delivers both entry lists in on-wire order: ascending by
/// id, since the wire holds only non-negative deltas.
pub proof fn lemma_decoded_lists_sorted(b: Seq<u8>)
    ensures
        parse_payload(b) matches Some(t) ==> sorted_by_id(t.0) && sorted_by_id(t.1),
{
    if b.len() >= 2 && !(payload_version(b) > 1 && b.len() < 3) {
        let hdr = header_size_of(b);
        let end = entries_end(b);
        if end >= hdr && !(payload_version(b) > 1 && checksum_byte(b.subrange(3, end)) != b[1]) {
            if let Some((hero_count, i)) = parse_varint3(b, hdr, end, b[0]) {
                lemma_parse_entries_n_sorted(b, i, end, 0, hero_count as nat);
                if let Some((_, j)) = parse_entries_n(b, i, end, 0, hero_count as nat) {
                    lemma_parse_entries_to_end_sorted(b, j, end, 0);
                }
            }
        }
    }
}

/// A chunk run for a 32-bit value never exceeds five bytes.
proof fn lemma_chunks_len(v: u32)
    ensures
        chunks(v).len() <= 5,
{
    if v != 0 {
        let v1 = (v / 128) as u32;
        assert(chunks(v).len() == 1 + chunks(v1).len());
        if v1 != 0 {
            let v2 = (v1 / 128) as u32;
            assert(chunks(v1).len() == 1 + chunks(v2).len());
            if v2 != 0 {
                let v3 = (v2 / 128) as u32;
                assert(chunks(v2).len() == 1 + chunks(v3).len());
                if v3 != 0 {
                    let v4 = (v3 / 128) as u32;
                    assert(chunks(v3).len() == 1 + chunks(v4).len());
                    assert(v4 < 128);
                    if v4 != 0 {
                        assert((v4 / 128) as u32 == 0);
                        assert(chunks(0u32).len() == 0);
                        assert(chunks(v4).len() == 1);
                    }
                }
            }
        }
    }
}

/// No entry outgrows eleven bytes on the wire: one header byte, at
/// most five delta bytes, at most five count bytes. The bound the
/// encoder once had to assert at run time therefore holds of every
/// entry it can write.
pub proof fn lemma_entry_bytes_len(count: u32, delta: u32)
    ensures
        entry_bytes(count, delta).len() <= 11,
{
    lemma_chunks_len((delta / 32) as u32);
    lemma_chunks_len(count);
}

} // verus!
