use artifact_serde::de::DeserializedCard;
use artifact_serde::de::DeserializedDeck;
use artifact_serde::de::DeserializedHero;

const EXAMPLE: &str = "ADCJWkTZX05uwGDCRV4XQGy3QGLmqUBg4GQJgGLGgO7AaABR3JlZW4vQmxhY2sgRXhhbXBsZQ__";

fn deck(heroes: Vec<(u32, u32)>, cards: Vec<(u32, u32)>, name: &str) -> DeserializedDeck {
    let mut d = DeserializedDeck::new();
    for (id, turn) in heroes {
        d.heroes.push(DeserializedHero { id, turn });
    }
    for (id, count) in cards {
        d.cards.push(DeserializedCard { id, count });
    }
    d.name = String::from(name);
    d
}

#[test]
fn it_works() {
    assert_eq!(2 + 2, 4);
}

#[test]
fn decode_to_encode() {
    let mut deck = artifact_serde::decode(EXAMPLE).unwrap();
    let string = artifact_serde::ser::encode(&mut deck).unwrap();
    assert_eq!(string.as_str(), EXAMPLE);
}

#[test]
fn example_token_contents() {
    let deck = artifact_serde::decode(EXAMPLE).unwrap();
    assert_eq!(deck.heroes.len(), 5);
    assert!(deck.cards.len() > 0);
    assert_eq!(deck.name.as_str(), "Green/Black Example");
}

#[test]
fn reencode_twice_is_stable() {
    let mut d1 = artifact_serde::decode(EXAMPLE).unwrap();
    let t1 = artifact_serde::encode(&mut d1).unwrap();
    let mut d2 = artifact_serde::decode(t1.as_str()).unwrap();
    let t2 = artifact_serde::encode(&mut d2).unwrap();
    assert_eq!(t1, t2);
}

#[test]
fn round_trip_plain_deck() {
    let mut d = deck(
        vec![(10006, 2), (4003, 1), (10030, 3), (10033, 1), (10052, 2)],
        vec![(3001, 2), (3000, 3), (10102, 1)],
        "A Plain Deck",
    );
    let token = artifact_serde::encode(&mut d).unwrap();
    let back = artifact_serde::decode(token.as_str()).unwrap();
    let hero_fields: Vec<(u32, u32)> = back.heroes.iter().map(|h| (h.id, h.turn)).collect();
    let card_fields: Vec<(u32, u32)> = back.cards.iter().map(|c| (c.id, c.count)).collect();
    assert_eq!(
        hero_fields,
        vec![(4003, 1), (10006, 2), (10030, 3), (10033, 1), (10052, 2)]
    );
    assert_eq!(card_fields, vec![(3000, 3), (3001, 2), (10102, 1)]);
    assert_eq!(back.name.as_str(), "A Plain Deck");
}

#[test]
fn encode_sorts_in_place() {
    let mut d = deck(
        vec![(5, 1), (4, 1), (3, 1), (2, 1), (1, 1)],
        vec![(30, 1), (20, 2)],
        "",
    );
    artifact_serde::encode(&mut d).unwrap();
    let hero_ids: Vec<u32> = d.heroes.iter().map(|h| h.id).collect();
    let card_ids: Vec<u32> = d.cards.iter().map(|c| c.id).collect();
    assert_eq!(hero_ids, vec![1, 2, 3, 4, 5]);
    assert_eq!(card_ids, vec![20, 30]);
}

#[test]
fn round_trip_count_boundaries() {
    // Counts one to three ride inline in the header; four and more are
    // appended as a standalone integer. Both forms must decode back.
    let mut d = deck(
        vec![(1, 1), (2, 1), (3, 1), (4, 1), (5, 1)],
        vec![(100, 1), (101, 2), (102, 3), (103, 4), (104, 5), (105, 200)],
        "",
    );
    let token = artifact_serde::encode(&mut d).unwrap();
    let back = artifact_serde::decode(token.as_str()).unwrap();
    let card_fields: Vec<(u32, u32)> = back.cards.iter().map(|c| (c.id, c.count)).collect();
    assert_eq!(
        card_fields,
        vec![(100, 1), (101, 2), (102, 3), (103, 4), (104, 5), (105, 200)]
    );
}

#[test]
fn round_trip_delta_boundaries() {
    // An id delta of 31 fits the header's five inline bits; 32 needs a
    // continuation byte. The payload with the delta of 32 is one byte
    // longer, and both decode back to the ids they encoded.
    let mut d31 = deck(
        vec![(1, 1), (2, 1), (3, 1), (4, 1), (5, 1)],
        vec![(100, 1), (131, 1)],
        "",
    );
    let mut d32 = deck(
        vec![(1, 1), (2, 1), (3, 1), (4, 1), (5, 1)],
        vec![(100, 1), (132, 1)],
        "",
    );
    let t31 = artifact_serde::encode(&mut d31).unwrap();
    let t32 = artifact_serde::encode(&mut d32).unwrap();
    let p31 = token_payload(&t31);
    let p32 = token_payload(&t32);
    assert_eq!(p31.len() + 1, p32.len());
    let b31 = artifact_serde::decode(t31.as_str()).unwrap();
    let b32 = artifact_serde::decode(t32.as_str()).unwrap();
    assert_eq!(b31.cards[1].id, 131);
    assert_eq!(b32.cards[1].id, 132);
}

#[test]
fn round_trip_large_ids() {
    let mut d = deck(
        vec![(1, 1), (2, 2), (3, 3), (4, 1), (5, 2)],
        vec![(7, 1), (4294967295, 3)],
        "",
    );
    let token = artifact_serde::encode(&mut d).unwrap();
    let back = artifact_serde::decode(token.as_str()).unwrap();
    assert_eq!(back.cards[1].id, 4294967295);
    assert_eq!(back.cards[1].count, 3);
}

fn token_payload(token: &str) -> Vec<u8> {
    let stripped: String = token
        .strip_prefix("ADC")
        .unwrap()
        .chars()
        .map(|c| match c {
            '-' => '/',
            '_' => '=',
            other => other,
        })
        .collect();
    base64::decode(&stripped).unwrap()
}

#[test]
fn exact_payload_bytes() {
    // Version 2 and five heroes in the first byte, the checksum of the
    // entry section in the second, the name length in the third; then
    // one header byte per hero (turn code in the top two bits, delta in
    // the low five) and the single card.
    let mut d = deck(
        vec![(1, 1), (2, 1), (3, 1), (4, 1), (5, 1)],
        vec![(6, 1)],
        "",
    );
    let token = artifact_serde::encode(&mut d).unwrap();
    let payload = token_payload(&token);
    assert_eq!(
        payload,
        vec![0x25, 0x0B, 0x00, 0x01, 0x01, 0x01, 0x01, 0x01, 0x06]
    );
}

#[test]
fn exact_extended_count_bytes() {
    // A count of four sets both count bits and appends the count as a
    // standalone byte run.
    let mut d = deck(
        vec![(1, 1), (2, 1), (3, 1), (4, 1), (5, 1)],
        vec![(7, 4)],
        "",
    );
    let token = artifact_serde::encode(&mut d).unwrap();
    let payload = token_payload(&token);
    assert_eq!(
        payload,
        vec![0x25, 0xD0, 0x00, 0x01, 0x01, 0x01, 0x01, 0x01, 0xC7, 0x04]
    );
}

#[test]
fn flipped_entry_byte_is_rejected() {
    // The checksum covers the entry section: flipping any byte strictly
    // between the header and the name boundary must be caught.
    let payload = token_payload(EXAMPLE);
    assert!(artifact_serde::de::parse_deck_bytes(&payload).is_ok());
    let name_len = payload[2] as usize;
    let entries_end = payload.len() - name_len;
    for p in 3..entries_end {
        let mut tampered = payload.clone();
        tampered[p] ^= 0x01;
        assert!(artifact_serde::de::parse_deck_bytes(&tampered).is_err());
    }
}

#[test]
fn name_of_64_bytes_is_trimmed_to_63() {
    let long_name: String = std::iter::repeat('a').take(64).collect();
    let mut d = deck(
        vec![(1, 1), (2, 1), (3, 1), (4, 1), (5, 1)],
        vec![(9, 1)],
        long_name.as_str(),
    );
    let token = artifact_serde::encode(&mut d).unwrap();
    let back = artifact_serde::decode(token.as_str()).unwrap();
    assert_eq!(back.name.len(), 63);
    let expected: String = std::iter::repeat('a').take(63).collect();
    assert_eq!(back.name, expected);
}

#[test]
fn name_is_sanitized() {
    let mut d = deck(
        vec![(1, 1), (2, 1), (3, 1), (4, 1), (5, 1)],
        vec![(9, 1)],
        "<script>alert(1)</script>hello",
    );
    let token = artifact_serde::encode(&mut d).unwrap();
    let back = artifact_serde::decode(token.as_str()).unwrap();
    assert_eq!(back.name.as_str(), "hello");
}

#[test]
fn empty_deck_is_rejected() {
    let mut no_heroes = deck(vec![], vec![(9, 1)], "");
    assert!(matches!(
        artifact_serde::encode(&mut no_heroes),
        Err(artifact_serde::Error::Encode(_))
    ));
    let mut no_cards = deck(vec![(1, 1), (2, 1), (3, 1), (4, 1), (5, 1)], vec![], "");
    assert!(matches!(
        artifact_serde::encode(&mut no_cards),
        Err(artifact_serde::Error::Encode(_))
    ));
}

#[test]
fn wrong_hero_count_is_rejected() {
    let mut four = deck(vec![(1, 1), (2, 1), (3, 1), (4, 1)], vec![(9, 1)], "");
    assert!(matches!(
        artifact_serde::encode(&mut four),
        Err(artifact_serde::Error::Encode(_))
    ));
    let mut six = deck(
        vec![(1, 1), (2, 1), (3, 1), (4, 1), (5, 1), (6, 1)],
        vec![(9, 1)],
        "",
    );
    assert!(matches!(
        artifact_serde::encode(&mut six),
        Err(artifact_serde::Error::Encode(_))
    ));
}

#[test]
fn zero_count_is_rejected() {
    let mut zero_count = deck(
        vec![(1, 1), (2, 1), (3, 1), (4, 1), (5, 1)],
        vec![(9, 0)],
        "",
    );
    assert!(matches!(
        artifact_serde::encode(&mut zero_count),
        Err(artifact_serde::Error::Encode(_))
    ));
    let mut zero_turn = deck(
        vec![(1, 0), (2, 1), (3, 1), (4, 1), (5, 1)],
        vec![(9, 1)],
        "",
    );
    assert!(matches!(
        artifact_serde::encode(&mut zero_turn),
        Err(artifact_serde::Error::Encode(_))
    ));
}

#[test]
fn malformed_tokens_are_rejected() {
    assert!(matches!(
        artifact_serde::decode("ADC!!!not base64!!!"),
        Err(artifact_serde::Error::Decode(_))
    ));
    // A well-formed base64 text whose payload is shorter than a header.
    assert!(matches!(
        artifact_serde::decode("ADCJQ__"),
        Err(artifact_serde::Error::Decode(_))
    ));
    assert!(artifact_serde::de::parse_deck_bytes(&Vec::new()).is_err());
}

#[test]
fn truncated_payload_is_rejected() {
    let payload = token_payload(EXAMPLE);
    let cut: Vec<u8> = payload[..payload.len() - (payload[2] as usize) - 2].to_vec();
    assert!(artifact_serde::de::parse_deck_bytes(&cut).is_err());
}

#[test]
fn version1_payload_has_no_name_byte() {
    // Legacy layout: a two-byte header, no name-length byte and no
    // name; entries run to the end of the buffer.
    let payload: Vec<u8> = vec![
        0x15, // version 1, five heroes inline
        0x00, // checksum byte (not carried by version 1 decoding)
        0x01, 0x01, 0x01, 0x01, 0x01, // five heroes, delta 1, turn 1
        0x01, // one card, delta 1, count 1
    ];
    let deck = artifact_serde::de::parse_deck_bytes(&payload).unwrap();
    let hero_ids: Vec<u32> = deck.heroes.iter().map(|h| h.id).collect();
    assert_eq!(hero_ids, vec![1, 2, 3, 4, 5]);
    assert_eq!(deck.cards.len(), 1);
    assert_eq!(deck.cards[0].id, 1);
    assert_eq!(deck.cards[0].count, 1);
    assert_eq!(deck.name.as_str(), "");
}

#[test]
fn new_deck_is_empty() {
    let d = DeserializedDeck::new();
    assert_eq!(d.heroes.len(), 0);
    assert_eq!(d.cards.len(), 0);
    assert_eq!(d.name.len(), 0);
}

#[test]
fn decode_from_string_matches_decode() {
    let owned = String::from(EXAMPLE);
    let a = artifact_serde::de::decode_from_string(&owned).unwrap();
    let b = artifact_serde::decode(EXAMPLE).unwrap();
    assert_eq!(a.name, b.name);
    assert_eq!(a.heroes.len(), b.heroes.len());
    assert_eq!(a.cards.len(), b.cards.len());
}

#[test]
fn decode_without_prefix_is_tolerated() {
    let bare = &EXAMPLE[3..];
    let d = artifact_serde::decode(bare).unwrap();
    assert_eq!(d.name.as_str(), "Green/Black Example");
}
