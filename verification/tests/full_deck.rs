use artifact_serde::ser::Card;
use artifact_serde::ser::CardCount;
use artifact_serde::ser::CardReference;
use artifact_serde::ser::Deck;
use artifact_serde::ser::HeroCard;

fn hero(card_id: u32, turn: u32, references: Vec<u32>) -> HeroCard {
    HeroCard {
        card: Card {
            card_id,
            references: references
                .into_iter()
                .map(|card_id| CardReference { card_id })
                .collect(),
        },
        turn,
    }
}

fn card(card_id: u32, count: u32) -> CardCount {
    CardCount {
        card: Card {
            card_id,
            references: Vec::new(),
        },
        count,
    }
}

#[test]
fn encode_from_deck_drops_referenced_cards() {
    let full = Deck {
        heroes: vec![
            hero(4003, 1, vec![3000]),
            hero(10006, 1, vec![]),
            hero(10030, 2, vec![]),
            hero(10033, 2, vec![]),
            hero(10052, 3, vec![]),
        ],
        cards: vec![card(3000, 3), card(3005, 2), card(10102, 1)],
        name: String::from("Reference Test"),
    };
    let token = artifact_serde::ser::encode_from_deck(&full).unwrap();
    let decoded = artifact_serde::decode(token.as_str()).unwrap();
    let card_fields: Vec<(u32, u32)> = decoded.cards.iter().map(|c| (c.id, c.count)).collect();
    assert_eq!(card_fields, vec![(3005, 2), (10102, 1)]);
    assert_eq!(decoded.heroes.len(), 5);
    assert_eq!(decoded.name.as_str(), "Reference Test");
}

#[test]
fn encode_from_deck_rejects_all_cards_referenced() {
    let full = Deck {
        heroes: vec![
            hero(1, 1, vec![50]),
            hero(2, 1, vec![]),
            hero(3, 2, vec![]),
            hero(4, 2, vec![]),
            hero(5, 3, vec![]),
        ],
        cards: vec![card(50, 3)],
        name: String::new(),
    };
    assert!(matches!(
        artifact_serde::ser::encode_from_deck(&full),
        Err(artifact_serde::Error::Encode(_))
    ));
}
