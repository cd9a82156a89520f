use card_index::deck::board_count;
use card_index::deck::choose_commanders;
use card_index::deck::deck_is_commander;
use card_index::deck::deck_uuid;
use card_index::deck::deck_value;
use card_index::deck::size_bucket;
use card_index::deck::size_bucket_label;
use card_index::deck::unique_card_count;
use card_index::deck::CardLine;
use card_index::deck::DeckCardInfo;
use card_index::deck::PriceTiers;
use card_index::deck::SizeBucket;

fn line(count: u32, market: Option<u64>) -> CardLine {
    CardLine {
        count,
        price: market.map(|c| PriceTiers {
            market_cents: Some(c),
            direct_cents: None,
            low_cents: None,
        }),
    }
}

fn card(uuid: &str, name: &str, count: u32) -> DeckCardInfo {
    DeckCardInfo {
        uuid: uuid.to_string(),
        name: name.to_string(),
        count,
        is_foil: false,
        set_code: "tst".to_string(),
        tcgplayer_product_id: None,
    }
}

#[test]
fn deck_value_weights_by_count_and_tallies_unpriced() {
    // 4 copies of a card at 10.00 market plus 1 unpriced copy
    let lines = vec![line(4, Some(1000)), line(1, None)];
    let v = deck_value(&lines);
    assert_eq!(v.market_total, 4000);
    assert_eq!(v.cards_with_pricing, 4);
    assert_eq!(v.cards_without_pricing, 1);
    assert_eq!(v.direct_total, 0);
    assert_eq!(v.low_total, 0);
}

#[test]
fn absent_tier_does_not_block_the_others() {
    let lines = vec![CardLine {
        count: 2,
        price: Some(PriceTiers {
            market_cents: None,
            direct_cents: Some(300),
            low_cents: Some(250),
        }),
    }];
    let v = deck_value(&lines);
    assert_eq!(v.market_total, 0);
    assert_eq!(v.direct_total, 600);
    assert_eq!(v.low_total, 500);
    assert_eq!(v.cards_with_pricing, 2);
    assert_eq!(v.cards_without_pricing, 0);
}

#[test]
fn deck_value_of_empty_deck_is_zero() {
    let v = deck_value(&Vec::new());
    assert_eq!(v.market_total, 0);
    assert_eq!(v.cards_with_pricing, 0);
    assert_eq!(v.cards_without_pricing, 0);
}

#[test]
fn deck_uuid_is_deterministic_and_derived() {
    let a = deck_uuid("C21", "Lorehold Legacies");
    let b = deck_uuid("C21", "Lorehold Legacies");
    assert_eq!(a, b);
    assert_ne!(a, deck_uuid("C21", "Prismari Performance"));
    assert_ne!(a, deck_uuid("C20", "Lorehold Legacies"));
    assert!(a.starts_with("deck_"));
    assert_eq!(a.len(), 41);
}

#[test]
fn size_buckets_match_count_ranges() {
    assert_eq!(size_bucket(0), SizeBucket::Small);
    assert_eq!(size_bucket(40), SizeBucket::Small);
    assert_eq!(size_bucket(41), SizeBucket::Standard);
    assert_eq!(size_bucket(60), SizeBucket::Standard);
    assert_eq!(size_bucket(61), SizeBucket::Large);
    assert_eq!(size_bucket(99), SizeBucket::Large);
    assert_eq!(size_bucket(100), SizeBucket::EdhPlus);
    assert_eq!(size_bucket_label(SizeBucket::EdhPlus), "edh_plus");
    assert_eq!(size_bucket_label(SizeBucket::Small), "small");
}

#[test]
fn commander_flag_and_display_preference() {
    let empty: Vec<DeckCardInfo> = Vec::new();
    let plain = vec![card("u1", "Osgir", 1)];
    let display = vec![card("u2", "Osgir, the Reconstructor", 1)];
    assert!(!deck_is_commander(&empty, &empty));
    assert!(deck_is_commander(&plain, &empty));
    assert!(deck_is_commander(&empty, &display));
    let chosen = choose_commanders(&plain, &display);
    assert_eq!(chosen[0].uuid, "u2");
    let fallback = choose_commanders(&plain, &empty);
    assert_eq!(fallback[0].uuid, "u1");
}

#[test]
fn board_count_weights_by_count() {
    let cards = vec![card("a", "A", 4), card("b", "B", 1), card("c", "C", 2)];
    assert_eq!(board_count(&cards), 7);
    assert_eq!(board_count(&Vec::new()), 0);
}

#[test]
fn unique_card_count_dedupes_by_uuid() {
    let cards = vec![
        card("a", "A", 4),
        card("b", "B", 1),
        card("a", "A", 2),
        card("c", "C", 1),
    ];
    assert_eq!(unique_card_count(&cards), 3);
    assert_eq!(unique_card_count(&Vec::new()), 0);
}

#[test]
fn deck_value_saturates_instead_of_wrapping() {
    let lines = vec![line(2, Some(u64::MAX)), line(1, Some(1000))];
    let v = deck_value(&lines);
    assert_eq!(v.market_total, u64::MAX);
    assert_eq!(v.cards_with_pricing, 3);
}
