use card_index::pricing::best_sku;
use card_index::pricing::is_english;
use card_index::pricing::is_near_mint;
use card_index::pricing::price_bucket;
use card_index::pricing::price_bucket_label;
use card_index::pricing::rarity_weight;
use card_index::pricing::resolve_price;
use card_index::pricing::select_price;
use card_index::pricing::sku_matches_filter;
use card_index::pricing::value_bucket;
use card_index::pricing::value_bucket_label;
use card_index::pricing::PriceBucket;
use card_index::pricing::PriceRecord;
use card_index::pricing::TcgplayerSku;
use card_index::pricing::ValueBucket;

fn sku(pid: u64, sid: u64, cond: Option<&str>, lang: Option<&str>) -> TcgplayerSku {
    TcgplayerSku {
        product_id: pid,
        sku_id: sid,
        condition: cond.map(|s| s.to_string()),
        language: lang.map(|s| s.to_string()),
        printing: None,
    }
}

fn record(cond: &str, market: Option<u64>) -> PriceRecord {
    PriceRecord {
        condition: cond.to_string(),
        market_cents: market,
        direct_cents: None,
        low_cents: None,
    }
}

#[test]
fn condition_and_language_synonyms() {
    assert!(is_near_mint("Near Mint"));
    assert!(is_near_mint("near mint"));
    assert!(is_near_mint("NM"));
    assert!(is_near_mint("nm"));
    assert!(is_near_mint("1"));
    assert!(!is_near_mint("Lightly Played"));
    assert!(is_english("English"));
    assert!(is_english("ENGLISH"));
    assert!(is_english("1"));
    assert!(!is_english("Japanese"));
}

#[test]
fn best_sku_prefers_first_near_mint_english() {
    let skus = vec![
        sku(1, 10, Some("Lightly Played"), Some("English")),
        sku(1, 11, Some("nm"), Some("1")),
        sku(1, 12, Some("Near Mint"), Some("English")),
    ];
    assert_eq!(best_sku(&skus), Some(1));
}

#[test]
fn best_sku_falls_back_to_first_sku() {
    let skus = vec![
        sku(1, 10, Some("Lightly Played"), Some("English")),
        sku(1, 11, Some("Moderately Played"), Some("Japanese")),
    ];
    assert_eq!(best_sku(&skus), Some(0));
    assert_eq!(best_sku(&Vec::new()), None);
}

#[test]
fn best_sku_needs_both_condition_and_language() {
    let skus = vec![
        sku(1, 10, Some("Near Mint"), None),
        sku(1, 11, None, Some("English")),
        sku(1, 12, Some("Near Mint"), Some("English")),
    ];
    assert_eq!(best_sku(&skus), Some(2));
}

#[test]
fn select_price_matches_condition_case_insensitively() {
    let prices = vec![record("Moderately Played", Some(100)), record("NEAR MINT", Some(500))];
    assert_eq!(select_price(&prices, "near mint"), Some(1));
    // no match falls back to the first record
    assert_eq!(select_price(&prices, "Damaged"), Some(0));
    assert_eq!(select_price(&Vec::new(), "Near Mint"), None);
}

#[test]
fn exact_condition_match_beats_near_mint_preference() {
    // A card with exactly one Lightly Played SKU and one Lightly Played
    // record resolves to that record, though it is not Near Mint.
    let skus = vec![sku(1, 10, Some("Lightly Played"), Some("English"))];
    let prices = vec![record("Lightly Played", Some(725))];
    assert_eq!(resolve_price(&prices, &skus), Some(0));
}

#[test]
fn resolve_price_without_records_is_unpriced() {
    let skus = vec![sku(1, 10, Some("Near Mint"), Some("English"))];
    assert_eq!(resolve_price(&Vec::new(), &skus), None);
}

#[test]
fn resolve_price_without_skus_uses_first_record() {
    let prices = vec![record("Moderately Played", Some(100)), record("Near Mint", Some(500))];
    assert_eq!(resolve_price(&prices, &Vec::new()), Some(0));
}

#[test]
fn resolve_price_matches_chosen_sku_condition() {
    let skus = vec![
        sku(1, 10, Some("Lightly Played"), Some("Japanese")),
        sku(1, 11, Some("Near Mint"), Some("English")),
    ];
    let prices = vec![
        record("Lightly Played", Some(100)),
        record("Near Mint", Some(500)),
    ];
    assert_eq!(resolve_price(&prices, &skus), Some(1));
}

#[test]
fn resolve_price_sku_without_condition_asks_for_near_mint() {
    let skus = vec![sku(1, 10, None, None)];
    let prices = vec![record("Damaged", Some(50)), record("Near Mint", Some(500))];
    assert_eq!(resolve_price(&prices, &skus), Some(1));
}

#[test]
fn price_bucket_boundary_belongs_to_higher_bucket() {
    // exactly 50.00 maps to 50_to_100, not 25_to_50
    assert_eq!(price_bucket(5000), PriceBucket::From50To100);
    assert_eq!(price_bucket_label(price_bucket(5000)), "50_to_100");
    assert_eq!(price_bucket(4999), PriceBucket::From25To50);
}

#[test]
fn price_buckets_cover_all_ranges() {
    assert_eq!(price_bucket(99), PriceBucket::Under1);
    assert_eq!(price_bucket(100), PriceBucket::From1To5);
    assert_eq!(price_bucket(500), PriceBucket::From5To10);
    assert_eq!(price_bucket(1000), PriceBucket::From10To25);
    assert_eq!(price_bucket(2500), PriceBucket::From25To50);
    assert_eq!(price_bucket(10000), PriceBucket::From100To500);
    assert_eq!(price_bucket(50000), PriceBucket::Over500);
    assert_eq!(price_bucket_label(PriceBucket::Under1), "under_1");
    assert_eq!(price_bucket_label(PriceBucket::Over500), "over_500");
}

#[test]
fn value_buckets_cover_all_ranges() {
    assert_eq!(value_bucket(2499), ValueBucket::Under25);
    assert_eq!(value_bucket(2500), ValueBucket::From25To50);
    assert_eq!(value_bucket(5000), ValueBucket::From50To100);
    assert_eq!(value_bucket(10000), ValueBucket::From100To200);
    assert_eq!(value_bucket(20000), ValueBucket::From200To500);
    assert_eq!(value_bucket(50000), ValueBucket::Over500);
    assert_eq!(value_bucket_label(ValueBucket::Under25), "under_25");
    assert_eq!(value_bucket_label(ValueBucket::From200To500), "200_to_500");
}

#[test]
fn rarity_weights_are_static_priorities() {
    assert_eq!(rarity_weight("mythic"), 10);
    assert_eq!(rarity_weight("rare"), 8);
    assert_eq!(rarity_weight("uncommon"), 5);
    assert_eq!(rarity_weight("common"), 3);
    assert_eq!(rarity_weight("special"), 1);
    assert_eq!(rarity_weight(""), 1);
}

#[test]
fn ingest_filter_accepts_synonyms_and_stripped_conditions() {
    let s = |cond: Option<&str>, lang: Option<&str>| sku(1, 10, cond, lang);
    // plain case-insensitive match
    assert!(sku_matches_filter(&s(Some("Near Mint"), Some("English")), "english", "near mint"));
    // space-stripped condition form
    assert!(sku_matches_filter(&s(Some("NearMint"), Some("English")), "english", "near mint"));
    // degenerate marketplace forms
    assert!(sku_matches_filter(&s(Some("nm"), Some("1")), "english", "near mint"));
    assert!(sku_matches_filter(&s(Some("1"), Some("English")), "english", "near mint"));
    // the synonyms apply only to the Near Mint filter
    assert!(!sku_matches_filter(&s(Some("nm"), Some("English")), "english", "lightly played"));
    assert!(sku_matches_filter(
        &s(Some("LightlyPlayed"), Some("English")),
        "english",
        "lightly played"
    ));
    // wrong language and missing fields are rejected
    assert!(!sku_matches_filter(&s(Some("Near Mint"), Some("Japanese")), "english", "near mint"));
    assert!(!sku_matches_filter(&s(None, Some("English")), "english", "near mint"));
    assert!(!sku_matches_filter(&s(Some("Near Mint"), None), "english", "near mint"));
}
