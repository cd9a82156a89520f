use card_index::api::default_autocomplete_limit;
use card_index::api::default_condition;
use card_index::api::default_days;
use card_index::api::default_direction;
use card_index::api::default_limit;
use card_index::api::ApiResponse;
use card_index::api::SearchResponse;
use card_index::records::default_count;
use card_index::records::Ruling;
use card_index::records::SetInfo;

#[test]
fn request_defaults_match_the_documented_values() {
    assert_eq!(default_limit(), 50);
    assert_eq!(default_autocomplete_limit(), 10);
    assert_eq!(default_condition(), "Near Mint".to_string());
    assert_eq!(default_days(), 30);
    assert_eq!(default_direction(), "up".to_string());
    assert_eq!(default_count(), 1);
}

#[test]
fn response_envelope_marks_success_and_failure() {
    let ok: ApiResponse<u64> = ApiResponse::ok(7);
    assert!(ok.success);
    assert_eq!(ok.data, Some(7));
    assert!(ok.error.is_none());

    let err: ApiResponse<u64> = ApiResponse::error("store unreachable".to_string());
    assert!(!err.success);
    assert!(err.data.is_none());
    assert_eq!(err.error, Some("store unreachable".to_string()));
}

#[test]
fn record_types_hold_plain_values() {
    let set = SetInfo {
        code: "khm".to_string(),
        name: "Kaldheim".to_string(),
        release_date: "2021-02-05".to_string(),
        set_type: "expansion".to_string(),
        total_cards: 405,
        base_set_size: 285,
    };
    assert_eq!(set.code, "khm");
    let ruling = Ruling { date: "2021-02-05".to_string(), text: "Snow is a supertype.".to_string() };
    assert!(ruling.text.contains("supertype"));
    let resp = SearchResponse { query: "bolt".to_string(), count: 1, results: vec![1u64] };
    assert_eq!(resp.results.len(), resp.count);
}
