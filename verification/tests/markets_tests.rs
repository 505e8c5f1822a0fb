use inkback::kalshi_markets::{decode_markets_page, last_page, market_listed};

#[test]
fn a_page_gives_its_tickers_and_cursor() {
    let body = r#"{"cursor":"abc","markets":[{"ticker":"KXA-1","title":"x"},{"title":"no ticker"},{"ticker":7},{"ticker":"KXB-2"}]}"#;
    assert_eq!(
        decode_markets_page(body),
        Some((vec!["KXA-1".to_string(), "KXB-2".to_string()], Some("abc".to_string())))
    );
    assert_eq!(decode_markets_page(r#"{"markets":[]}"#), Some((vec![], None)));
    assert_eq!(decode_markets_page(r#"{"cursor":"abc"}"#), None);
    assert_eq!(decode_markets_page(r#"{"markets":{}}"#), None);
    assert_eq!(decode_markets_page("not json"), None);
}

#[test]
fn paging_ends_without_a_cursor() {
    assert!(last_page(&None));
    assert!(last_page(&Some(String::new())));
    assert!(!last_page(&Some("next".to_string())));
}

#[test]
fn a_listing_names_a_market_when_its_array_is_not_empty() {
    assert!(market_listed(r#"{"markets":[{"ticker":"KXA-1"}]}"#));
    assert!(!market_listed(r#"{"markets":[]}"#));
    assert!(!market_listed(r#"{"error":"x"}"#));
    assert!(!market_listed("<html>"));
}
