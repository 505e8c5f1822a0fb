use inkback::kalshi_feed::{decode_feed_message, feed_rows, FeedBookRow, FeedTradeRow};
use inkback::kalshi_json::JsonNode;

fn book_row(ticker: &str, seq: i64, price: i64, delta: i64, side: &str, msg_type: &str) -> FeedBookRow {
    FeedBookRow {
        client_ts: 1700,
        market_ticker: ticker.to_string(),
        seq,
        price,
        delta,
        side: side.to_string(),
        msg_type: msg_type.to_string(),
    }
}

#[test]
fn snapshot_gives_one_row_per_level_yes_side_first() {
    let text = r#"{"type":"orderbook_snapshot","sid":1,"seq":7,"msg":{"market_ticker":"KXA-1","yes":[[45,100],[46,50]],"no":[[52,30]]}}"#;
    let rows = decode_feed_message(text, 1700).unwrap();
    assert_eq!(
        rows.book,
        vec![
            book_row("KXA-1", 7, 45, 100, "yes", "snapshot"),
            book_row("KXA-1", 7, 46, 50, "yes", "snapshot"),
            book_row("KXA-1", 7, 52, 30, "no", "snapshot"),
        ]
    );
    assert!(rows.trades.is_empty());
}

#[test]
fn snapshot_skips_malformed_levels_and_missing_sides() {
    let text = r#"{"type":"orderbook_snapshot","seq":3,"msg":{"market_ticker":"KXB","yes":[[45],"x",[47,"9"],[48,2]]}}"#;
    let rows = decode_feed_message(text, 1700).unwrap();
    assert_eq!(rows.book, vec![book_row("KXB", 3, 48, 2, "yes", "snapshot")]);
}

#[test]
fn snapshot_without_seq_gives_nothing() {
    let text = r#"{"type":"orderbook_snapshot","msg":{"market_ticker":"KXB","yes":[[45,1]]}}"#;
    let rows = decode_feed_message(text, 1700).unwrap();
    assert!(rows.book.is_empty());
    assert!(rows.trades.is_empty());
}

#[test]
fn delta_gives_one_row_with_defaults_for_missing_members() {
    let text = r#"{"type":"orderbook_delta","seq":12,"msg":{"market_ticker":"KXC","price":44,"delta":-25,"side":"no"}}"#;
    let rows = decode_feed_message(text, 1700).unwrap();
    assert_eq!(rows.book, vec![book_row("KXC", 12, 44, -25, "no", "delta")]);

    let sparse = r#"{"type":"orderbook_delta","seq":13,"msg":{}}"#;
    let rows = decode_feed_message(sparse, 1700).unwrap();
    assert_eq!(rows.book, vec![book_row("", 13, 0, 0, "", "delta")]);
}

#[test]
fn trade_gives_one_trade_row() {
    let text = r#"{"type":"trade","msg":{"market_ticker":"KXD","yes_price":36,"no_price":64,"count":136,"taker_side":"no","ts":1669149841}}"#;
    let rows = decode_feed_message(text, 1700).unwrap();
    assert!(rows.book.is_empty());
    assert_eq!(
        rows.trades,
        vec![FeedTradeRow {
            client_ts: 1700,
            server_ts: 1669149841,
            market_ticker: "KXD".to_string(),
            yes_price: 36,
            no_price: 64,
            count: 136,
            taker_side: "no".to_string(),
        }]
    );
}

#[test]
fn other_messages_give_no_rows() {
    let rows = decode_feed_message(r#"{"type":"subscribed","id":1,"msg":{"channel":"trade","sid":1}}"#, 5).unwrap();
    assert!(rows.book.is_empty() && rows.trades.is_empty());
    let rows = decode_feed_message("[1,2,3]", 5).unwrap();
    assert!(rows.book.is_empty() && rows.trades.is_empty());
}

#[test]
fn text_that_is_not_json_is_refused() {
    assert!(decode_feed_message("not json", 5).is_none());
    assert!(decode_feed_message("", 5).is_none());
}

#[test]
fn rows_follow_a_node_built_by_hand() {
    let top = JsonNode {
        text: None,
        int: None,
        uint: None,
        items: None,
        fields: Some(vec![
            ("msg".to_string(), r#"{"market_ticker":"KXE","price":3,"delta":4,"side":"yes"}"#.to_string()),
            ("seq".to_string(), "21".to_string()),
            ("type".to_string(), "\"orderbook_delta\"".to_string()),
        ]),
    };
    let rows = feed_rows(&top, 9);
    assert_eq!(
        rows.book,
        vec![FeedBookRow {
            client_ts: 9,
            market_ticker: "KXE".to_string(),
            seq: 21,
            price: 3,
            delta: 4,
            side: "yes".to_string(),
            msg_type: "delta".to_string(),
        }]
    );
    assert!(rows.trades.is_empty());
}
