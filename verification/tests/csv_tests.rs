use inkback::kalshi_csv_io::{
    find_column, json_array_levels, parse_csv_table, parse_orderbook_bytes, parse_trades_bytes, parse_i64, parse_levels_text, parse_orderbook_record, parse_side,
    parse_trade_record, parse_u64, parse_u8, CsvError,
};
use inkback::kalshi_types::Side;

fn strings(v: &[&str]) -> Vec<String> {
    v.iter().map(|s| s.to_string()).collect()
}

#[test]
fn test_parse_orderbook_snapshot() {
    let headers = strings(&["seq", "client_ts", "ticker", "msg_type", "yes_levels", "no_levels"]);
    let record = strings(&[
        "1",
        "1640995200000",
        "TEST-CONTRACT",
        "snapshot",
        "[{\"price\":50,\"quantity\":100}]",
        "[{\"price\":51,\"quantity\":200}]",
    ]);
    let row = parse_orderbook_record(&headers, &record).unwrap();
    assert_eq!(row.seq, 1);
    assert_eq!(row.ticker, "TEST-CONTRACT");
    assert_eq!(row.msg_type, "snapshot");
    assert!(row.yes_levels.is_some());
    assert!(row.no_levels.is_some());
    assert_eq!(row.yes_levels, Some(vec![(50, 100)]));
    assert_eq!(row.no_levels, Some(vec![(51, 200)]));
}

#[test]
fn test_parse_orderbook_delta() {
    let headers = strings(&["seq", "client_ts", "ticker", "msg_type", "side", "price", "quantity"]);
    let record = strings(&["2", "1640995201000", "TEST-CONTRACT", "delta", "yes", "50", "10"]);
    let row = parse_orderbook_record(&headers, &record).unwrap();
    assert_eq!(row.seq, 2);
    assert_eq!(row.ticker, "TEST-CONTRACT");
    assert_eq!(row.msg_type, "delta");
    assert_eq!(row.side, Some(Side::Yes));
    assert_eq!(row.price, Some(50));
    assert_eq!(row.quantity, Some(10));
}

#[test]
fn test_parse_trades() {
    let headers = strings(&["seq", "client_ts", "ticker", "yes_price", "no_price", "quantity", "taker"]);
    let record = strings(&["3", "1640995202000", "TEST-CONTRACT", "50", "50", "25", "yes"]);
    let row = parse_trade_record(&headers, &record).unwrap();
    assert_eq!(row.seq, 3);
    assert_eq!(row.ticker, "TEST-CONTRACT");
    assert_eq!(row.yes_price, 50);
    assert_eq!(row.no_price, 50);
    assert_eq!(row.qty, 25);
    assert_eq!(row.taker, Side::Yes);
}

#[test]
fn decimal_parsing_follows_str_parse() {
    assert_eq!(parse_u64("0"), Some(0));
    assert_eq!(parse_u64("+42"), Some(42));
    assert_eq!(parse_u64("18446744073709551615"), Some(u64::MAX));
    assert_eq!(parse_u64("18446744073709551616"), None);
    assert_eq!(parse_u64("-1"), None);
    assert_eq!(parse_u64(""), None);
    assert_eq!(parse_u64("+"), None);
    assert_eq!(parse_u64(" 1"), None);
    assert_eq!(parse_u8("255"), Some(255));
    assert_eq!(parse_u8("256"), None);
    assert_eq!(parse_i64("-9223372036854775808"), Some(i64::MIN));
    assert_eq!(parse_i64("9223372036854775807"), Some(i64::MAX));
    assert_eq!(parse_i64("9223372036854775808"), None);
    assert_eq!(parse_i64("-12"), Some(-12));
    assert_eq!(parse_i64("+12"), Some(12));
    assert_eq!(parse_i64("-"), None);
    assert_eq!(parse_i64("1a"), None);
    for s in ["7", "123", "+9", "-0", "00012", "99999999999999999999", "x"] {
        assert_eq!(parse_u64(s), s.parse::<u64>().ok());
        assert_eq!(parse_i64(s), s.parse::<i64>().ok());
        assert_eq!(parse_u8(s), s.parse::<u8>().ok());
    }
}

#[test]
fn sides_are_read_in_any_case() {
    assert_eq!(parse_side("yes"), Some(Side::Yes));
    assert_eq!(parse_side("YES"), Some(Side::Yes));
    assert_eq!(parse_side("No"), Some(Side::No));
    assert_eq!(parse_side("maybe"), None);
    assert_eq!(parse_side("ye"), None);
}

#[test]
fn columns_are_found_by_any_accepted_name() {
    let headers = strings(&["a", "market_ticker", "ticker"]);
    assert_eq!(find_column(&headers, &strings(&["ticker", "market_ticker"])), Some(1));
    assert_eq!(find_column(&headers, &strings(&["b"])), None);
}

#[test]
fn levels_text_in_both_formats() {
    assert_eq!(parse_levels_text(""), Ok(vec![]));
    assert_eq!(
        parse_levels_text("[{\"price\":50,\"quantity\":100},{\"price\":48,\"quantity\":-3},7]"),
        Ok(vec![(50, 100), (48, -3)])
    );
    // The price is cut to its low byte.
    assert_eq!(parse_levels_text("[{\"price\":300,\"quantity\":1}]"), Ok(vec![(44, 1)]));
    // A JSON value other than an array has no levels.
    assert_eq!(parse_levels_text("{\"price\":50}"), Ok(vec![]));
    assert_eq!(parse_levels_text("[{\"price\":50}]"), Err(CsvError::InvalidLevel));
    assert_eq!(parse_levels_text("[{\"price\":-1,\"quantity\":1}]"), Err(CsvError::InvalidLevel));
    assert_eq!(parse_levels_text("50:100, 51 : 200,junk,1:2:3"), Ok(vec![(50, 100), (51, 200)]));
    assert_eq!(parse_levels_text("50:x"), Err(CsvError::InvalidNumber));
    assert_eq!(parse_levels_text("300:1"), Err(CsvError::InvalidNumber));
}

#[test]
fn record_errors() {
    let headers = strings(&["seq", "client_ts", "ticker", "msg_type", "side", "price", "quantity"]);
    // A missing column.
    let short_headers = strings(&["seq", "client_ts", "ticker"]);
    let record = strings(&["2", "1", "T", "delta", "yes", "50", "10"]);
    assert_eq!(parse_orderbook_record(&short_headers, &record).unwrap_err(), CsvError::MissingColumn);
    // A missing field.
    assert_eq!(parse_orderbook_record(&headers, &strings(&["2", "1", "T", "delta", "yes"])).unwrap_err(), CsvError::MissingField);
    // A bad number.
    assert_eq!(parse_orderbook_record(&headers, &strings(&["x", "1", "T", "delta", "yes", "50", "10"])).unwrap_err(), CsvError::InvalidNumber);
    // A bad side.
    assert_eq!(parse_orderbook_record(&headers, &strings(&["2", "1", "T", "delta", "up", "50", "10"])).unwrap_err(), CsvError::InvalidSide);
    // An unknown message type.
    assert_eq!(parse_orderbook_record(&headers, &strings(&["2", "1", "T", "trade", "yes", "50", "10"])).unwrap_err(), CsvError::UnknownMsgType);
    // A snapshot row without level columns reads one level.
    let row = parse_orderbook_record(&headers, &strings(&["2", "1", "T", "snapshot", "No", "51", "-4"])).unwrap();
    assert_eq!((row.side, row.price, row.quantity, row.yes_levels), (Some(Side::No), Some(51), Some(-4), None));
}

#[test]
fn trade_without_seq_column_uses_client_time() {
    let headers = strings(&["client_ts", "market_ticker", "yes_price", "no_price", "count", "taker_side"]);
    let row = parse_trade_record(&headers, &strings(&["77", "M", "40", "60", "3", "NO"])).unwrap();
    assert_eq!((row.seq, row.ts, row.qty, row.taker), (77, 77, 3, Side::No));
    assert_eq!(row.ticker, "M");
}

#[test]
fn json_array_levels_reads_objects_and_skips_the_rest() {
    assert_eq!(
        json_array_levels(&strings(&["{\"quantity\":5,\"price\":61}", "7", "[1,2]", "{\"price\":62,\"quantity\":-1}"])),
        Ok(vec![(61, 5), (62, -1)])
    );
    assert_eq!(json_array_levels(&strings(&["{\"price\":\"61\",\"quantity\":5}"])), Err(CsvError::InvalidLevel));
    assert_eq!(json_array_levels(&Vec::new()), Ok(vec![]));
}

#[test]
fn orderbook_and_trade_files_parse_from_bytes() {
    let ob = b"seq,client_ts,ticker,msg_type,yes_levels,no_levels\n1,1000,T,snapshot,45:100,55:100\n3,3000,T,snapshot,46:150,54:150\n";
    let rows = parse_orderbook_bytes(ob).unwrap();
    assert_eq!(rows.len(), 2);
    assert_eq!((rows[0].seq, rows[0].ts), (1, 1000));
    assert_eq!(rows[1].yes_levels, Some(vec![(46, 150)]));
    let tr = b"seq,client_ts,ticker,yes_price,no_price,count,taker_side\n2,2000,T,46,54,25,yes\n";
    let trades = parse_trades_bytes(tr).unwrap();
    assert_eq!(trades.len(), 1);
    assert_eq!((trades[0].yes_price, trades[0].no_price, trades[0].qty, trades[0].taker), (46, 54, 25, Side::Yes));
}

#[test]
fn byte_parsing_reports_the_first_error() {
    // A record the reader refuses (wrong field count) gives Malformed ...
    let bad = b"seq,client_ts,ticker,yes_price,no_price,count,taker_side\n2,2000,T,46,54,25,yes\n3,3000\n";
    assert_eq!(parse_trades_bytes(bad), Err(CsvError::Malformed));
    // ... unless an earlier record was refused first.
    let earlier = b"seq,client_ts,ticker,yes_price,no_price,count,taker_side\nx,2000,T,46,54,25,yes\n3,3000\n";
    assert_eq!(parse_trades_bytes(earlier), Err(CsvError::InvalidNumber));
    assert_eq!(parse_csv_table(b"a,b\n1,2\n"), Ok((strings(&["a", "b"]), vec![strings(&["1", "2"])])));
    assert_eq!(parse_csv_table(b"a,b\n1\n"), Err(CsvError::Malformed));
    assert_eq!(parse_orderbook_bytes(b"seq,client_ts\n"), Ok(vec![]));
}

#[test]
fn a_level_object_node_gives_its_level() {
    use_node_level();
}

fn use_node_level() {
    let node = inkback::kalshi_json::JsonNode {
        text: None,
        int: None,
        uint: None,
        items: None,
        fields: Some(vec![("price".to_string(), "300".to_string()), ("quantity".to_string(), "-4".to_string())]),
    };
    assert_eq!(inkback::kalshi_csv_io::level_of_node(&node), Some(Ok((44, -4))));
    let scalar = inkback::kalshi_json::JsonNode { text: None, int: Some(7), uint: Some(7), items: None, fields: None };
    assert_eq!(inkback::kalshi_csv_io::level_of_node(&scalar), None);
    let missing = inkback::kalshi_json::JsonNode { text: None, int: None, uint: None, items: None, fields: Some(vec![]) };
    assert_eq!(inkback::kalshi_csv_io::level_of_node(&missing), Some(Err(CsvError::InvalidLevel)));
}
