use inkback::kalshi_backtest::{aggregate_metrics, rank_by_pnl, MarketTotals};
use inkback::kalshi_files::{
    extract_timestamp_pattern, format_timestamp, market_rows, markets_with_prefix, parse_market_list,
};
use inkback::kalshi_types::Metrics;

fn strings(v: &[&str]) -> Vec<String> {
    v.iter().map(|s| s.to_string()).collect()
}

#[test]
fn timestamp_pattern_of_data_files() {
    assert_eq!(extract_timestamp_pattern("orderbook_20250723_135706.csv"), Some("20250723_135706".to_string()));
    assert_eq!(extract_timestamp_pattern("trades_x_20250723_135706.csv"), Some("20250723_135706".to_string()));
    assert_eq!(extract_timestamp_pattern("orderbook_20250723.csv"), None);
    assert_eq!(extract_timestamp_pattern("a_b.csv_c.csv"), Some("b_c".to_string()));
}

#[test]
fn timestamps_for_display() {
    assert_eq!(format_timestamp(1_700_000_000_123), "123ms");
    assert_eq!(format_timestamp(1_700_000_000_000), "0ms");
    assert_eq!(format_timestamp(1_000_000_000_000), "1000000000000s");
    assert_eq!(format_timestamp(42), "42s");
    assert_eq!(format_timestamp(0), "0s");
}

#[test]
fn records_of_one_market() {
    let headers = strings(&["client_ts", "market_ticker", "seq"]);
    let records = vec![
        strings(&["1", "A", "1"]),
        strings(&["2", "B", "2"]),
        strings(&["3"]),
        strings(&["4", "A", "4"]),
    ];
    assert_eq!(market_rows(&headers, &records, &"A".to_string()), Ok(vec![0, 3]));
    assert!(market_rows(&strings(&["x"]), &records, &"A".to_string()).is_err());
}

#[test]
fn market_lists_skip_blanks_and_comments() {
    let content = "  KX-1 \n\n# a comment\nKX-2\r\n   \n";
    assert_eq!(parse_market_list(content), strings(&["KX-1", "KX-2"]));
}

#[test]
fn markets_by_prefix() {
    let markets = strings(&["KXMLB-1", "KXNFL-2", "KXMLB-3", "KX"]);
    assert_eq!(markets_with_prefix(&markets, "KXMLB"), strings(&["KXMLB-1", "KXMLB-3"]));
    assert_eq!(markets_with_prefix(&markets, ""), markets);
}

fn metrics(pnl: i64, volume: i64, fills: usize, orders: usize) -> Metrics {
    Metrics {
        gross_pnl_cents: pnl,
        num_spreads: 0,
        volume_traded: volume,
        total_fills: fills,
        total_orders: orders,
        cancelled_orders: 1,
        expired_orders: 2,
    }
}

#[test]
fn aggregated_metrics_over_markets() {
    let ms = vec![metrics(100, 10, 2, 5), metrics(-50, 20, 1, 3), metrics(100, 5, 4, 4), metrics(-50, 0, 0, 1)];
    assert_eq!(
        aggregate_metrics(&ms),
        Some(MarketTotals {
            total_markets: 4,
            profitable_markets: 2,
            total_gross_pnl_cents: 100,
            total_volume: 35,
            total_fills: 7,
            total_orders: 13,
            total_cancelled: 4,
            total_expired: 8,
            best_market: Some(0),
            worst_market: Some(1),
        })
    );
    let empty = aggregate_metrics(&vec![]).unwrap();
    assert_eq!((empty.total_markets, empty.best_market, empty.worst_market), (0, None, None));
    assert_eq!(aggregate_metrics(&vec![metrics(i64::MAX, 0, 0, 0), metrics(1, 0, 0, 0)]), None);
}

#[test]
fn markets_rank_by_profit_with_ties_in_given_order() {
    let ms = vec![metrics(100, 10, 2, 5), metrics(-50, 20, 1, 3), metrics(300, 5, 4, 4), metrics(100, 0, 0, 1), metrics(-50, 0, 0, 1)];
    assert_eq!(rank_by_pnl(&ms), vec![2, 0, 3, 1, 4]);
    assert_eq!(rank_by_pnl(&vec![]), Vec::<usize>::new());
}

#[test]
fn available_markets_are_read_from_both_files() {
    let ob = b"seq,client_ts,ticker,msg_type\n1,1,KXB,snapshot\n2,2,KXA,delta\n3,3,KXB,delta\n";
    let tr = b"seq,client_ts,market_ticker,yes_price\n4,4,KXC,50\n5,5,KXA,51\n";
    assert_eq!(
        inkback::kalshi_files::available_markets(ob, tr),
        Ok(vec!["KXB".to_string(), "KXA".to_string(), "KXC".to_string()])
    );
    // A file without a ticker column names no market.
    assert_eq!(inkback::kalshi_files::available_markets(b"a,b\n1,2\n", tr), Ok(vec!["KXC".to_string(), "KXA".to_string()]));
    // An unreadable record among the first ones is refused.
    assert_eq!(
        inkback::kalshi_files::available_markets(b"ticker,b\nX,1\nY\n", tr),
        Err(inkback::kalshi_csv_io::CsvError::Malformed)
    );
}
