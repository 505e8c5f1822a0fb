use inkback::kalshi_exec_sim::Engine;
use inkback::kalshi_l2_book::{update_book_with_event, OrderBook};
use inkback::kalshi_types::{Event, Side};

#[test]
fn test_orderbook_snapshot() {
    let mut book = OrderBook::new();

    let yes_levels = vec![(48, 100), (47, 200)];
    let no_levels = vec![(52, 150), (53, 250)];

    book.apply_snapshot(yes_levels, no_levels, 1000);

    let (bid, ask) = book.best_bid_ask();
    assert_eq!(bid, 48); // Highest YES price
    assert_eq!(ask, 52); // Lowest NO price
    assert_eq!(book.spread(), 4);
}

#[test]
fn test_orderbook_delta() {
    let mut book = OrderBook::new();

    // Initialize with snapshot
    book.apply_snapshot(vec![(48, 100)], vec![(52, 150)], 1000);

    // Add more quantity to YES side
    book.apply_delta(Side::Yes, 48, 50, 1001);
    assert_eq!(book.get_quantity(Side::Yes, 48), 150);

    // Remove quantity
    book.apply_delta(Side::Yes, 48, -100, 1002);
    assert_eq!(book.get_quantity(Side::Yes, 48), 50);

    // Remove entire level
    book.apply_delta(Side::Yes, 48, -50, 1003);
    assert_eq!(book.get_quantity(Side::Yes, 48), 0);
    assert_eq!(book.yes_level_count(), 0);
}

#[test]
fn test_best_bid_ask() {
    let mut book = OrderBook::new();

    let yes_levels = vec![(45, 100), (46, 200), (47, 150)];
    let no_levels = vec![(53, 150), (54, 100), (52, 200)];

    book.apply_snapshot(yes_levels, no_levels, 1000);

    let (bid, ask) = book.best_bid_ask();
    assert_eq!(bid, 47); // Highest YES
    assert_eq!(ask, 52); // Lowest NO

    assert_eq!(book.best_bid(), Some((47, 150)));
    assert_eq!(book.best_ask(), Some((52, 200)));
}

#[test]
fn empty_book_defaults() {
    let book = OrderBook::new();
    assert!(book.is_empty());
    assert_eq!(book.best_bid_ask(), (0, 100));
    assert_eq!(book.best_bid(), None);
    assert_eq!(book.best_ask(), None);
    assert_eq!(book.spread(), 100);
    assert_eq!(book.last_update_ts(), 0);
    assert_eq!(book.total_yes_quantity(), 0);
    assert_eq!(book.total_no_quantity(), 0);
}

#[test]
fn levels_are_listed_in_price_order() {
    let mut book = OrderBook::new();
    book.apply_snapshot(vec![(45, 100), (47, 150), (46, 200)], vec![(54, 100), (52, 200), (53, 150)], 7);
    assert_eq!(book.get_yes_levels(), vec![(47, 150), (46, 200), (45, 100)]);
    assert_eq!(book.get_no_levels(), vec![(52, 200), (53, 150), (54, 100)]);
    assert_eq!(book.total_yes_quantity(), 450);
    assert_eq!(book.total_no_quantity(), 450);
    assert_eq!(book.yes_level_count(), 3);
    assert_eq!(book.no_level_count(), 3);
    assert_eq!(book.last_update_ts(), 7);
}

#[test]
fn snapshot_ignores_non_positive_levels_and_replaces_book() {
    let mut book = OrderBook::new();
    book.apply_snapshot(vec![(40, 10)], vec![(60, 10)], 1);
    book.apply_snapshot(vec![(45, 0), (44, -5), (43, 8)], vec![], 2);
    assert_eq!(book.get_yes_levels(), vec![(43, 8)]);
    assert_eq!(book.get_no_levels(), vec![]);
    assert_eq!(book.best_bid_ask(), (43, 100));
}

#[test]
fn delta_then_inverse_delta_restores_level() {
    let mut book = OrderBook::new();
    book.apply_snapshot(vec![(48, 100)], vec![(52, 150)], 1000);
    book.apply_delta(Side::No, 52, 30, 1001);
    book.apply_delta(Side::No, 52, -30, 1002);
    assert_eq!(book.get_quantity(Side::No, 52), 150);
    assert_eq!(book.get_no_levels(), vec![(52, 150)]);
}

#[test]
fn delta_on_missing_level_with_removal_keeps_it_absent() {
    let mut book = OrderBook::new();
    book.apply_delta(Side::Yes, 30, -5, 3);
    assert_eq!(book.get_quantity(Side::Yes, 30), 0);
    assert!(book.is_empty());
    assert_eq!(book.last_update_ts(), 3);
}

#[test]
fn crossed_book_spread_is_zero() {
    let mut book = OrderBook::new();
    book.apply_snapshot(vec![(55, 1)], vec![(50, 1)], 1);
    assert_eq!(book.spread(), 0);
}

#[test]
fn update_book_with_event_applies_each_kind() {
    let mut book = OrderBook::default();
    update_book_with_event(
        &mut book,
        &Event::Snapshot { seq: 1, ts: 10, ticker: "T".to_string(), yes_levels: vec![(40, 5)], no_levels: vec![(60, 5)] },
    );
    update_book_with_event(
        &mut book,
        &Event::Delta { seq: 2, ts: 11, ticker: "T".to_string(), side: Side::Yes, price: 41, delta: 3 },
    );
    update_book_with_event(
        &mut book,
        &Event::Trade { seq: 3, ts: 12, ticker: "T".to_string(), yes_price: 41, no_price: 59, qty: 1, taker: Side::Yes },
    );
    assert_eq!(book.best_bid_ask(), (41, 60));
    assert_eq!(book.last_update_ts(), 11);
}

#[test]
fn engine_without_events_has_no_book() {
    let engine = Engine::new(inkback::SimConfig::default());
    assert!(engine.get_book("T").is_none());
    assert_eq!(engine.active_orders_count(), 0);
}

#[test]
fn test_weighted_avg_price() {
    let mut book = OrderBook::new();

    let yes_levels = vec![(48, 100), (47, 200), (46, 300)];
    let no_levels = vec![(52, 150), (53, 250)];

    book.apply_snapshot(yes_levels, no_levels, 1000);

    // Test YES side - should take from best price first
    let (cost, taken) = book.sweep_cost(Side::Yes, 250);
    let avg_price = cost as f64 / taken as f64;
    let expected = (48.0 * 100.0 + 47.0 * 150.0) / 250.0;
    assert!((avg_price - expected).abs() < 0.001);

    // Test NO side
    let (cost, taken) = book.sweep_cost(Side::No, 200);
    let avg_price = cost as f64 / taken as f64;
    let expected = (52.0 * 150.0 + 53.0 * 50.0) / 200.0;
    assert!((avg_price - expected).abs() < 0.001);
}

#[test]
fn test_mid_price() {
    let mut book = OrderBook::new();

    book.apply_snapshot(vec![(48, 100)], vec![(52, 150)], 1000);

    let (bid, ask) = book.best_bid_ask();
    assert!(bid > 0 && ask < 100);
    assert_eq!((bid as f64 + ask as f64) / 2.0, 50.0);
}

#[test]
fn sweep_cost_takes_best_levels_first_and_stops_at_depth() {
    let mut book = OrderBook::new();
    book.apply_snapshot(vec![(48, 100), (47, 200), (46, 300)], vec![(52, 150), (53, 250)], 1000);
    assert_eq!(book.sweep_cost(Side::Yes, 250), (11850, 250));
    assert_eq!(book.sweep_cost(Side::No, 200), (10450, 200));
    // More than the side holds: everything is taken.
    assert_eq!(book.sweep_cost(Side::No, 1000), (52 * 150 + 53 * 250, 400));
    // Nothing asked, nothing taken.
    assert_eq!(book.sweep_cost(Side::Yes, 0), (0, 0));
    assert_eq!(book.sweep_cost(Side::Yes, -5), (0, 0));
    assert_eq!(OrderBook::new().sweep_cost(Side::Yes, 10), (0, 0));
}

#[test]
fn listings_hold_one_entry_per_level() {
    let mut book = OrderBook::new();
    assert!(book.is_empty());
    assert_eq!((book.yes_level_count(), book.no_level_count()), (0, 0));
    book.apply_snapshot(vec![(48, 100), (47, 200), (46, 300)], vec![(52, 150), (53, 250)], 1000);
    assert!(!book.is_empty());
    assert_eq!(book.get_yes_levels().len(), book.yes_level_count());
    assert_eq!(book.get_no_levels().len(), book.no_level_count());
    assert_eq!(book.get_yes_levels()[0], book.best_bid().unwrap());
    assert_eq!(book.get_no_levels()[0], book.best_ask().unwrap());
    let yes_sum: i64 = book.get_yes_levels().iter().map(|l| l.1).sum();
    assert_eq!(yes_sum, book.total_yes_quantity());
}

#[test]
fn listings_agree_with_the_accessors() {
    let mut book = OrderBook::new();
    book.apply_snapshot(vec![(40, 10), (48, 5), (45, 0)], vec![(60, 7), (52, 3)], 1000);
    book.apply_delta(Side::Yes, 44, 6, 1001);
    let yes = book.get_yes_levels();
    let no = book.get_no_levels();
    assert_eq!(yes, vec![(48, 5), (44, 6), (40, 10)]);
    assert_eq!(no, vec![(52, 3), (60, 7)]);
    assert_eq!(yes.len(), book.yes_level_count());
    assert_eq!(no.len(), book.no_level_count());
    assert_eq!(yes.iter().map(|l| l.1).sum::<i64>(), book.total_yes_quantity());
    assert_eq!(no.iter().map(|l| l.1).sum::<i64>(), book.total_no_quantity());
    assert_eq!(book.best_bid(), yes.first().copied());
    assert_eq!(book.best_ask(), no.first().copied());
    assert_eq!(book.best_bid_ask(), (48, 52));
    // A snapshot level with no quantity is not a level.
    assert_eq!(book.get_quantity(Side::Yes, 45), 0);
    assert!(!book.is_empty());
    book.apply_snapshot(vec![], vec![], 1002);
    assert!(book.is_empty());
    assert_eq!((book.yes_level_count(), book.no_level_count()), (0, 0));
    assert_eq!(book.best_bid_ask(), (0, 100));
}
