use inkback::kalshi_strategy::{
    choose_strategy, DirectionalStrategy, KalshiStrategy, SpreadMmParams, SpreadMmStrategy,
    StrategyChoice, TrailingMmParams, TrailingMmStrategy,
};
use inkback::kalshi_types::{Fill, MarketData, OrderInstr, Side};

fn md(ts: u64, bid: u8, ask: u8) -> MarketData {
    MarketData { ts, ticker: "TEST-CONTRACT".to_string(), bid, ask }
}

#[test]
fn test_spread_mm_strategy() {
    let params = SpreadMmParams { min_spread: 4, max_position: 100, quote_quantity: 50, order_ttl_ms: 5000 };

    let mut strategy = SpreadMmStrategy::new(params);

    let orders = strategy.on_book(&md(1000, 45, 55));

    // Should generate 2 orders (bid and ask)
    assert_eq!(orders.len(), 2);

    if let OrderInstr::Limit { side: Side::Yes, price, qty, .. } = &orders[0] {
        assert_eq!(*price, 46); // our_bid = market_bid + 1
        assert_eq!(*qty, 50);
    } else {
        panic!("Expected YES limit order");
    }

    if let OrderInstr::Limit { side: Side::No, price, qty, .. } = &orders[1] {
        assert_eq!(*price, 54); // our_ask = market_ask - 1
        assert_eq!(*qty, 50);
    } else {
        panic!("Expected NO limit order");
    }
}

#[test]
fn test_spread_too_narrow() {
    let params = SpreadMmParams { min_spread: 4, max_position: 100, quote_quantity: 50, order_ttl_ms: 5000 };

    let mut strategy = SpreadMmStrategy::new(params);

    let orders = strategy.on_book(&md(1000, 48, 50));

    // Should not generate any orders when spread is too narrow
    assert_eq!(orders.len(), 0);
}

#[test]
fn test_directional_strategy() {
    let mut strategy = DirectionalStrategy::new(Side::Yes, 100, 60);

    let orders = strategy.on_book(&md(1000, 45, 55));

    // Should generate 1 order to buy YES at the ask
    assert_eq!(orders.len(), 1);

    if let OrderInstr::Limit { side: Side::Yes, price, qty, .. } = &orders[0] {
        assert_eq!(*price, 55); // Buy at ask
        assert_eq!(*qty, 10); // Limited order size
    } else {
        panic!("Expected YES limit order");
    }
}

fn trailing_params(min_spread: u8, max_position: i64) -> TrailingMmParams {
    TrailingMmParams {
        min_spread_for_trailing: min_spread,
        trail_distance: 2,
        max_position,
        quote_quantity: 30,
        order_ttl_ms: 3000,
        min_move_for_replace: 1,
    }
}

#[test]
fn test_trailing_mm_strategy_basic() {
    let mut strategy = TrailingMmStrategy::new(trailing_params(3, 100));

    let orders = strategy.on_book(&md(1000, 40, 50));

    // Should generate 2 trailing orders
    assert_eq!(orders.len(), 2);

    if let OrderInstr::Limit { side: Side::Yes, price, qty, .. } = &orders[0] {
        assert_eq!(*price, 38); // bid - trail_distance
        assert_eq!(*qty, 30);
    } else {
        panic!("Expected YES trailing order");
    }

    if let OrderInstr::Limit { side: Side::No, price, qty, .. } = &orders[1] {
        assert_eq!(*price, 52); // ask + trail_distance
        assert_eq!(*qty, 30);
    } else {
        panic!("Expected NO trailing order");
    }
}

#[test]
fn test_trailing_mm_spread_too_narrow() {
    let mut strategy = TrailingMmStrategy::new(trailing_params(5, 100));

    let orders = strategy.on_book(&md(1000, 48, 52));

    // Should not generate any orders when spread is too narrow
    assert_eq!(orders.len(), 0);
}

#[test]
fn test_trailing_mm_order_replacement() {
    let mut strategy = TrailingMmStrategy::new(trailing_params(3, 100));

    let orders1 = strategy.on_book(&md(1000, 40, 50));
    assert_eq!(orders1.len(), 2); // Initial orders

    // Market moves by 1 cent (should trigger replacement)
    let orders2 = strategy.on_book(&md(2000, 41, 51));

    let cancel_count = orders2.iter().filter(|o| matches!(o, OrderInstr::Cancel { .. })).count();
    let limit_count = orders2.iter().filter(|o| matches!(o, OrderInstr::Limit { .. })).count();

    assert_eq!(cancel_count, 2); // Cancel previous 2 orders
    assert_eq!(limit_count, 2); // Place 2 new orders
}

#[test]
fn test_trailing_mm_extreme_prices() {
    let mut strategy = TrailingMmStrategy::new(trailing_params(3, 100));

    // Test near price extremes
    let orders = strategy.on_book(&md(1000, 2, 6));

    // Should not place orders when trailing would hit extreme prices
    assert_eq!(orders.len(), 0);
}

#[test]
fn test_trailing_mm_position_limits() {
    // Position close to max_position = 10
    let mut strategy = TrailingMmStrategy::with_position(trailing_params(3, 10), 9);

    let orders = strategy.on_book(&md(1000, 40, 50));

    // Should only place NO order (can't buy more YES due to position limit)
    assert_eq!(orders.len(), 1);

    if let OrderInstr::Limit { side: Side::No, .. } = &orders[0] {
        // Good - only NO order placed
    } else {
        panic!("Expected only NO order due to position limits");
    }
}

#[test]
fn directional_caps_price_and_avoids_extremes() {
    // The price is capped at the maximum price.
    let mut strategy = DirectionalStrategy::new(Side::Yes, 100, 50);
    match &strategy.on_book(&md(1000, 45, 55))[0] {
        OrderInstr::Limit { side: Side::Yes, price, .. } => assert_eq!(*price, 50),
        _ => panic!("expected a YES order"),
    }
    // No order at an extreme price.
    let mut strategy = DirectionalStrategy::new(Side::Yes, 100, 99);
    assert_eq!(strategy.on_book(&md(1000, 45, 99)).len(), 0);
}

#[test]
fn directional_stops_at_target() {
    let mut strategy = DirectionalStrategy::new(Side::Yes, 10, 60);
    assert_eq!(strategy.on_book(&md(1000, 45, 55)).len(), 1);
    // A fill below 50 counts as bought YES; the whole target is reached.
    strategy.on_fill(&Fill { id: 1, price: 45, qty: 10, ts: 1001, side: Side::Yes });
    assert_eq!(strategy.on_book(&md(1002, 45, 55)).len(), 0);
}

#[test]
fn directional_no_bets_on_no_until_target() {
    let mut strategy = DirectionalStrategy::new(Side::No, 100, 40);
    let orders = strategy.on_book(&md(1000, 45, 55));
    assert_eq!(orders, vec![OrderInstr::Limit { side: Side::No, price: 40, qty: 10, ttl_ms: 10_000 }]);

    let mut strategy = DirectionalStrategy::new(Side::No, 10, 60);
    let orders = strategy.on_book(&md(1000, 45, 55));
    assert_eq!(orders, vec![OrderInstr::Limit { side: Side::No, price: 45, qty: 10, ttl_ms: 10_000 }]);
    // A NO fill (priced at 50 or above) counts against the position; the target is reached.
    strategy.on_fill(&Fill { id: 1, price: 55, qty: 10, ts: 1001, side: Side::No });
    assert_eq!(strategy.on_book(&md(1002, 45, 55)).len(), 0);
}

#[test]
fn spread_mm_requotes_and_cancels_on_new_ticker() {
    let mut strategy = SpreadMmStrategy::new(SpreadMmParams::default());
    assert_eq!(strategy.on_book(&md(1000, 45, 55)).len(), 2);
    // Same ticker: two more quotes, nothing cancelled.
    let second = strategy.on_book(&md(1001, 45, 55));
    assert_eq!(second.len(), 2);
    assert!(second.iter().all(|o| matches!(o, OrderInstr::Limit { .. })));
    // New ticker: the four open quotes are cancelled first.
    let third = strategy.on_book(&MarketData { ts: 1002, ticker: "OTHER".to_string(), bid: 45, ask: 55 });
    let cancels = third.iter().filter(|o| matches!(o, OrderInstr::Cancel { .. })).count();
    assert_eq!(cancels, 4);
    assert_eq!(third.len(), 6);
    assert!(matches!(third[0], OrderInstr::Cancel { id: 1 }));
}

#[test]
fn spread_mm_cancels_all_when_market_too_wide() {
    let mut strategy = SpreadMmStrategy::new(SpreadMmParams::default());
    assert_eq!(strategy.on_book(&md(1000, 45, 55)).len(), 2);
    let orders = strategy.on_book(&md(1001, 30, 60));
    assert_eq!(orders.len(), 2);
    assert!(orders.iter().all(|o| matches!(o, OrderInstr::Cancel { .. })));
}

#[test]
fn spread_mm_round_trip_pnl() {
    let mut strategy = SpreadMmStrategy::new(SpreadMmParams::default());
    let _ = strategy.on_book(&md(1000, 45, 55));
    // Buy 10 YES at 46, then sell 10 at 54: 8 cents on each of 10 contracts.
    strategy.on_fill(&Fill { id: 1, price: 46, qty: 10, ts: 1001, side: Side::Yes });
    strategy.on_fill(&Fill { id: 2, price: 54, qty: 10, ts: 1002, side: Side::No });
    assert_eq!(strategy.get_total_pnl_cents(None), 80);
    // Nothing left to settle.
    assert_eq!(strategy.settle_final_position(100), 0);
    assert_eq!(strategy.get_total_pnl_cents(None), 80);
}

#[test]
fn spread_mm_settles_open_position() {
    let mut strategy = SpreadMmStrategy::new(SpreadMmParams::default());
    let _ = strategy.on_book(&md(1000, 45, 55));
    strategy.on_fill(&Fill { id: 1, price: 40, qty: 5, ts: 1001, side: Side::Yes });
    // Unrealized at 50: (50 - 40) * 5.
    assert_eq!(strategy.get_total_pnl_cents(Some(50)), 50);
    // Settling at 100 realizes (100 - 40) * 5.
    assert_eq!(strategy.settle_final_position(100), 300);
    assert_eq!(strategy.get_total_pnl_cents(None), 300);
}

#[test]
fn trailing_mm_keeps_quotes_when_market_still() {
    let mut strategy = TrailingMmStrategy::new(trailing_params(3, 100));
    assert_eq!(strategy.on_book(&md(1000, 40, 50)).len(), 2);
    assert_eq!(strategy.on_book(&md(1001, 40, 50)).len(), 0);
}

#[test]
fn strategy_names_choose_their_parameters() {
    assert_eq!(
        choose_strategy("spread_mm", 2, 10, 50),
        Some(StrategyChoice::SpreadMm(SpreadMmParams {
            min_spread: 2,
            max_position: 50,
            quote_quantity: 10,
            order_ttl_ms: 5000,
        }))
    );
    // The trailing strategy never trails spreads under 3 cents.
    assert_eq!(
        choose_strategy("trailing_spread_mm", 2, 10, 50),
        Some(StrategyChoice::TrailingMm(TrailingMmParams {
            min_spread_for_trailing: 3,
            trail_distance: 2,
            max_position: 50,
            quote_quantity: 10,
            order_ttl_ms: 3000,
            min_move_for_replace: 1,
        }))
    );
    match choose_strategy("trailing_spread_mm", 5, 10, 50) {
        Some(StrategyChoice::TrailingMm(p)) => assert_eq!(p.min_spread_for_trailing, 5),
        other => panic!("unexpected {:?}", other),
    }
    assert_eq!(
        choose_strategy("directional_yes", 2, 7, 50),
        Some(StrategyChoice::Directional { target_side: Side::Yes, target_quantity: 7, max_price: 60 })
    );
    assert_eq!(
        choose_strategy("directional_no", 2, 7, 50),
        Some(StrategyChoice::Directional { target_side: Side::No, target_quantity: 7, max_price: 40 })
    );
    assert_eq!(choose_strategy("momentum", 2, 7, 50), None);
}

#[test]
fn trailing_mm_tracks_engine_ids_once() {
    let mut s = TrailingMmStrategy::new(TrailingMmParams::default());
    assert_eq!(s.on_book(&md(1000, 40, 50)).len(), 2);
    s.on_orders_created(vec![(0, 1), (1, 2)]);
    let second = s.on_book(&md(2000, 41, 51));
    assert_eq!(second.len(), 4);
    assert!(matches!(second[0], OrderInstr::Cancel { id: 1 }));
    assert!(matches!(second[1], OrderInstr::Cancel { id: 2 }));
    assert!(matches!(second[2], OrderInstr::Limit { side: Side::Yes, price: 39, .. }));
    assert!(matches!(second[3], OrderInstr::Limit { side: Side::No, price: 53, .. }));
    // The engine numbers the new orders by instruction index, cancels included.
    s.on_orders_created(vec![(2, 3), (3, 4)]);
    let third = s.on_book(&md(3000, 42, 52));
    assert_eq!(third.len(), 4);
    assert!(matches!(third[0], OrderInstr::Cancel { id: 3 }));
    assert!(matches!(third[1], OrderInstr::Cancel { id: 4 }));
}

#[test]
fn settling_closes_the_position() {
    let mut strategy = SpreadMmStrategy::new(SpreadMmParams::default());
    let _ = strategy.on_book(&md(1000, 45, 55));
    strategy.on_fill(&Fill { id: 1, price: 40, qty: 5, ts: 1001, side: Side::Yes });
    assert_eq!(strategy.settle_final_position(0), -200);
    assert_eq!(strategy.get_total_pnl_cents(None), -200);
    // The total no longer depends on a market price, and a second settlement pays nothing.
    assert_eq!(strategy.get_total_pnl_cents(Some(90)), -200);
    assert_eq!(strategy.settle_final_position(100), 0);
    assert_eq!(strategy.get_total_pnl_cents(None), -200);
}
