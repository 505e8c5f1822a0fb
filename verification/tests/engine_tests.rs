use inkback::kalshi_exec_sim::{run_backtest, Engine, EngineError};
use inkback::kalshi_strategy::{KalshiStrategy, SpreadMmParams, SpreadMmStrategy};
use inkback::kalshi_types::{Event, Fill, MarketData, OrderId, OrderInstr, OrderStatus, Side, SimConfig};
use inkback::KalshiBacktest;

fn snapshot(seq: u64, ts: u64, yes: Vec<(u8, i64)>, no: Vec<(u8, i64)>) -> Event {
    Event::Snapshot { seq, ts, ticker: "TEST".to_string(), yes_levels: yes, no_levels: no }
}

fn trade(seq: u64, ts: u64, yes_price: u8, no_price: u8, qty: i64, taker: Side) -> Event {
    Event::Trade { seq, ts, ticker: "TEST".to_string(), yes_price, no_price, qty, taker }
}

#[test]
fn test_engine_basic_flow() {
    let config = SimConfig { latency_ms: 1, start_time: 0, end_time: Some(10000) };

    let mut strategy = SpreadMmStrategy::new(SpreadMmParams::default());

    let events = vec![
        snapshot(1, 1000, vec![(45, 100)], vec![(55, 100)]),
        trade(2, 2000, 46, 54, 10, Side::Yes),
    ];

    let result = run_backtest(config, &mut strategy, events).unwrap();

    assert!(result.metrics.total_orders > 0);
    assert_eq!(result.orders.len(), result.metrics.total_orders);
}

/// Places one YES order on every book update.
struct OneOrderStrategy;

impl KalshiStrategy for OneOrderStrategy {
    fn on_book(&mut self, _md: &MarketData) -> Vec<OrderInstr> {
        vec![OrderInstr::Limit { side: Side::Yes, price: 45, qty: 100, ttl_ms: 5000 }]
    }
    fn on_fill(&mut self, _fill: &Fill) {}
    fn on_orders_created(&mut self, _order_mappings: Vec<(usize, OrderId)>) {}
    fn settle_final_positions(&mut self, _resolved_prices: &Vec<u8>) -> Option<i64> {
        None
    }
}

#[test]
fn test_order_activation_timing() {
    let config = SimConfig { latency_ms: 100, start_time: 0, end_time: None };

    let mut engine = Engine::new(config);
    let mut strategy = OneOrderStrategy;

    let events = vec![snapshot(1, 1000, vec![(45, 100)], vec![(55, 100)])];

    let _result = engine.run(&mut strategy, events).unwrap();

    // Order should be created but not yet active due to latency
    assert_eq!(engine.active_orders_count(), 0);
}

/// Places one NO order at 55 on the first book update.
struct SellOnceStrategy {
    order_placed: bool,
    fills: Vec<Fill>,
}

impl KalshiStrategy for SellOnceStrategy {
    fn on_book(&mut self, _md: &MarketData) -> Vec<OrderInstr> {
        if !self.order_placed {
            self.order_placed = true;
            vec![OrderInstr::Limit { side: Side::No, price: 55, qty: 50, ttl_ms: 10000 }]
        } else {
            vec![]
        }
    }
    fn on_fill(&mut self, fill: &Fill) {
        println!("Received fill: {:?}", fill);
        self.fills.push(*fill);
    }
    fn on_orders_created(&mut self, _order_mappings: Vec<(usize, OrderId)>) {}
    fn settle_final_positions(&mut self, _resolved_prices: &Vec<u8>) -> Option<i64> {
        None
    }
}

#[test]
fn test_fill_logic() {
    let config = SimConfig { latency_ms: 0, start_time: 0, end_time: None };

    let mut engine = Engine::new(config);
    let mut strategy = SellOnceStrategy { order_placed: false, fills: vec![] };

    let events = vec![
        snapshot(1, 1000, vec![(45, 100)], vec![(55, 100)]),
        // YES taker should fill NO orders
        trade(2, 2000, 55, 55, 25, Side::Yes),
    ];

    let result = engine.run(&mut strategy, events).unwrap();

    // Should have some fills
    assert!(result.metrics.volume_traded > 0);
}

#[test]
fn partial_fill_is_audited_and_reported() {
    let config = SimConfig { latency_ms: 0, start_time: 0, end_time: None };
    let mut engine = Engine::new(config);
    let mut strategy = SellOnceStrategy { order_placed: false, fills: vec![] };
    let events = vec![
        snapshot(1, 1000, vec![(45, 100)], vec![(55, 100)]),
        trade(2, 2000, 55, 45, 25, Side::Yes),
    ];
    let report = engine.run(&mut strategy, events).unwrap();
    assert_eq!(strategy.fills, vec![Fill { id: 1, price: 55, qty: 25, ts: 2000, side: Side::No }]);
    assert_eq!(report.metrics.total_fills, 1);
    assert_eq!(report.metrics.volume_traded, 25);
    assert_eq!(report.orders.len(), 1);
    assert_eq!(report.orders[0].status, OrderStatus::PartiallyFilled);
    assert_eq!(report.orders[0].filled_qty, 25);
    // The reported fill is taken from the audit trail, at the activation time.
    assert_eq!(report.fills, vec![Fill { id: 1, price: 55, qty: 25, ts: 1000, side: Side::No }]);
    assert_eq!(engine.active_orders_count(), 1);
}

#[test]
fn trade_above_limit_does_not_fill() {
    let config = SimConfig { latency_ms: 0, start_time: 0, end_time: None };
    let mut engine = Engine::new(config);
    let mut strategy = SellOnceStrategy { order_placed: false, fills: vec![] };
    // A YES taker at 56 does not reach a NO order whose limit is 55.
    let events = vec![
        snapshot(1, 1000, vec![(45, 100)], vec![(55, 100)]),
        trade(2, 2000, 56, 44, 25, Side::Yes),
    ];
    let report = engine.run(&mut strategy, events).unwrap();
    assert!(strategy.fills.is_empty());
    assert_eq!(report.metrics.volume_traded, 0);
    assert_eq!(report.orders[0].status, OrderStatus::Active);
}

#[test]
fn orders_expire_after_their_time_to_live() {
    let config = SimConfig { latency_ms: 0, start_time: 0, end_time: None };
    let mut engine = Engine::new(config);
    let mut strategy = SellOnceStrategy { order_placed: false, fills: vec![] };
    let events = vec![
        snapshot(1, 1000, vec![(45, 100)], vec![(55, 100)]),
        snapshot(2, 11000, vec![(45, 100)], vec![(55, 100)]),
    ];
    let report = engine.run(&mut strategy, events).unwrap();
    assert_eq!(report.metrics.expired_orders, 1);
    assert_eq!(report.orders[0].status, OrderStatus::Expired);
    assert_eq!(engine.active_orders_count(), 0);
}

/// Places an order, then cancels it on the next update.
struct CancelStrategy {
    step: u32,
}

impl KalshiStrategy for CancelStrategy {
    fn on_book(&mut self, _md: &MarketData) -> Vec<OrderInstr> {
        self.step += 1;
        match self.step {
            1 => vec![OrderInstr::Limit { side: Side::Yes, price: 40, qty: 5, ttl_ms: 100000 }],
            2 => vec![OrderInstr::Cancel { id: 1 }, OrderInstr::Cancel { id: 99 }],
            _ => vec![],
        }
    }
    fn on_fill(&mut self, _fill: &Fill) {}
    fn on_orders_created(&mut self, order_mappings: Vec<(usize, OrderId)>) {
        if self.step == 1 {
            assert_eq!(order_mappings, vec![(0, 1)]);
        }
    }
    fn settle_final_positions(&mut self, _resolved_prices: &Vec<u8>) -> Option<i64> {
        None
    }
}

#[test]
fn cancel_removes_active_order_and_ignores_unknown_ids() {
    let config = SimConfig { latency_ms: 0, start_time: 0, end_time: None };
    let mut engine = Engine::new(config);
    let mut strategy = CancelStrategy { step: 0 };
    let events = vec![
        snapshot(1, 1000, vec![(45, 100)], vec![(55, 100)]),
        snapshot(2, 2000, vec![(45, 100)], vec![(55, 100)]),
    ];
    let report = engine.run(&mut strategy, events).unwrap();
    assert_eq!(report.metrics.cancelled_orders, 1);
    assert_eq!(report.orders[0].status, OrderStatus::Cancelled);
    assert_eq!(engine.active_orders_count(), 0);
}

#[test]
fn events_outside_the_time_range_are_skipped() {
    let config = SimConfig { latency_ms: 0, start_time: 1500, end_time: Some(2500) };
    let mut engine = Engine::new(config);
    let mut strategy = OneOrderStrategy;
    let events = vec![
        snapshot(1, 1000, vec![(40, 1)], vec![(60, 1)]),
        snapshot(2, 2000, vec![(45, 1)], vec![(55, 1)]),
        snapshot(3, 3000, vec![(47, 1)], vec![(53, 1)]),
        snapshot(4, 2100, vec![(48, 1)], vec![(52, 1)]),
    ];
    let report = engine.run(&mut strategy, events).unwrap();
    // Only the event at 2000 is processed: the one at 3000 ends the run.
    assert_eq!(report.metrics.total_orders, 1);
    assert_eq!(engine.get_book("TEST").unwrap().best_bid_ask(), (45, 55));
}

#[test]
fn book_overflow_is_refused() {
    let config = SimConfig { latency_ms: 0, start_time: 0, end_time: None };
    let mut strategy = OneOrderStrategy;
    let events = vec![
        snapshot(1, 1000, vec![(45, i64::MAX)], vec![]),
        Event::Delta { seq: 2, ts: 1001, ticker: "TEST".to_string(), side: Side::Yes, price: 45, delta: 1 },
    ];
    assert_eq!(run_backtest(config, &mut strategy, events).unwrap_err(), EngineError::BookOverflow);
}

#[test]
fn time_overflow_is_refused() {
    let config = SimConfig { latency_ms: u64::MAX, start_time: 0, end_time: None };
    let mut strategy = OneOrderStrategy;
    let events = vec![snapshot(1, 1000, vec![(45, 1)], vec![(55, 1)])];
    assert_eq!(run_backtest(config, &mut strategy, events).unwrap_err(), EngineError::TimeOverflow);
}

#[test]
fn spread_mm_settles_at_resolution_price() {
    // The strategy buys 10 YES at 46; the market ends with bid 99 and no ask: it resolves
    // at 100 and the position is worth (100 - 46) * 10.
    let config = SimConfig { latency_ms: 0, start_time: 0, end_time: None };
    let params = SpreadMmParams { min_spread: 4, max_position: 100, quote_quantity: 10, order_ttl_ms: 100000 };
    let mut strategy = SpreadMmStrategy::new(params);
    let events = vec![
        snapshot(1, 1000, vec![(45, 100)], vec![(55, 100)]),
        trade(2, 2000, 54, 54, 10, Side::No),
        snapshot(3, 3000, vec![(99, 100)], vec![]),
    ];
    let report = run_backtest(config, &mut strategy, events).unwrap();
    assert_eq!(report.metrics.gross_pnl_cents, 540);
}

#[test]
fn backtest_runs_with_its_config() {
    let backtest = KalshiBacktest::new(SimConfig { latency_ms: 100, start_time: 0, end_time: None });
    let mut strategy = OneOrderStrategy;
    let events = vec![snapshot(1, 1000, vec![(45, 1)], vec![(55, 1)])];
    let report = backtest.run_with_events(events, &mut strategy).unwrap();
    assert_eq!(report.orders.len(), 1);
    assert_eq!(report.orders[0].activation_time, 1100);
    assert_eq!(report.orders[0].expiry_time, 6100);
    assert_eq!(report.orders[0].status, OrderStatus::Created);
}

#[test]
fn test_kalshi_backtest_integration() {
    let orderbook = "seq,client_ts,ticker,msg_type,yes_levels,no_levels\n\
        1,1000,TEST-CONTRACT,snapshot,\"[{\"\"price\"\":45,\"\"quantity\"\":100}]\",\"[{\"\"price\"\":55,\"\"quantity\"\":100}]\"\n\
        3,3000,TEST-CONTRACT,snapshot,\"[{\"\"price\"\":46,\"\"quantity\"\":150}]\",\"[{\"\"price\"\":54,\"\"quantity\"\":150}]\"\n";
    let trades = "seq,client_ts,ticker,yes_price,no_price,quantity,taker\n\
        2,2000,TEST-CONTRACT,46,54,25,yes\n\
        4,4000,TEST-CONTRACT,46,54,35,no\n";
    let ob_rows = inkback::kalshi_csv_io::parse_orderbook_bytes(orderbook.as_bytes()).unwrap();
    let trade_rows = inkback::kalshi_csv_io::parse_trades_bytes(trades.as_bytes()).unwrap();
    assert_eq!(ob_rows[0].yes_levels, Some(vec![(45, 100)]));
    let events = inkback::kalshi_event_stream::merge(&ob_rows, &trade_rows).unwrap();
    assert_eq!(events.len(), 4);
    assert_eq!(events[0], Event::Snapshot {
        seq: 1,
        ts: 1000,
        ticker: "TEST-CONTRACT".to_string(),
        yes_levels: vec![(45, 100)],
        no_levels: vec![(55, 100)],
    });

    let config = SimConfig { latency_ms: 1, start_time: 0, end_time: None };
    let mut strategy = SpreadMmStrategy::new(SpreadMmParams::default());
    let backtest = KalshiBacktest::new(config);
    let result = backtest.run_with_events(events, &mut strategy).unwrap();

    // Should have processed some events
    assert!(result.metrics.total_orders > 0);
    assert_eq!(result.orders.len(), result.metrics.total_orders);
}

#[test]
fn test_run_simple_backtest() {
    let orderbook = "seq,client_ts,ticker,msg_type,yes_levels,no_levels\n\
        1,1000,TEST-CONTRACT,snapshot,\"[{\"\"price\"\":45,\"\"quantity\"\":100}]\",\"[{\"\"price\"\":55,\"\"quantity\"\":100}]\"\n\
        3,3000,TEST-CONTRACT,snapshot,\"[{\"\"price\"\":46,\"\"quantity\"\":150}]\",\"[{\"\"price\"\":54,\"\"quantity\"\":150}]\"\n";
    let trades = "seq,client_ts,ticker,yes_price,no_price,quantity,taker\n\
        2,2000,TEST-CONTRACT,46,54,25,yes\n\
        4,4000,TEST-CONTRACT,46,54,35,no\n";
    let ob_rows = inkback::kalshi_csv_io::parse_orderbook_bytes(orderbook.as_bytes()).unwrap();
    let trade_rows = inkback::kalshi_csv_io::parse_trades_bytes(trades.as_bytes()).unwrap();
    let events = inkback::kalshi_event_stream::merge(&ob_rows, &trade_rows).unwrap();

    let mut strategy = SpreadMmStrategy::new(SpreadMmParams {
        min_spread: 2,
        quote_quantity: 50,
        max_position: 200,
        order_ttl_ms: 5000,
    });
    let config = SimConfig { latency_ms: 5, start_time: 0, end_time: None };
    let result = run_backtest(config, &mut strategy, events).unwrap();

    assert!(result.orders.len() > 0);
}

/// Records the prices it is settled at and reports a fixed total.
struct SettlingStrategy {
    prices: Vec<u8>,
}

impl KalshiStrategy for SettlingStrategy {
    fn on_book(&mut self, _md: &MarketData) -> Vec<OrderInstr> {
        Vec::new()
    }
    fn on_fill(&mut self, _fill: &Fill) {}
    fn on_orders_created(&mut self, _order_mappings: Vec<(usize, OrderId)>) {}
    fn settle_final_positions(&mut self, resolved_prices: &Vec<u8>) -> Option<i64> {
        self.prices = resolved_prices.clone();
        Some(1234)
    }
}

#[test]
fn settlement_hands_the_resolution_prices() {
    let config = SimConfig { latency_ms: 0, start_time: 0, end_time: None };
    let mut engine = Engine::new(config);
    let mut strategy = SettlingStrategy { prices: Vec::new() };
    let other = Event::Snapshot {
        seq: 2,
        ts: 1100,
        ticker: "OTHER".to_string(),
        yes_levels: vec![(99, 5)],
        no_levels: vec![],
    };
    let events = vec![snapshot(1, 1000, vec![(45, 1)], vec![(55, 1)]), other];
    let report = engine.run(&mut strategy, events).unwrap();
    // A two-sided market resolves at its midpoint; a bid of 99 with no ask at 100.
    assert_eq!(strategy.prices, vec![50, 100]);
    assert_eq!(report.metrics.gross_pnl_cents, 1234);
}

#[test]
fn nothing_processed_is_no_failure() {
    // Every event comes before the start time: the run succeeds, though processing one
    // would overflow the activation time.
    let config = SimConfig { latency_ms: u64::MAX, start_time: 5000, end_time: None };
    let mut strategy = OneOrderStrategy;
    let events = vec![snapshot(1, 1000, vec![(45, 1)], vec![(55, 1)])];
    let report = run_backtest(config, &mut strategy, events).unwrap();
    assert_eq!(report.metrics.total_orders, 0);
}

#[test]
fn the_engine_carries_out_the_strategys_replies() {
    // The spread market maker quotes 46/54 on a 45/55 book; every quote is an audited order.
    let config = SimConfig { latency_ms: 0, start_time: 0, end_time: None };
    let mut strategy = SpreadMmStrategy::new(SpreadMmParams::default());
    let events = vec![snapshot(1, 1000, vec![(45, 100)], vec![(55, 100)])];
    let report = run_backtest(config, &mut strategy, events).unwrap();
    assert_eq!(report.orders.len(), 2);
    assert_eq!((report.orders[0].id, report.orders[0].price, report.orders[0].side), (1, 46, Side::Yes));
    assert_eq!((report.orders[1].id, report.orders[1].price, report.orders[1].side), (2, 54, Side::No));
}
