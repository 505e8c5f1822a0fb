use inkback::kalshi_types::{Fill, MarketData, OrderInstr, Side};
use inkback::kalshi_viz::{OrderbookSnapshot, OrderbookVisualizer, StrategyAction, VisualizationTracker};

fn md(ts: u64, bid: u8, ask: u8) -> MarketData {
    MarketData { ts, ticker: "T".to_string(), bid, ask }
}

#[test]
fn tracker_records_snapshots_actions_and_fills() {
    let mut tracker = VisualizationTracker::new(0);
    tracker.record_orderbook_snapshot(&md(1, 45, 55));
    tracker.record_orderbook_snapshot(&md(2, 60, 50));
    tracker.record_strategy_action(3, &OrderInstr::Limit { side: Side::Yes, price: 46, qty: 5, ttl_ms: 10 });
    tracker.record_strategy_action(4, &OrderInstr::Cancel { id: 9 });
    tracker.record_fill(Fill { id: 1, price: 46, qty: 5, ts: 5, side: Side::Yes });
    let data = tracker.finalize();
    assert_eq!(
        data.orderbook_snapshots,
        vec![
            OrderbookSnapshot { ts: 1, bid: 45, ask: 55, spread: 10 },
            OrderbookSnapshot { ts: 2, bid: 60, ask: 50, spread: 0 },
        ]
    );
    assert_eq!(
        data.strategy_actions,
        vec![
            StrategyAction::PlaceOrder { ts: 3, side: Side::Yes, price: 46, qty: 5 },
            StrategyAction::CancelOrder { ts: 4, id: 9 },
        ]
    );
    assert_eq!(data.fills.len(), 1);
}

#[test]
fn tracker_keeps_the_window_around_fills() {
    let mut tracker = VisualizationTracker::new(100);
    for ts in [10u64, 150, 300, 700, 900] {
        tracker.record_orderbook_snapshot(&md(ts, 40, 60));
        tracker.record_strategy_action(ts, &OrderInstr::Cancel { id: ts });
    }
    tracker.record_fill(Fill { id: 1, price: 40, qty: 1, ts: 250, side: Side::Yes });
    tracker.record_fill(Fill { id: 2, price: 40, qty: 1, ts: 600, side: Side::Yes });
    let data = tracker.finalize();
    // Window: 250 - 100 = 150 to 600 + 100 = 700.
    let kept: Vec<u64> = data.orderbook_snapshots.iter().map(|s| s.ts).collect();
    assert_eq!(kept, vec![150, 300, 700]);
    assert_eq!(data.strategy_actions.len(), 3);
    assert_eq!(data.fills.len(), 2);
}

#[test]
fn window_start_does_not_go_below_zero() {
    let mut tracker = VisualizationTracker::new(1000);
    tracker.record_orderbook_snapshot(&md(0, 40, 60));
    tracker.record_fill(Fill { id: 1, price: 40, qty: 1, ts: 5, side: Side::Yes });
    assert_eq!(tracker.finalize().orderbook_snapshots.len(), 1);
}

#[test]
fn visualizer_splits_action_markers() {
    let mut tracker = VisualizationTracker::new(0);
    tracker.record_strategy_action(1, &OrderInstr::Limit { side: Side::Yes, price: 46, qty: 5, ttl_ms: 10 });
    tracker.record_strategy_action(2, &OrderInstr::Limit { side: Side::No, price: 54, qty: 5, ttl_ms: 10 });
    tracker.record_strategy_action(3, &OrderInstr::Cancel { id: 1 });
    tracker.record_strategy_action(4, &OrderInstr::Limit { side: Side::Yes, price: 47, qty: 5, ttl_ms: 10 });
    let viz = OrderbookVisualizer::new(tracker.finalize());
    let (buys, sells, cancels) = viz.action_markers();
    assert_eq!(buys, vec![(1, 46), (4, 47)]);
    assert_eq!(sells, vec![(2, 54)]);
    assert_eq!(cancels, vec![3]);
    assert_eq!(viz.data().strategy_actions.len(), 4);
}

#[test]
fn spread_statistics_in_tenths() {
    let mut tracker = VisualizationTracker::new(0);
    for (i, ask) in [50u8, 52, 55, 60, 51, 53, 54, 50, 56, 57, 58, 59].iter().enumerate() {
        tracker.record_orderbook_snapshot(&md(i as u64, 50, *ask));
    }
    let viz = OrderbookVisualizer::new(tracker.finalize());
    let windows = viz.spread_windows();
    // Twelve snapshots: stretches of one.
    assert_eq!(windows.len(), 12);
    assert_eq!((windows[3].sum, windows[3].min, windows[3].max, windows[3].count), (10, 10, 10, 1));

    let mut tracker = VisualizationTracker::new(0);
    for i in 0..25u64 {
        tracker.record_orderbook_snapshot(&md(i, 50, 50 + (i % 7) as u8));
    }
    let viz = OrderbookVisualizer::new(tracker.finalize());
    let windows = viz.spread_windows();
    // Stretches of two; the last one has one snapshot.
    assert_eq!(windows.len(), 13);
    assert_eq!((windows[0].sum, windows[0].min, windows[0].max, windows[0].count), (1, 0, 1, 2));
    assert_eq!((windows[12].sum, windows[12].count), (3, 1));
}

#[test]
fn volume_by_second_after_first_snapshot() {
    let mut tracker = VisualizationTracker::new(0);
    tracker.record_orderbook_snapshot(&md(1000, 45, 55));
    tracker.record_fill(Fill { id: 1, price: 45, qty: 5, ts: 2500, side: Side::Yes });
    tracker.record_fill(Fill { id: 2, price: 45, qty: 3, ts: 1200, side: Side::Yes });
    tracker.record_fill(Fill { id: 3, price: 45, qty: 7, ts: 2999, side: Side::Yes });
    let viz = OrderbookVisualizer::new(tracker.finalize());
    assert_eq!(viz.volume_windows(), Some(vec![(1, 12), (0, 3)]));

    let mut tracker = VisualizationTracker::new(0);
    tracker.record_orderbook_snapshot(&md(1000, 45, 55));
    tracker.record_fill(Fill { id: 1, price: 45, qty: 5, ts: 999, side: Side::Yes });
    assert_eq!(OrderbookVisualizer::new(tracker.finalize()).volume_windows(), None);
}

#[test]
fn no_fills_no_volume_even_without_snapshots() {
    let tracker = VisualizationTracker::new(0);
    let viz = OrderbookVisualizer::new(tracker.finalize());
    assert_eq!(viz.volume_windows(), Some(vec![]));
}
