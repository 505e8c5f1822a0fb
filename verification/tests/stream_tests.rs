use inkback::kalshi_event_stream::{merge, validate_sequence_ordering, StreamError};
use inkback::kalshi_types::{Event, RawObRow, RawTradeRow, Side};

fn snapshot_row(seq: u64, ts: u64, ticker: &str, side: Option<Side>, price: Option<u8>, quantity: Option<i64>) -> RawObRow {
    RawObRow {
        seq,
        ts,
        ticker: ticker.to_string(),
        msg_type: "snapshot".to_string(),
        side,
        price,
        quantity,
        yes_levels: None,
        no_levels: None,
    }
}

fn delta_row(seq: u64, ts: u64, side: Side, price: u8, quantity: i64) -> RawObRow {
    RawObRow {
        seq,
        ts,
        ticker: "TEST".to_string(),
        msg_type: "delta".to_string(),
        side: Some(side),
        price: Some(price),
        quantity: Some(quantity),
        yes_levels: None,
        no_levels: None,
    }
}

fn trade_row(seq: u64, ts: u64) -> RawTradeRow {
    RawTradeRow { seq, ts, ticker: "TEST".to_string(), yes_price: 50, no_price: 50, qty: 25, taker: Side::Yes }
}

#[test]
fn test_event_ordering() {
    let orderbook_rows = vec![
        RawObRow {
            seq: 1,
            ts: 1000,
            ticker: "TEST".to_string(),
            msg_type: "snapshot".to_string(),
            side: None,
            price: None,
            quantity: None,
            yes_levels: Some(vec![(50, 100)]),
            no_levels: Some(vec![(51, 200)]),
        },
        RawObRow {
            seq: 3,
            ts: 3000,
            ticker: "TEST".to_string(),
            msg_type: "delta".to_string(),
            side: Some(Side::Yes),
            price: Some(50),
            quantity: Some(10),
            yes_levels: None,
            no_levels: None,
        },
    ];

    let trade_rows = vec![RawTradeRow {
        seq: 2,
        ts: 2000,
        ticker: "TEST".to_string(),
        yes_price: 50,
        no_price: 50,
        qty: 25,
        taker: Side::Yes,
    }];

    let events: Vec<Event> = merge(&orderbook_rows, &trade_rows).unwrap();

    assert_eq!(events.len(), 3);

    // Events should be ordered by sequence number
    assert_eq!(events[0].seq(), 1); // Snapshot
    assert_eq!(events[1].seq(), 2); // Trade
    assert_eq!(events[2].seq(), 3); // Delta

    // Verify event types
    assert!(matches!(events[0], Event::Snapshot { .. }));
    assert!(matches!(events[1], Event::Trade { .. }));
    assert!(matches!(events[2], Event::Delta { .. }));
}

#[test]
fn test_sequence_validation() {
    let events = vec![
        Event::Snapshot { seq: 1, ts: 1000, ticker: "TEST".to_string(), yes_levels: vec![], no_levels: vec![] },
        Event::Trade { seq: 2, ts: 2000, ticker: "TEST".to_string(), yes_price: 50, no_price: 50, qty: 25, taker: Side::Yes },
        Event::Delta { seq: 3, ts: 3000, ticker: "TEST".to_string(), side: Side::Yes, price: 50, delta: 10 },
    ];

    assert!(validate_sequence_ordering(&events).is_ok());
}

#[test]
fn test_sequence_validation_regression() {
    let events = vec![
        Event::Snapshot { seq: 1, ts: 1000, ticker: "TEST".to_string(), yes_levels: vec![], no_levels: vec![] },
        Event::Trade { seq: 3, ts: 3000, ticker: "TEST".to_string(), yes_price: 50, no_price: 50, qty: 25, taker: Side::Yes },
        Event::Delta { seq: 2, ts: 2000, ticker: "TEST".to_string(), side: Side::Yes, price: 50, delta: 10 },
    ];

    assert!(validate_sequence_ordering(&events).is_err());
}

#[test]
fn sequence_regression_names_its_position() {
    let events = vec![
        Event::Snapshot { seq: 5, ts: 1, ticker: "T".to_string(), yes_levels: vec![], no_levels: vec![] },
        Event::Snapshot { seq: 5, ts: 2, ticker: "T".to_string(), yes_levels: vec![], no_levels: vec![] },
        Event::Snapshot { seq: 4, ts: 3, ticker: "T".to_string(), yes_levels: vec![], no_levels: vec![] },
    ];
    assert_eq!(
        validate_sequence_ordering(&events),
        Err(StreamError::SequenceRegression { index: 2, seq: 4, prev_seq: 5 })
    );
}

#[test]
fn repeated_sequence_numbers_are_reported() {
    let events = vec![
        Event::Snapshot { seq: 1, ts: 1, ticker: "T".to_string(), yes_levels: vec![], no_levels: vec![] },
        Event::Snapshot { seq: 1, ts: 2, ticker: "T".to_string(), yes_levels: vec![], no_levels: vec![] },
        Event::Snapshot { seq: 2, ts: 3, ticker: "T".to_string(), yes_levels: vec![], no_levels: vec![] },
        Event::Snapshot { seq: 2, ts: 4, ticker: "T".to_string(), yes_levels: vec![], no_levels: vec![] },
    ];
    assert_eq!(validate_sequence_ordering(&events), Ok(vec![1, 3]));
    assert_eq!(validate_sequence_ordering(&vec![]), Ok(vec![]));
}

#[test]
fn snapshot_rows_group_into_one_event_with_sorted_levels() {
    let rows = vec![
        snapshot_row(1, 1000, "TEST", Some(Side::Yes), Some(47), Some(200)),
        snapshot_row(1, 1000, "TEST", Some(Side::No), Some(53), Some(250)),
        snapshot_row(1, 1001, "TEST", Some(Side::Yes), Some(45), Some(100)),
        snapshot_row(1, 1002, "TEST", Some(Side::No), Some(52), Some(150)),
        snapshot_row(1, 1003, "TEST", Some(Side::Yes), Some(44), Some(0)),
        snapshot_row(1, 1004, "TEST", None, Some(40), Some(5)),
    ];
    let events = merge(&rows, &vec![]).unwrap();
    assert_eq!(events.len(), 1);
    assert_eq!(
        events[0],
        Event::Snapshot {
            seq: 1,
            ts: 1000,
            ticker: "TEST".to_string(),
            yes_levels: vec![(45, 100), (47, 200)],
            no_levels: vec![(52, 150), (53, 250)],
        }
    );
}

#[test]
fn delta_flushes_buffered_snapshots_first() {
    let rows = vec![
        snapshot_row(5, 1000, "A", Some(Side::Yes), Some(40), Some(1)),
        snapshot_row(5, 1000, "B", Some(Side::Yes), Some(41), Some(1)),
        delta_row(6, 1100, Side::No, 60, 3),
        snapshot_row(5, 1200, "A", Some(Side::No), Some(61), Some(2)),
    ];
    let events = merge(&rows, &vec![trade_row(5, 900)]).unwrap();
    // Sorted by (sequence number, timestamp): the trade, A and B at seq 5, the later A
    // snapshot at seq 5, then the delta at seq 6.
    assert_eq!(events.len(), 5);
    assert!(matches!(events[0], Event::Trade { seq: 5, ts: 900, .. }));
    assert!(matches!(&events[1], Event::Snapshot { ticker, ts: 1000, .. } if ticker == "A"));
    assert!(matches!(&events[2], Event::Snapshot { ticker, ts: 1000, .. } if ticker == "B"));
    assert!(matches!(&events[3], Event::Snapshot { ticker, ts: 1200, .. } if ticker == "A"));
    assert!(matches!(events[4], Event::Delta { seq: 6, delta: 3, .. }));
}

#[test]
fn unknown_message_type_is_refused() {
    let mut bad = delta_row(2, 2000, Side::Yes, 50, 1);
    bad.msg_type = "heartbeat".to_string();
    let rows = vec![delta_row(1, 1000, Side::Yes, 50, 1), bad];
    assert_eq!(merge(&rows, &vec![]), Err(StreamError::UnknownMessageType { index: 1 }));
}

#[test]
fn merged_trades_keep_their_fields() {
    let events = merge(&vec![], &vec![trade_row(2, 20), trade_row(1, 10)]).unwrap();
    assert_eq!(
        events,
        vec![
            Event::Trade { seq: 1, ts: 10, ticker: "TEST".to_string(), yes_price: 50, no_price: 50, qty: 25, taker: Side::Yes },
            Event::Trade { seq: 2, ts: 20, ticker: "TEST".to_string(), yes_price: 50, no_price: 50, qty: 25, taker: Side::Yes },
        ]
    );
}

#[test]
fn snapshot_rows_with_level_lists_give_their_levels() {
    let row = RawObRow {
        seq: 1,
        ts: 1000,
        ticker: "T".to_string(),
        msg_type: "snapshot".to_string(),
        side: None,
        price: None,
        quantity: None,
        yes_levels: Some(vec![(47, 5), (45, 100), (46, 0)]),
        no_levels: Some(vec![(55, 100)]),
    };
    let events = merge(&vec![row], &vec![]).unwrap();
    assert_eq!(
        events,
        vec![Event::Snapshot {
            seq: 1,
            ts: 1000,
            ticker: "T".to_string(),
            yes_levels: vec![(45, 100), (47, 5)],
            no_levels: vec![(55, 100)],
        }]
    );
}

#[test]
fn merge_keeps_one_event_per_trade_and_delta_row() {
    let ob = vec![
        snapshot_row(1, 1000, "TEST", Some(Side::Yes), Some(45), Some(10)),
        snapshot_row(1, 1000, "TEST", Some(Side::No), Some(55), Some(10)),
        delta_row(2, 1100, Side::Yes, 46, 5),
        delta_row(4, 1300, Side::No, 54, -3),
    ];
    let trades = vec![trade_row(3, 1200), trade_row(5, 1400)];
    let events = merge(&ob, &trades).unwrap();
    let deltas: Vec<&Event> = events.iter().filter(|e| matches!(e, Event::Delta { .. })).collect();
    let trade_events: Vec<&Event> = events.iter().filter(|e| matches!(e, Event::Trade { .. })).collect();
    let snapshots = events.iter().filter(|e| matches!(e, Event::Snapshot { .. })).count();
    assert_eq!(deltas.len(), 2);
    assert_eq!(trade_events.len(), 2);
    assert_eq!(snapshots, 1);
    assert_eq!(
        *deltas[1],
        Event::Delta { seq: 4, ts: 1300, ticker: "TEST".to_string(), side: Side::No, price: 54, delta: -3 }
    );
    assert_eq!(
        *trade_events[0],
        Event::Trade {
            seq: 3,
            ts: 1200,
            ticker: "TEST".to_string(),
            yes_price: 50,
            no_price: 50,
            qty: 25,
            taker: Side::Yes
        }
    );
}
