//! Decoding the exchange's websocket messages into the rows of the orderbook and trade
//! CSV files that the collector records: an orderbook snapshot gives one row per level
//! of each side, a delta one row, a trade one row, and any other message none.

use crate::kalshi_json::{
    field, field_node, int_of, items_of, json_node_of, read_json, strings_view, text_of,
    JsonNode, JsonNodeView,
};
use vstd::prelude::*;

verus! {

/// A row of the orderbook file.
#[derive(Debug, Clone, PartialEq, Eq)]
pub struct FeedBookRow {
    pub client_ts: u64,
    pub market_ticker: String,
    pub seq: i64,
    pub price: i64,
    pub delta: i64,
    pub side: String,
    pub msg_type: String,
}

/// A row of the trades file.
#[derive(Debug, Clone, PartialEq, Eq)]
pub struct FeedTradeRow {
    pub client_ts: u64,
    pub server_ts: i64,
    pub market_ticker: String,
    pub yes_price: i64,
    pub no_price: i64,
    pub count: i64,
    pub taker_side: String,
}

/// The rows one message gives.
#[derive(Debug, Clone, PartialEq, Eq)]
pub struct FeedRows {
    pub book: Vec<FeedBookRow>,
    pub trades: Vec<FeedTradeRow>,
}

/// The abstract value of a [`FeedBookRow`].
pub struct BookRowView {
    pub client_ts: u64,
    pub market_ticker: Seq<char>,
    pub seq: i64,
    pub price: i64,
    pub delta: i64,
    pub side: Seq<char>,
    pub msg_type: Seq<char>,
}

/// The abstract value of a [`FeedTradeRow`].
pub struct TradeRowView {
    pub client_ts: u64,
    pub server_ts: i64,
    pub market_ticker: Seq<char>,
    pub yes_price: i64,
    pub no_price: i64,
    pub count: i64,
    pub taker_side: Seq<char>,
}

impl View for FeedBookRow {
    type V = BookRowView;

    open spec fn view(&self) -> BookRowView {
        BookRowView {
            client_ts: self.client_ts,
            market_ticker: self.market_ticker@,
            seq: self.seq,
            price: self.price,
            delta: self.delta,
            side: self.side@,
            msg_type: self.msg_type@,
        }
    }
}

impl View for FeedTradeRow {
    type V = TradeRowView;

    open spec fn view(&self) -> TradeRowView {
        TradeRowView {
            client_ts: self.client_ts,
            server_ts: self.server_ts,
            market_ticker: self.market_ticker@,
            yes_price: self.yes_price,
            no_price: self.no_price,
            count: self.count,
            taker_side: self.taker_side@,
        }
    }
}

/// The views of orderbook rows.
pub open spec fn book_rows_view(v: Seq<FeedBookRow>) -> Seq<BookRowView> {
    v.map_values(|r: FeedBookRow| r@)
}

/// The views of trade rows.
pub open spec fn trade_rows_view(v: Seq<FeedTradeRow>) -> Seq<TradeRowView> {
    v.map_values(|r: FeedTradeRow| r@)
}

/// A string member's text, or the empty text.
pub open spec fn or_empty(t: Option<Seq<char>>) -> Seq<char> {
    match t {
        Some(t) => t,
        None => Seq::empty(),
    }
}

/// An integer member's value, or zero.
pub open spec fn or_zero(i: Option<i64>) -> i64 {
    match i {
        Some(i) => i,
        None => 0,
    }
}

/// The integer held by element `k` of an array given by its element texts.
pub open spec fn element_int(parts: Seq<Seq<char>>, k: int) -> Option<i64> {
    if 0 <= k < parts.len() {
        int_of(json_node_of(parts[k]))
    } else {
        None
    }
}

/// The snapshot row of one level `[price, size]` of a side; none when the level is no
/// array or its first two elements are not both integers.
pub open spec fn level_row(
    level: Seq<char>,
    ts: u64,
    ticker: Seq<char>,
    seq: i64,
    side: Seq<char>,
) -> Option<BookRowView> {
    match items_of(json_node_of(level)) {
        Some(parts) => match (element_int(parts, 0), element_int(parts, 1)) {
            (Some(p), Some(s)) => Some(
                BookRowView {
                    client_ts: ts,
                    market_ticker: ticker,
                    seq,
                    price: p,
                    delta: s,
                    side,
                    msg_type: "snapshot"@,
                },
            ),
            _ => None,
        },
        None => None,
    }
}

/// The snapshot rows of the levels of a side, in order.
pub open spec fn level_rows(
    levels: Seq<Seq<char>>,
    ts: u64,
    ticker: Seq<char>,
    seq: i64,
    side: Seq<char>,
) -> Seq<BookRowView>
    decreases levels.len(),
{
    if levels.len() == 0 {
        Seq::empty()
    } else {
        let rows = level_rows(levels.drop_last(), ts, ticker, seq, side);
        match level_row(levels.last(), ts, ticker, seq, side) {
            Some(r) => rows.push(r),
            None => rows,
        }
    }
}

/// The snapshot rows of the side `side` of a snapshot's body: none when it has no such
/// array.
pub open spec fn side_rows(
    msg: JsonNodeView,
    ts: u64,
    ticker: Seq<char>,
    seq: i64,
    side: Seq<char>,
) -> Seq<BookRowView> {
    match items_of(field(msg, side)) {
        Some(levels) => level_rows(levels, ts, ticker, seq, side),
        None => Seq::empty(),
    }
}

/// The rows of a snapshot's body: those of its `yes` side, then those of its `no` side.
pub open spec fn snapshot_rows(msg: JsonNodeView, ts: u64, seq: i64) -> Seq<BookRowView> {
    let ticker = or_empty(text_of(field(msg, "market_ticker"@)));
    side_rows(msg, ts, ticker, seq, "yes"@) + side_rows(msg, ts, ticker, seq, "no"@)
}

/// The row of a delta's body; a missing text is empty and a missing number zero.
pub open spec fn delta_row(msg: JsonNodeView, ts: u64, seq: i64) -> BookRowView {
    BookRowView {
        client_ts: ts,
        market_ticker: or_empty(text_of(field(msg, "market_ticker"@))),
        seq,
        price: or_zero(int_of(field(msg, "price"@))),
        delta: or_zero(int_of(field(msg, "delta"@))),
        side: or_empty(text_of(field(msg, "side"@))),
        msg_type: "delta"@,
    }
}

/// The row of a trade's body; a missing text is empty and a missing number zero.
pub open spec fn trade_row(msg: JsonNodeView, ts: u64) -> TradeRowView {
    TradeRowView {
        client_ts: ts,
        server_ts: or_zero(int_of(field(msg, "ts"@))),
        market_ticker: or_empty(text_of(field(msg, "market_ticker"@))),
        yes_price: or_zero(int_of(field(msg, "yes_price"@))),
        no_price: or_zero(int_of(field(msg, "no_price"@))),
        count: or_zero(int_of(field(msg, "count"@))),
        taker_side: or_empty(text_of(field(msg, "taker_side"@))),
    }
}

/// The orderbook rows and trade rows of a message received at `ts`: by its `type`, a
/// snapshot or a delta with an integer `seq` and a `msg` body, or a trade with a `msg`
/// body; anything else gives no row.
pub open spec fn message_rows(top: JsonNodeView, ts: u64) -> (Seq<BookRowView>, Seq<TradeRowView>) {
    let kind = text_of(field(top, "type"@));
    let seq = int_of(field(top, "seq"@));
    let msg = field(top, "msg"@);
    if kind == Some("orderbook_snapshot"@) {
        match (seq, msg) {
            (Some(s), Some(m)) => (snapshot_rows(m, ts, s), Seq::empty()),
            _ => (Seq::empty(), Seq::empty()),
        }
    } else if kind == Some("orderbook_delta"@) {
        match (seq, msg) {
            (Some(s), Some(m)) => (seq![delta_row(m, ts, s)], Seq::empty()),
            _ => (Seq::empty(), Seq::empty()),
        }
    } else if kind == Some("trade"@) {
        match msg {
            Some(m) => (Seq::empty(), seq![trade_row(m, ts)]),
            None => (Seq::empty(), Seq::empty()),
        }
    } else {
        (Seq::empty(), Seq::empty())
    }
}

/// The text of a string member, or the empty text.
fn text_or_empty(n: &Option<JsonNode>) -> (r: String)
    ensures
        r@ == or_empty(text_of(crate::kalshi_json::node_view(*n))),
{
    match n {
        Some(n) => match &n.text {
            Some(t) => t.clone(),
            None => String::new(),
        },
        None => String::new(),
    }
}

/// The value of an integer member, or zero.
fn int_or_zero(n: &Option<JsonNode>) -> (r: i64)
    ensures
        r == or_zero(int_of(crate::kalshi_json::node_view(*n))),
{
    match n {
        Some(n) => match n.int {
            Some(i) => i,
            None => 0,
        },
        None => 0,
    }
}

/// The integer held by element `k` of an array.
fn element_int_exec(parts: &Vec<String>, k: usize) -> (r: Option<i64>)
    ensures
        r == element_int(strings_view(parts@), k as int),
{
    if k < parts.len() {
        match read_json(parts[k].as_str()) {
            Some(n) => n.int,
            None => None,
        }
    } else {
        None
    }
}

/// The snapshot row of one level.
fn level_row_exec(level: &String, ts: u64, ticker: &String, seq: i64, side: &String) -> (r: Option<
    FeedBookRow,
>)
    ensures
        match r {
            Some(row) => level_row(level@, ts, ticker@, seq, side@) == Some(row@),
            None => level_row(level@, ts, ticker@, seq, side@) is None,
        },
{
    match read_json(level.as_str()) {
        Some(n) => match &n.items {
            Some(parts) => match (element_int_exec(parts, 0), element_int_exec(parts, 1)) {
                (Some(p), Some(s)) => Some(
                    FeedBookRow {
                        client_ts: ts,
                        market_ticker: ticker.clone(),
                        seq,
                        price: p,
                        delta: s,
                        side: side.clone(),
                        msg_type: "snapshot".to_owned(),
                    },
                ),
                _ => None,
            },
            None => None,
        },
        None => None,
    }
}

/// Appends the snapshot rows of the side `side` of a snapshot's body.
fn push_side_rows(
    rows: &mut Vec<FeedBookRow>,
    msg: &JsonNode,
    ts: u64,
    ticker: &String,
    seq: i64,
    side: &String,
)
    ensures
        book_rows_view(final(rows)@) == book_rows_view(old(rows)@) + side_rows(
            msg@,
            ts,
            ticker@,
            seq,
            side@,
        ),
{
    let ghost start = book_rows_view(rows@);
    match field_node(msg, side) {
        Some(n) => match &n.items {
            Some(levels) => {
                let ghost ls = strings_view(levels@);
                let count = levels.len();
                let mut i: usize = 0;
                proof {
                    assert(ls.take(0) =~= Seq::<Seq<char>>::empty());
                    assert(start + level_rows(ls.take(0), ts, ticker@, seq, side@) =~= start);
                }
                while i < count
                    invariant
                        0 <= i <= count,
                        count == levels@.len(),
                        ls == strings_view(levels@),
                        book_rows_view(rows@) == start + level_rows(
                            ls.take(i as int),
                            ts,
                            ticker@,
                            seq,
                            side@,
                        ),
                    decreases count - i,
                {
                    proof {
                        assert(ls.take(i + 1).drop_last() =~= ls.take(i as int));
                        assert(ls.take(i + 1).last() == levels@[i as int]@);
                    }
                    let ghost before = rows@;
                    match level_row_exec(&levels[i], ts, ticker, seq, side) {
                        Some(row) => {
                            rows.push(row);
                            proof {
                                assert(book_rows_view(rows@) =~= book_rows_view(before).push(
                                    row@,
                                ));
                            }
                        },
                        None => {},
                    }
                    i = i + 1;
                }
                proof {
                    assert(ls.take(count as int) =~= ls);
                }
            },
            None => {
                proof {
                    assert(book_rows_view(rows@) =~= start + Seq::<BookRowView>::empty());
                }
            },
        },
        None => {
            proof {
                assert(book_rows_view(rows@) =~= start + Seq::<BookRowView>::empty());
            }
        },
    }
}

/// Decodes a message received at `client_ts` into the rows it gives; `None` when the
/// message is not JSON.
pub fn decode_feed_message(text: &str, client_ts: u64) -> (r: Option<FeedRows>)
    ensures
        match r {
            Some(rows) => match json_node_of(text@) {
                Some(top) => message_rows(top, client_ts) == (
                    book_rows_view(rows.book@),
                    trade_rows_view(rows.trades@),
                ),
                None => false,
            },
            None => json_node_of(text@) is None,
        },
{
    match read_json(text) {
        Some(top) => Some(feed_rows(&top, client_ts)),
        None => None,
    }
}

/// The rows a message, read as the JSON value `top`, gives when received at `client_ts`.
pub fn feed_rows(top: &JsonNode, client_ts: u64) -> (r: FeedRows)
    ensures
        message_rows(top@, client_ts) == (book_rows_view(r.book@), trade_rows_view(r.trades@)),
{
    let kind = field_node(top, &"type".to_owned());
    let seq = field_node(top, &"seq".to_owned());
    let msg = field_node(top, &"msg".to_owned());
    let kind_text: Option<String> = match &kind {
        Some(k) => k.text.clone(),
        None => None,
    };
    let seq_int: Option<i64> = match &seq {
        Some(s) => s.int,
        None => None,
    };
    let mut book: Vec<FeedBookRow> = Vec::new();
    let mut trades: Vec<FeedTradeRow> = Vec::new();
    proof {
        assert(book_rows_view(book@) =~= Seq::<BookRowView>::empty());
        assert(trade_rows_view(trades@) =~= Seq::<TradeRowView>::empty());
    }
    let snapshot = "orderbook_snapshot".to_owned();
    let delta = "orderbook_delta".to_owned();
    let trade = "trade".to_owned();
    match kind_text {
        Some(k) => {
            if k == snapshot {
                match (seq_int, &msg) {
                    (Some(s), Some(m)) => {
                        let ticker = text_or_empty(&field_node(m, &"market_ticker".to_owned()));
                        push_side_rows(&mut book, m, client_ts, &ticker, s, &"yes".to_owned());
                        push_side_rows(&mut book, m, client_ts, &ticker, s, &"no".to_owned());
                        proof {
                            assert(book_rows_view(book@) =~= snapshot_rows(m@, client_ts, s));
                        }
                    },
                    _ => {},
                }
            } else if k == delta {
                match (seq_int, &msg) {
                    (Some(s), Some(m)) => {
                        let row = FeedBookRow {
                            client_ts,
                            market_ticker: text_or_empty(
                                &field_node(m, &"market_ticker".to_owned()),
                            ),
                            seq: s,
                            price: int_or_zero(&field_node(m, &"price".to_owned())),
                            delta: int_or_zero(&field_node(m, &"delta".to_owned())),
                            side: text_or_empty(&field_node(m, &"side".to_owned())),
                            msg_type: "delta".to_owned(),
                        };
                        book.push(row);
                        proof {
                            assert(book_rows_view(book@) =~= seq![delta_row(m@, client_ts, s)]);
                        }
                    },
                    _ => {},
                }
            } else if k == trade {
                match &msg {
                    Some(m) => {
                        let row = FeedTradeRow {
                            client_ts,
                            server_ts: int_or_zero(&field_node(m, &"ts".to_owned())),
                            market_ticker: text_or_empty(
                                &field_node(m, &"market_ticker".to_owned()),
                            ),
                            yes_price: int_or_zero(&field_node(m, &"yes_price".to_owned())),
                            no_price: int_or_zero(&field_node(m, &"no_price".to_owned())),
                            count: int_or_zero(&field_node(m, &"count".to_owned())),
                            taker_side: text_or_empty(&field_node(m, &"taker_side".to_owned())),
                        };
                        trades.push(row);
                        proof {
                            assert(trade_rows_view(trades@) =~= seq![trade_row(m@, client_ts)]);
                        }
                    },
                    None => {},
                }
            }
        },
        None => {},
    }
    FeedRows { book, trades }
}

} // verus!
