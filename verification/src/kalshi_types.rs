use vstd::prelude::*;

verus! {

/// Unique identifier for orders
pub type OrderId = u64;

/// Side of the market
#[derive(Debug, Clone, Copy, PartialEq, Eq, Hash, Structural)]
pub enum Side {
    Yes,
    No,
}

/// Events in the unified stream
#[derive(Debug, Clone, PartialEq, Eq)]
pub enum Event {
    Snapshot {
        seq: u64,
        ts: u64,
        ticker: String,
        /// (price_cents, quantity)
        yes_levels: Vec<(u8, i64)>,
        no_levels: Vec<(u8, i64)>,
    },
    Delta {
        seq: u64,
        ts: u64,
        ticker: String,
        side: Side,
        /// cents
        price: u8,
        /// positive = add, negative = remove
        delta: i64,
    },
    Trade {
        seq: u64,
        ts: u64,
        ticker: String,
        yes_price: u8,
        no_price: u8,
        qty: i64,
        /// which side was the taker
        taker: Side,
    },
}

impl Event {
    /// The sequence number of any event.
    pub open spec fn spec_seq(&self) -> u64 {
        match self {
            Event::Snapshot { seq, .. } => *seq,
            Event::Delta { seq, .. } => *seq,
            Event::Trade { seq, .. } => *seq,
        }
    }

    /// The timestamp of any event.
    pub open spec fn spec_ts(&self) -> u64 {
        match self {
            Event::Snapshot { ts, .. } => *ts,
            Event::Delta { ts, .. } => *ts,
            Event::Trade { ts, .. } => *ts,
        }
    }

    /// The ticker of any event.
    pub open spec fn spec_ticker(&self) -> Seq<char> {
        match self {
            Event::Snapshot { ticker, .. } => ticker@,
            Event::Delta { ticker, .. } => ticker@,
            Event::Trade { ticker, .. } => ticker@,
        }
    }

    pub fn seq(&self) -> (r: u64)
        ensures
            r == self.spec_seq(),
    {
        match self {
            Event::Snapshot { seq, .. } => *seq,
            Event::Delta { seq, .. } => *seq,
            Event::Trade { seq, .. } => *seq,
        }
    }

    pub fn ts(&self) -> (r: u64)
        ensures
            r == self.spec_ts(),
    {
        match self {
            Event::Snapshot { ts, .. } => *ts,
            Event::Delta { ts, .. } => *ts,
            Event::Trade { ts, .. } => *ts,
        }
    }

    pub fn ticker(&self) -> (r: &str)
        ensures
            r@ == self.spec_ticker(),
    {
        match self {
            Event::Snapshot { ticker, .. } => ticker.as_str(),
            Event::Delta { ticker, .. } => ticker.as_str(),
            Event::Trade { ticker, .. } => ticker.as_str(),
        }
    }
}

/// The abstract value of an event, with its strings and level lists as sequences.
pub enum EventView {
    Snapshot {
        seq: u64,
        ts: u64,
        ticker: Seq<char>,
        yes_levels: Seq<(u8, i64)>,
        no_levels: Seq<(u8, i64)>,
    },
    Delta { seq: u64, ts: u64, ticker: Seq<char>, side: Side, price: u8, delta: i64 },
    Trade {
        seq: u64,
        ts: u64,
        ticker: Seq<char>,
        yes_price: u8,
        no_price: u8,
        qty: i64,
        taker: Side,
    },
}

impl EventView {
    /// The sequence number of any event.
    pub open spec fn seq(self) -> u64 {
        match self {
            EventView::Snapshot { seq, .. } => seq,
            EventView::Delta { seq, .. } => seq,
            EventView::Trade { seq, .. } => seq,
        }
    }

    /// The timestamp of any event.
    pub open spec fn ts(self) -> u64 {
        match self {
            EventView::Snapshot { ts, .. } => ts,
            EventView::Delta { ts, .. } => ts,
            EventView::Trade { ts, .. } => ts,
        }
    }
}

impl View for Event {
    type V = EventView;

    open spec fn view(&self) -> EventView {
        match self {
            Event::Snapshot { seq, ts, ticker, yes_levels, no_levels } => EventView::Snapshot {
                seq: *seq,
                ts: *ts,
                ticker: ticker@,
                yes_levels: yes_levels@,
                no_levels: no_levels@,
            },
            Event::Delta { seq, ts, ticker, side, price, delta } => EventView::Delta {
                seq: *seq,
                ts: *ts,
                ticker: ticker@,
                side: *side,
                price: *price,
                delta: *delta,
            },
            Event::Trade { seq, ts, ticker, yes_price, no_price, qty, taker } => EventView::Trade {
                seq: *seq,
                ts: *ts,
                ticker: ticker@,
                yes_price: *yes_price,
                no_price: *no_price,
                qty: *qty,
                taker: *taker,
            },
        }
    }
}

/// Market data provided to strategies
#[derive(Debug, Clone)]
pub struct MarketData {
    pub ts: u64,
    pub ticker: String,
    /// best bid price in cents
    pub bid: u8,
    /// best ask price in cents
    pub ask: u8,
}

/// Order instructions from strategy
#[derive(Debug, Clone, PartialEq, Eq)]
pub enum OrderInstr {
    /// A resting limit order; it lives `ttl_ms` milliseconds after it becomes active.
    Limit { side: Side, price: u8, qty: i64, ttl_ms: u64 },
    Cancel { id: OrderId },
}

/// Active order in the simulator
#[derive(Debug, Clone, Copy, PartialEq, Eq)]
pub struct ActiveOrder {
    pub id: OrderId,
    pub side: Side,
    pub price: u8,
    pub remaining: i64,
    pub expiry_time: u64,
}

/// Pending order waiting for activation
#[derive(Debug, Clone, Copy, PartialEq, Eq)]
pub struct PendingOrder {
    pub id: OrderId,
    pub side: Side,
    pub price: u8,
    pub qty: i64,
    pub activation_time: u64,
    pub expiry_time: u64,
}

impl PendingOrder {
    /// The active order that a pending order becomes: its whole quantity remains.
    pub open spec fn spec_into_active(self) -> ActiveOrder {
        ActiveOrder {
            id: self.id,
            side: self.side,
            price: self.price,
            remaining: self.qty,
            expiry_time: self.expiry_time,
        }
    }

    pub fn into_active(self) -> (r: ActiveOrder)
        ensures
            r == self.spec_into_active(),
    {
        ActiveOrder {
            id: self.id,
            side: self.side,
            price: self.price,
            remaining: self.qty,
            expiry_time: self.expiry_time,
        }
    }
}

/// Fill notification
#[derive(Debug, Clone, Copy, PartialEq, Eq)]
pub struct Fill {
    pub id: OrderId,
    pub price: u8,
    pub qty: i64,
    pub ts: u64,
    /// The side of the order that was filled
    pub side: Side,
}

/// Order audit trail
#[derive(Debug, Clone, Copy, PartialEq, Eq)]
pub struct OrderAudit {
    pub id: OrderId,
    pub side: Side,
    pub price: u8,
    pub original_qty: i64,
    pub filled_qty: i64,
    pub create_time: u64,
    pub activation_time: u64,
    pub expiry_time: u64,
    pub status: OrderStatus,
}

#[derive(Debug, Clone, Copy, PartialEq, Eq, Structural)]
pub enum OrderStatus {
    Created,
    Active,
    PartiallyFilled,
    Filled,
    Cancelled,
    Expired,
}

/// Integer metrics collected during a backtest.
#[derive(Debug, Clone, Copy, PartialEq, Eq)]
pub struct Metrics {
    pub gross_pnl_cents: i64,
    pub num_spreads: usize,
    pub volume_traded: i64,
    pub total_fills: usize,
    pub total_orders: usize,
    pub cancelled_orders: usize,
    pub expired_orders: usize,
}

impl Metrics {
    /// All counters at zero.
    pub open spec fn spec_zero() -> Metrics {
        Metrics {
            gross_pnl_cents: 0,
            num_spreads: 0,
            volume_traded: 0,
            total_fills: 0,
            total_orders: 0,
            cancelled_orders: 0,
            expired_orders: 0,
        }
    }

    pub fn new() -> (r: Metrics)
        ensures
            r == Metrics::spec_zero(),
    {
        Metrics {
            gross_pnl_cents: 0,
            num_spreads: 0,
            volume_traded: 0,
            total_fills: 0,
            total_orders: 0,
            cancelled_orders: 0,
            expired_orders: 0,
        }
    }

    /// Profit of a sell fill against a cost basis.
    pub open spec fn spec_fill_pnl(fill: Fill, cost_basis: i64) -> int {
        (fill.price - cost_basis) * fill.qty
    }

    /// Whether `update_fill` can be applied without leaving the integer ranges.
    pub open spec fn can_update_fill(self, fill: Fill, is_buy: bool, cost_basis: i64) -> bool {
        &&& self.total_fills < usize::MAX
        &&& i64::MIN <= self.volume_traded + fill.qty <= i64::MAX
        &&& !is_buy ==> {
            &&& fill.price - cost_basis <= i64::MAX
            &&& i64::MIN <= Self::spec_fill_pnl(fill, cost_basis) <= i64::MAX
            &&& i64::MIN <= self.gross_pnl_cents + Self::spec_fill_pnl(fill, cost_basis)
                <= i64::MAX
            &&& self.num_spreads < usize::MAX
        }
    }

    /// The metrics after recording a fill.
    pub open spec fn after_fill(self, fill: Fill, is_buy: bool, cost_basis: i64) -> Metrics {
        let pnl = Self::spec_fill_pnl(fill, cost_basis);
        Metrics {
            total_fills: (self.total_fills + 1) as usize,
            volume_traded: (self.volume_traded + fill.qty) as i64,
            gross_pnl_cents: if is_buy {
                self.gross_pnl_cents
            } else {
                (self.gross_pnl_cents + pnl) as i64
            },
            num_spreads: if !is_buy && pnl > 0 {
                (self.num_spreads + 1) as usize
            } else {
                self.num_spreads
            },
            ..self
        }
    }

    /// Record a fill: one more fill, its quantity traded, and for a sell the profit
    /// against `cost_basis`, a profitable sell counting as one completed spread.
    pub fn update_fill(&mut self, fill: &Fill, is_buy: bool, cost_basis: i64)
        requires
            old(self).can_update_fill(*fill, is_buy, cost_basis),
        ensures
            final(self).total_fills == old(self).total_fills + 1,
            final(self).volume_traded == old(self).volume_traded + fill.qty,
            final(self).gross_pnl_cents == old(self).gross_pnl_cents + (if is_buy {
                0
            } else {
                Metrics::spec_fill_pnl(*fill, cost_basis)
            }),
            final(self).num_spreads == old(self).num_spreads + (if !is_buy
                && Metrics::spec_fill_pnl(*fill, cost_basis) > 0 {
                1int
            } else {
                0int
            }),
            final(self).total_orders == old(self).total_orders,
            final(self).cancelled_orders == old(self).cancelled_orders,
            final(self).expired_orders == old(self).expired_orders,
            *final(self) == old(self).after_fill(*fill, is_buy, cost_basis),
    {
        self.total_fills = self.total_fills + 1;
        self.volume_traded = self.volume_traded + fill.qty;
        if !is_buy {
            let pnl = (fill.price as i64 - cost_basis) * fill.qty;
            self.gross_pnl_cents = self.gross_pnl_cents + pnl;
            if pnl > 0 {
                self.num_spreads = self.num_spreads + 1;
            }
        }
    }
}

impl Default for Metrics {
    fn default() -> (r: Self)
        ensures
            r == Metrics::spec_zero(),
    {
        Metrics::new()
    }
}

/// Final backtest report
#[derive(Debug, Clone)]
pub struct Report {
    pub metrics: Metrics,
    pub fills: Vec<Fill>,
    pub orders: Vec<OrderAudit>,
}

/// Configuration for the execution simulator
#[derive(Debug, Clone, Copy, PartialEq, Eq)]
pub struct SimConfig {
    /// Delay between an order's submission and its activation, in milliseconds.
    pub latency_ms: u64,
    pub start_time: u64,
    pub end_time: Option<u64>,
}

impl Default for SimConfig {
    fn default() -> (r: Self)
        ensures
            r.latency_ms == 5,
            r.start_time == 0,
            r.end_time is None,
    {
        SimConfig { latency_ms: 5, start_time: 0, end_time: None }
    }
}

/// Raw orderbook row from CSV
#[derive(Debug, Clone, PartialEq, Eq)]
pub struct RawObRow {
    pub seq: u64,
    pub ts: u64,
    pub ticker: String,
    /// "snapshot" or "delta"
    pub msg_type: String,
    pub side: Option<Side>,
    pub price: Option<u8>,
    pub quantity: Option<i64>,
    pub yes_levels: Option<Vec<(u8, i64)>>,
    pub no_levels: Option<Vec<(u8, i64)>>,
}

/// The abstract value of an orderbook row.
pub struct RawObRowView {
    pub seq: u64,
    pub ts: u64,
    pub ticker: Seq<char>,
    pub msg_type: Seq<char>,
    pub side: Option<Side>,
    pub price: Option<u8>,
    pub quantity: Option<i64>,
    pub yes_levels: Option<Seq<(u8, i64)>>,
    pub no_levels: Option<Seq<(u8, i64)>>,
}

/// The view of optional levels.
pub open spec fn levels_view(l: Option<Vec<(u8, i64)>>) -> Option<Seq<(u8, i64)>> {
    match l {
        Some(v) => Some(v@),
        None => None,
    }
}

impl View for RawObRow {
    type V = RawObRowView;

    open spec fn view(&self) -> RawObRowView {
        RawObRowView {
            seq: self.seq,
            ts: self.ts,
            ticker: self.ticker@,
            msg_type: self.msg_type@,
            side: self.side,
            price: self.price,
            quantity: self.quantity,
            yes_levels: levels_view(self.yes_levels),
            no_levels: levels_view(self.no_levels),
        }
    }
}

/// The abstract value of a trade row.
pub struct RawTradeRowView {
    pub seq: u64,
    pub ts: u64,
    pub ticker: Seq<char>,
    pub yes_price: u8,
    pub no_price: u8,
    pub qty: i64,
    pub taker: Side,
}

impl View for RawTradeRow {
    type V = RawTradeRowView;

    open spec fn view(&self) -> RawTradeRowView {
        RawTradeRowView {
            seq: self.seq,
            ts: self.ts,
            ticker: self.ticker@,
            yes_price: self.yes_price,
            no_price: self.no_price,
            qty: self.qty,
            taker: self.taker,
        }
    }
}

/// Raw trade row from CSV
#[derive(Debug, Clone, PartialEq, Eq)]
pub struct RawTradeRow {
    pub seq: u64,
    pub ts: u64,
    pub ticker: String,
    pub yes_price: u8,
    pub no_price: u8,
    pub qty: i64,
    pub taker: Side,
}

} // verus!
