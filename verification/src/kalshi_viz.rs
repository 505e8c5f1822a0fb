//! Data collected for visualizing a backtest: best bid and ask over time, the
//! strategy's actions and its fills, with the series the charts are drawn from.

use crate::kalshi_strategy::sat_sub;
use crate::kalshi_types::{Fill, MarketData, OrderId, OrderInstr, Side};
use vstd::prelude::*;

verus! {

/// Everything a visualization shows.
#[derive(Debug, Clone)]
pub struct VisualizationData {
    pub orderbook_snapshots: Vec<OrderbookSnapshot>,
    pub strategy_actions: Vec<StrategyAction>,
    pub fills: Vec<Fill>,
}

/// The best bid and ask seen at one time, with their spread.
#[derive(Debug, Clone, Copy, PartialEq, Eq)]
pub struct OrderbookSnapshot {
    pub ts: u64,
    pub bid: u8,
    pub ask: u8,
    pub spread: u8,
}

/// An instruction the strategy gave, with the time it gave it.
#[derive(Debug, Clone, Copy, PartialEq, Eq)]
pub enum StrategyAction {
    PlaceOrder { ts: u64, side: Side, price: u8, qty: i64 },
    CancelOrder { ts: u64, id: OrderId },
}

impl StrategyAction {
    /// The time of an action.
    pub open spec fn spec_ts(self) -> u64 {
        match self {
            StrategyAction::PlaceOrder { ts, .. } => ts,
            StrategyAction::CancelOrder { ts, .. } => ts,
        }
    }

    /// The time of an action.
    pub fn ts(&self) -> (r: u64)
        ensures
            r == self.spec_ts(),
    {
        match self {
            StrategyAction::PlaceOrder { ts, .. } => *ts,
            StrategyAction::CancelOrder { ts, .. } => *ts,
        }
    }
}

/// The abstract value of visualization data.
pub struct VisualizationView {
    pub orderbook_snapshots: Seq<OrderbookSnapshot>,
    pub strategy_actions: Seq<StrategyAction>,
    pub fills: Seq<Fill>,
}

impl View for VisualizationData {
    type V = VisualizationView;

    open spec fn view(&self) -> VisualizationView {
        VisualizationView {
            orderbook_snapshots: self.orderbook_snapshots@,
            strategy_actions: self.strategy_actions@,
            fills: self.fills@,
        }
    }
}

/// The snapshot recorded for market data: its time, bid and ask, and the spread from
/// bid to ask (0 when the market is locked or crossed).
pub open spec fn snapshot_of(md: MarketData) -> OrderbookSnapshot {
    OrderbookSnapshot { ts: md.ts, bid: md.bid, ask: md.ask, spread: sat_sub(md.ask, md.bid) }
}

/// The action recorded for an instruction given at `ts`.
pub open spec fn action_of(ts: u64, instr: OrderInstr) -> StrategyAction {
    match instr {
        OrderInstr::Limit { side, price, qty, .. } => StrategyAction::PlaceOrder {
            ts,
            side,
            price,
            qty,
        },
        OrderInstr::Cancel { id } => StrategyAction::CancelOrder { ts, id },
    }
}

/// Snapshots within `[start, end]`.
pub open spec fn snapshot_within(start: u64, end: u64) -> spec_fn(OrderbookSnapshot) -> bool {
    |s: OrderbookSnapshot| start <= s.ts <= end
}

/// Actions within `[start, end]`.
pub open spec fn action_within(start: u64, end: u64) -> spec_fn(StrategyAction) -> bool {
    |a: StrategyAction| start <= a.spec_ts() <= end
}

/// The time range kept around the fills: from the first fill's time less the window
/// (but not below 0) to the last fill's time plus the window.
pub open spec fn fill_window(fills: Seq<Fill>, time_window: u64) -> (u64, u64) {
    (
        if fills[0].ts >= time_window {
            (fills[0].ts - time_window) as u64
        } else {
            0
        },
        (fills.last().ts + time_window) as u64,
    )
}

/// The abstract state of a visualization tracker.
pub struct TrackerView {
    pub data: VisualizationView,
    pub time_window: u64,
}

/// Collects what a backtest shows, to be visualized afterwards.
pub struct VisualizationTracker {
    orderbook_snapshots: Vec<OrderbookSnapshot>,
    strategy_actions: Vec<StrategyAction>,
    fills: Vec<Fill>,
    time_window: u64,
}

impl View for VisualizationTracker {
    type V = TrackerView;

    closed spec fn view(&self) -> TrackerView {
        TrackerView {
            data: VisualizationView {
                orderbook_snapshots: self.orderbook_snapshots@,
                strategy_actions: self.strategy_actions@,
                fills: self.fills@,
            },
            time_window: self.time_window,
        }
    }
}

/// The data kept by a tracker at the end: everything when the time window is 0 or there
/// was no fill; otherwise the snapshots and actions within the window around the fills,
/// and all the fills.
pub open spec fn finalized(t: TrackerView) -> VisualizationView {
    if t.time_window > 0 && t.data.fills.len() > 0 {
        let (start, end) = fill_window(t.data.fills, t.time_window);
        VisualizationView {
            orderbook_snapshots: t.data.orderbook_snapshots.filter(snapshot_within(start, end)),
            strategy_actions: t.data.strategy_actions.filter(action_within(start, end)),
            fills: t.data.fills,
        }
    } else {
        t.data
    }
}

/// Whether the window around the fills ends within the `u64` range.
pub open spec fn window_fits(t: TrackerView) -> bool {
    t.time_window > 0 && t.data.fills.len() > 0 ==> t.data.fills.last().ts + t.time_window
        <= u64::MAX
}

impl VisualizationTracker {
    /// A tracker with nothing recorded, keeping `time_window` around the fills (0 keeps
    /// the whole session).
    pub fn new(time_window: u64) -> (r: Self)
        ensures
            r@ == (TrackerView {
                data: VisualizationView {
                    orderbook_snapshots: Seq::empty(),
                    strategy_actions: Seq::empty(),
                    fills: Seq::empty(),
                },
                time_window,
            }),
    {
        VisualizationTracker {
            orderbook_snapshots: Vec::new(),
            strategy_actions: Vec::new(),
            fills: Vec::new(),
            time_window,
        }
    }

    /// Record the best bid and ask the strategy is shown.
    pub fn record_orderbook_snapshot(&mut self, md: &MarketData)
        ensures
            final(self)@ == (TrackerView {
                data: VisualizationView {
                    orderbook_snapshots: old(self)@.data.orderbook_snapshots.push(snapshot_of(*md)),
                    ..old(self)@.data
                },
                ..old(self)@
            }),
    {
        let spread = if md.ask >= md.bid {
            md.ask - md.bid
        } else {
            0
        };
        self.orderbook_snapshots.push(OrderbookSnapshot { ts: md.ts, bid: md.bid, ask: md.ask, spread });
    }

    /// Record an instruction the strategy gave at `ts`.
    pub fn record_strategy_action(&mut self, ts: u64, instr: &OrderInstr)
        ensures
            final(self)@ == (TrackerView {
                data: VisualizationView {
                    strategy_actions: old(self)@.data.strategy_actions.push(action_of(ts, *instr)),
                    ..old(self)@.data
                },
                ..old(self)@
            }),
    {
        let action = match instr {
            OrderInstr::Limit { side, price, qty, .. } => StrategyAction::PlaceOrder {
                ts,
                side: *side,
                price: *price,
                qty: *qty,
            },
            OrderInstr::Cancel { id } => StrategyAction::CancelOrder { ts, id: *id },
        };
        self.strategy_actions.push(action);
    }

    /// Record a fill.
    pub fn record_fill(&mut self, fill: Fill)
        ensures
            final(self)@ == (TrackerView {
                data: VisualizationView {
                    fills: old(self)@.data.fills.push(fill),
                    ..old(self)@.data
                },
                ..old(self)@
            }),
    {
        self.fills.push(fill);
    }

    /// Whether the window around the fills ends within the `u64` range.
    pub fn window_fits(&self) -> (r: bool)
        ensures
            r == window_fits(self@),
    {
        if self.time_window > 0 && self.fills.len() > 0 {
            self.fills[self.fills.len() - 1].ts.checked_add(self.time_window).is_some()
        } else {
            true
        }
    }

    /// The data to visualize: with a time window and some fills, only the snapshots and
    /// actions within the window around the fills are kept.
    pub fn finalize(self) -> (r: VisualizationData)
        requires
            window_fits(self@),
        ensures
            r@ == finalized(self@),
    {
        let ghost t = self@;
        let VisualizationTracker { orderbook_snapshots, strategy_actions, fills, time_window } = self;
        if time_window > 0 && fills.len() > 0 {
            let first = fills[0].ts;
            let last = fills[fills.len() - 1].ts;
            let start = if first >= time_window {
                first - time_window
            } else {
                0
            };
            let end = last + time_window;
            assert((start, end) == fill_window(t.data.fills, t.time_window));
            let snaps = keep_snapshots(&orderbook_snapshots, start, end);
            let actions = keep_actions(&strategy_actions, start, end);
            VisualizationData { orderbook_snapshots: snaps, strategy_actions: actions, fills }
        } else {
            VisualizationData { orderbook_snapshots, strategy_actions, fills }
        }
    }
}

/// The snapshots within `[start, end]`, in order.
fn keep_snapshots(v: &Vec<OrderbookSnapshot>, start: u64, end: u64) -> (r: Vec<OrderbookSnapshot>)
    ensures
        r@ == v@.filter(snapshot_within(start, end)),
{
    let mut r: Vec<OrderbookSnapshot> = Vec::new();
    let n = v.len();
    let mut i: usize = 0;
    while i < n
        invariant
            0 <= i <= n,
            n == v@.len(),
            r@ == v@.take(i as int).filter(snapshot_within(start, end)),
        decreases n - i,
    {
        let s = v[i];
        proof {
            assert(v@.take(i + 1) =~= v@.take(i as int).push(s));
            v@.take(i as int).lemma_filter_push(s, snapshot_within(start, end));
        }
        if start <= s.ts && s.ts <= end {
            r.push(s);
        }
        i = i + 1;
    }
    proof {
        assert(v@.take(n as int) =~= v@);
    }
    r
}

/// The actions within `[start, end]`, in order.
fn keep_actions(v: &Vec<StrategyAction>, start: u64, end: u64) -> (r: Vec<StrategyAction>)
    ensures
        r@ == v@.filter(action_within(start, end)),
{
    let mut r: Vec<StrategyAction> = Vec::new();
    let n = v.len();
    let mut i: usize = 0;
    while i < n
        invariant
            0 <= i <= n,
            n == v@.len(),
            r@ == v@.take(i as int).filter(action_within(start, end)),
        decreases n - i,
    {
        let a = v[i];
        proof {
            assert(v@.take(i + 1) =~= v@.take(i as int).push(a));
            v@.take(i as int).lemma_filter_push(a, action_within(start, end));
        }
        let t = a.ts();
        if start <= t && t <= end {
            r.push(a);
        }
        i = i + 1;
    }
    proof {
        assert(v@.take(n as int) =~= v@);
    }
    r
}

/// The spread statistics of one stretch of snapshots.
#[derive(Debug, Clone, Copy, PartialEq, Eq)]
pub struct SpreadWindow {
    /// The sum of the spreads.
    pub sum: u128,
    pub min: u8,
    pub max: u8,
    /// The number of snapshots.
    pub count: usize,
}

/// The sum of the spreads of snapshots.
pub open spec fn spread_sum(c: Seq<OrderbookSnapshot>) -> int
    decreases c.len(),
{
    if c.len() == 0 {
        0
    } else {
        spread_sum(c.drop_last()) + c.last().spread
    }
}

/// The smallest spread of snapshots (of at least one).
pub open spec fn spread_min(c: Seq<OrderbookSnapshot>) -> u8
    decreases c.len(),
{
    if c.len() <= 1 {
        c[0].spread
    } else if c.last().spread < spread_min(c.drop_last()) {
        c.last().spread
    } else {
        spread_min(c.drop_last())
    }
}

/// The largest spread of snapshots (of at least one).
pub open spec fn spread_max(c: Seq<OrderbookSnapshot>) -> u8
    decreases c.len(),
{
    if c.len() <= 1 {
        c[0].spread
    } else if c.last().spread > spread_max(c.drop_last()) {
        c.last().spread
    } else {
        spread_max(c.drop_last())
    }
}

/// The statistics of a stretch of snapshots.
pub open spec fn window_of(c: Seq<OrderbookSnapshot>) -> SpreadWindow {
    SpreadWindow {
        sum: spread_sum(c) as u128,
        min: spread_min(c),
        max: spread_max(c),
        count: c.len() as usize,
    }
}

/// The statistics of consecutive stretches of `w` snapshots (the last one may be shorter).
pub open spec fn spread_windows(s: Seq<OrderbookSnapshot>, w: int) -> Seq<SpreadWindow>
    decreases s.len(),
{
    if s.len() == 0 || w <= 0 {
        Seq::empty()
    } else if s.len() <= w {
        seq![window_of(s)]
    } else {
        seq![window_of(s.take(w))] + spread_windows(s.skip(w), w)
    }
}

/// The stretch length of the statistics chart: a tenth of the snapshots, at least one.
pub open spec fn window_size(n: int) -> int {
    if n / 10 >= 1 {
        n / 10
    } else {
        1
    }
}

/// The total quantity filled in each second after the first snapshot, in the order the
/// seconds first appear among the fills; `None` when a fill comes before the first
/// snapshot or a total leaves the `i64` range.
pub open spec fn volume_windows(fills: Seq<Fill>, first_ts: u64) -> Option<Seq<(u64, i64)>>
    decreases fills.len(),
{
    if fills.len() == 0 {
        Some(Seq::empty())
    } else {
        match volume_windows(fills.drop_last(), first_ts) {
            None => None,
            Some(ws) => {
                let f = fills.last();
                if f.ts < first_ts {
                    None
                } else {
                    let key = ((f.ts - first_ts) / 1000) as u64;
                    let k = key_index(ws, key);
                    if k < 0 {
                        Some(ws.push((key, f.qty)))
                    } else if i64::MIN <= ws[k].1 + f.qty <= i64::MAX {
                        Some(ws.update(k, (key, (ws[k].1 + f.qty) as i64)))
                    } else {
                        None
                    }
                }
            },
        }
    }
}

/// The position of the first entry with `key`, or -1.
pub open spec fn key_index(ws: Seq<(u64, i64)>, key: u64) -> int
    decreases ws.len(),
{
    if ws.len() == 0 {
        -1
    } else {
        let k = key_index(ws.drop_last(), key);
        if k >= 0 {
            k
        } else if ws.last().0 == key {
            ws.len() - 1
        } else {
            -1
        }
    }
}

/// The entry found has the key looked for.
proof fn lemma_key_index_found(ws: Seq<(u64, i64)>, key: u64)
    ensures
        key_index(ws, key) >= 0 ==> key_index(ws, key) < ws.len() && ws[key_index(ws, key)].0
            == key,
        key_index(ws, key) >= -1,
    decreases ws.len(),
{
    if ws.len() > 0 {
        lemma_key_index_found(ws.drop_last(), key);
        let k = key_index(ws.drop_last(), key);
        if k >= 0 {
            assert(ws[k] == ws.drop_last()[k]);
        }
    }
}

/// The first entry found in a prefix is the first of all.
proof fn lemma_key_index_prefix(ws: Seq<(u64, i64)>, key: u64, k: int)
    requires
        0 <= k <= ws.len(),
        key_index(ws.take(k), key) >= 0,
    ensures
        key_index(ws, key) == key_index(ws.take(k), key),
    decreases ws.len() - k,
{
    if k == ws.len() {
        assert(ws.take(k) =~= ws);
    } else {
        assert(ws.take(k + 1).drop_last() =~= ws.take(k));
        lemma_key_index_prefix(ws, key, k + 1);
    }
}

/// The position of the first entry with `key`.
fn find_key(ws: &Vec<(u64, i64)>, key: u64) -> (r: Option<usize>)
    ensures
        match r {
            Some(k) => k < ws@.len() && key_index(ws@, key) == k,
            None => key_index(ws@, key) == -1,
        },
{
    let n = ws.len();
    let mut k: usize = 0;
    while k < n
        invariant
            0 <= k <= n,
            n == ws@.len(),
            key_index(ws@.take(k as int), key) == -1,
        decreases n - k,
    {
        proof {
            assert(ws@.take(k + 1).drop_last() =~= ws@.take(k as int));
            assert(ws@.take(k + 1).last() == ws@[k as int]);
        }
        if ws[k].0 == key {
            proof {
                lemma_key_index_prefix(ws@, key, k + 1);
            }
            return Some(k);
        }
        k = k + 1;
    }
    proof {
        assert(ws@.take(n as int) =~= ws@);
    }
    None
}

/// The statistics of the snapshots from position `start`, `m` of them.
fn window_at(v: &Vec<OrderbookSnapshot>, start: usize, m: usize) -> (r: SpreadWindow)
    requires
        0 < m,
        start + m <= v@.len(),
    ensures
        r == window_of(v@.skip(start as int).take(m as int)),
{
    let ghost c = v@.skip(start as int).take(m as int);
    let total = v.len();
    let first = v[start].spread;
    let mut sum: u128 = first as u128;
    let mut lo = first;
    let mut hi = first;
    let mut j: usize = 1;
    proof {
        assert(c[0] == v@[start as int]);
        assert(c.take(1).drop_last() =~= Seq::<OrderbookSnapshot>::empty());
        assert(c.take(1).last() == v@[start as int]);
        assert(spread_sum(Seq::<OrderbookSnapshot>::empty()) == 0);
    }
    while j < m
        invariant
            1 <= j <= m,
            total == v@.len(),
            start + m <= v@.len(),
            c == v@.skip(start as int).take(m as int),
            sum == spread_sum(c.take(j as int)),
            sum <= 255 * j,
            lo == spread_min(c.take(j as int)),
            hi == spread_max(c.take(j as int)),
        decreases m - j,
    {
        let sp = v[start + j].spread;
        proof {
            assert(c[j as int] == v@[start + j]);
            assert(c.take(j + 1).drop_last() =~= c.take(j as int));
            assert(c.take(j + 1).last() == v@[start + j]);
        }
        sum = sum + sp as u128;
        if sp < lo {
            lo = sp;
        }
        if sp > hi {
            hi = sp;
        }
        j = j + 1;
    }
    proof {
        assert(c.take(m as int) =~= c);
    }
    SpreadWindow { sum, min: lo, max: hi, count: m }
}

/// Renders visualization data.
pub struct OrderbookVisualizer {
    data: VisualizationData,
}

impl View for OrderbookVisualizer {
    type V = VisualizationView;

    closed spec fn view(&self) -> VisualizationView {
        self.data@
    }
}

/// Whether an action places an order on `side`.
pub open spec fn places_on(side: Side) -> spec_fn(StrategyAction) -> bool {
    |a: StrategyAction| a matches StrategyAction::PlaceOrder { side: s, .. } && s == side
}

/// Whether an action cancels an order.
pub open spec fn is_cancel() -> spec_fn(StrategyAction) -> bool {
    |a: StrategyAction| a is CancelOrder
}

/// The time and price of a placed order.
pub open spec fn order_point(a: StrategyAction) -> (u64, u8) {
    match a {
        StrategyAction::PlaceOrder { ts, price, .. } => (ts, price),
        StrategyAction::CancelOrder { ts, .. } => (ts, 0),
    }
}

/// The markers of the strategy's actions: the time and price of each YES order placed,
/// of each NO order placed, and the time of each cancel, in order.
pub open spec fn action_markers(actions: Seq<StrategyAction>) -> (
    Seq<(u64, u8)>,
    Seq<(u64, u8)>,
    Seq<u64>,
) {
    (
        actions.filter(places_on(Side::Yes)).map_values(|a: StrategyAction| order_point(a)),
        actions.filter(places_on(Side::No)).map_values(|a: StrategyAction| order_point(a)),
        actions.filter(is_cancel()).map_values(|a: StrategyAction| a.spec_ts()),
    )
}

impl OrderbookVisualizer {
    pub fn new(data: VisualizationData) -> (r: Self)
        ensures
            r@ == data@,
    {
        Self { data }
    }

    /// The data shown.
    pub fn data(&self) -> (r: &VisualizationData)
        ensures
            r@ == self@,
    {
        &self.data
    }

    /// The spread statistics of consecutive stretches of a tenth of the snapshots.
    pub fn spread_windows(&self) -> (r: Vec<SpreadWindow>)
        ensures
            r@ == spread_windows(
                self@.orderbook_snapshots,
                window_size(self@.orderbook_snapshots.len() as int),
            ),
    {
        let v = &self.data.orderbook_snapshots;
        let ghost s = v@;
        let n = v.len();
        let w: usize = if n / 10 >= 1 {
            n / 10
        } else {
            1
        };
        let mut out: Vec<SpreadWindow> = Vec::new();
        let mut i: usize = 0;
        proof {
            assert(s.skip(0) =~= s);
            assert(out@ + spread_windows(s, w as int) =~= spread_windows(s, w as int));
        }
        while i < n
            invariant
                0 <= i <= n,
                n == s.len(),
                s == v@,
                w >= 1,
                out@ + spread_windows(s.skip(i as int), w as int) == spread_windows(s, w as int),
            decreases n - i,
        {
            let rest = n - i;
            let m = if rest <= w {
                rest
            } else {
                w
            };
            let stats = window_at(v, i, m);
            let ghost before = out@;
            out.push(stats);
            proof {
                let t = s.skip(i as int);
                if rest <= w {
                    assert(t.take(m as int) =~= t);
                    assert(s.skip(i + m) =~= Seq::<OrderbookSnapshot>::empty());
                } else {
                    assert(t.skip(w as int) =~= s.skip(i + w));
                }
                assert(out@ + spread_windows(s.skip(i + m), w as int) =~= before + spread_windows(
                    t,
                    w as int,
                ));
            }
            i = i + m;
        }
        proof {
            assert(s.skip(n as int) =~= Seq::<OrderbookSnapshot>::empty());
            assert(out@ + Seq::<SpreadWindow>::empty() =~= out@);
        }
        out
    }

    /// The total quantity filled in each second after the first snapshot, in the order the
    /// seconds first appear; `None` when a fill comes before the first snapshot or a total
    /// overflows.
    pub fn volume_windows(&self) -> (r: Option<Vec<(u64, i64)>>)
        requires
            self@.fills.len() > 0 ==> self@.orderbook_snapshots.len() > 0,
        ensures
            self@.fills.len() == 0 ==> r is Some && r->0@.len() == 0,
            self@.fills.len() > 0 ==> match r {
                Some(v) => volume_windows(self@.fills, self@.orderbook_snapshots[0].ts) == Some(
                    v@,
                ),
                None => volume_windows(self@.fills, self@.orderbook_snapshots[0].ts) is None,
            },
    {
        if self.data.fills.len() == 0 {
            return Some(Vec::new());
        }
        let first_ts = self.data.orderbook_snapshots[0].ts;
        let fills = &self.data.fills;
        let ghost fs = fills@;
        let mut ws: Vec<(u64, i64)> = Vec::new();
        let n = fills.len();
        let mut i: usize = 0;
        while i < n
            invariant
                0 <= i <= n,
                n == fs.len(),
                fs == fills@,
                fs == self@.fills,
                self@.orderbook_snapshots.len() > 0,
                first_ts == self@.orderbook_snapshots[0].ts,
                volume_windows(fs.take(i as int), first_ts) == Some(ws@),
            decreases n - i,
        {
            let f = fills[i];
            proof {
                assert(fs.take(i + 1).drop_last() =~= fs.take(i as int));
                assert(fs.take(i + 1).last() == f);
            }
            if f.ts < first_ts {
                proof {
                    assert(volume_windows(fs.take(i + 1), first_ts) is None);
                    lemma_volume_windows_fails(fs, first_ts, i + 1);
                }
                return None;
            }
            let key = (f.ts - first_ts) / 1000;
            match find_key(&ws, key) {
                Some(k) => {
                    proof {
                        lemma_key_index_found(ws@, key);
                    }
                    let (kk, total) = ws[k];
                    match total.checked_add(f.qty) {
                        Some(t) => {
                            ws.set(k, (kk, t));
                        },
                        None => {
                            proof {
                                assert(ws@[k as int].1 == total);
                                assert(volume_windows(fs.take(i + 1), first_ts) is None);
                                lemma_volume_windows_fails(fs, first_ts, i + 1);
                            }
                            return None;
                        },
                    }
                },
                None => {
                    ws.push((key, f.qty));
                },
            }
            i = i + 1;
        }
        proof {
            assert(fs.take(n as int) =~= fs);
        }
        Some(ws)
    }

    /// The markers of the strategy's actions: YES orders placed, NO orders placed, and
    /// cancels.
    pub fn action_markers(&self) -> (r: (Vec<(u64, u8)>, Vec<(u64, u8)>, Vec<u64>))
        ensures
            (r.0@, r.1@, r.2@) == action_markers(self@.strategy_actions),
    {
        let ghost acts = self@.strategy_actions;
        let mut buys: Vec<(u64, u8)> = Vec::new();
        let mut sells: Vec<(u64, u8)> = Vec::new();
        let mut cancels: Vec<u64> = Vec::new();
        let n = self.data.strategy_actions.len();
        let mut i: usize = 0;
        while i < n
            invariant
                0 <= i <= n,
                n == acts.len(),
                acts == self@.strategy_actions,
                (buys@, sells@, cancels@) == action_markers(acts.take(i as int)),
            decreases n - i,
        {
            let a = self.data.strategy_actions[i];
            let ghost before = acts.take(i as int);
            proof {
                assert(acts.take(i + 1) =~= before.push(a));
                before.lemma_filter_push(a, places_on(Side::Yes));
                before.lemma_filter_push(a, places_on(Side::No));
                before.lemma_filter_push(a, is_cancel());
            }
            match a {
                StrategyAction::PlaceOrder { ts, side, price, .. } => {
                    match side {
                        Side::Yes => {
                            buys.push((ts, price));
                            proof {
                                assert(buys@ =~= before.filter(places_on(Side::Yes)).push(a).map_values(
                                    |a: StrategyAction| order_point(a),
                                ));
                            }
                        },
                        Side::No => {
                            sells.push((ts, price));
                            proof {
                                assert(sells@ =~= before.filter(places_on(Side::No)).push(a).map_values(
                                    |a: StrategyAction| order_point(a),
                                ));
                            }
                        },
                    }
                },
                StrategyAction::CancelOrder { ts, .. } => {
                    cancels.push(ts);
                    proof {
                        assert(cancels@ =~= before.filter(is_cancel()).push(a).map_values(
                            |a: StrategyAction| a.spec_ts(),
                        ));
                    }
                },
            }
            proof {
                let m = action_markers(acts.take(i + 1));
                assert(buys@ =~= m.0);
                assert(sells@ =~= m.1);
                assert(cancels@ =~= m.2);
            }
            i = i + 1;
        }
        proof {
            assert(acts.take(n as int) =~= acts);
        }
        (buys, sells, cancels)
    }
}

/// Once the volumes of a prefix of the fills fail, all of them do.
proof fn lemma_volume_windows_fails(fills: Seq<Fill>, first_ts: u64, k: int)
    requires
        0 <= k <= fills.len(),
        volume_windows(fills.take(k), first_ts) is None,
    ensures
        volume_windows(fills, first_ts) is None,
    decreases fills.len() - k,
{
    if k == fills.len() {
        assert(fills.take(k) =~= fills);
    } else {
        assert(fills.take(k + 1).drop_last() =~= fills.take(k));
        lemma_volume_windows_fails(fills, first_ts, k + 1);
    }
}

} // verus!
