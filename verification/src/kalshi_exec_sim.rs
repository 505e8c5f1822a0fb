use crate::kalshi_l2_book::{update_book_with_event, BookView, OrderBook};
use crate::kalshi_strategy::{
    follow_extends, followed, follows, lemma_follow_push, lemma_follow_same, lemma_followed_start,
    KalshiStrategy, StrategyCall,
};
use crate::kalshi_types::{
    ActiveOrder, Event, Fill, MarketData, Metrics, OrderAudit, OrderId, OrderInstr, OrderStatus,
    PendingOrder, Report, Side, SimConfig,
};
use vstd::prelude::*;

verus! {

/// Why a simulation could not be carried on.
#[derive(Debug, Clone, Copy, PartialEq, Eq, Structural)]
pub enum EngineError {
    /// A book level would leave the `i64` range.
    BookOverflow,
    /// A fill would take a quantity or a metric out of the `i64` range.
    FillOverflow,
    /// An activation or expiry time would leave the `u64` range.
    TimeOverflow,
    /// An order identifier or an order counter would leave its range.
    CounterOverflow,
}

/// A book with no levels.
pub open spec fn empty_book() -> BookView {
    BookView { yes: Map::empty(), no: Map::empty(), last_update_ts: 0 }
}

/// Whether some entry of the list of books is for ticker `t`.
pub open spec fn has_book(books: Seq<(Seq<char>, BookView)>, t: Seq<char>) -> bool {
    exists|i: int| 0 <= i < books.len() && #[trigger] books[i].0 == t
}

/// The position of the entry for ticker `t`.
pub open spec fn book_index(books: Seq<(Seq<char>, BookView)>, t: Seq<char>) -> int {
    choose|i: int| 0 <= i < books.len() && #[trigger] books[i].0 == t
}

/// Tickers of a list of books are distinct.
pub open spec fn tickers_distinct(books: Seq<(Seq<char>, BookView)>) -> bool {
    forall|i: int, j: int|
        0 <= i < books.len() && 0 <= j < books.len() && i != j ==> books[i].0 != books[j].0
}

/// Every book of a list holds positive levels only.
pub open spec fn books_positive(books: Seq<(Seq<char>, BookView)>) -> bool {
    forall|i: int|
        0 <= i < books.len() ==> crate::kalshi_l2_book::levels_positive(#[trigger] books[i].1.yes)
            && crate::kalshi_l2_book::levels_positive(books[i].1.no)
}

/// The books by ticker.
pub open spec fn books_map(books: Seq<(Seq<char>, BookView)>) -> Map<Seq<char>, BookView> {
    Map::new(|t: Seq<char>| has_book(books, t), |t: Seq<char>| books[book_index(books, t)].1)
}

/// The book of a ticker, empty when the ticker has no book yet.
pub open spec fn book_or_empty(m: Map<Seq<char>, BookView>, t: Seq<char>) -> BookView {
    if m.contains_key(t) {
        m[t]
    } else {
        empty_book()
    }
}

/// The books after a market event: the event's ticker gets its book, updated by the event.
pub open spec fn books_after_event(m: Map<Seq<char>, BookView>, e: Event) -> Map<Seq<char>, BookView> {
    m.insert(e.spec_ticker(), book_or_empty(m, e.spec_ticker()).after_event(e))
}

/// The books after a sequence of market events.
pub open spec fn replay(m: Map<Seq<char>, BookView>, events: Seq<Event>) -> Map<Seq<char>, BookView>
    decreases events.len(),
{
    if events.len() == 0 {
        m
    } else {
        books_after_event(replay(m, events.drop_last()), events.last())
    }
}

/// Whether every event of a sequence can be replayed without a quantity overflow.
pub open spec fn replay_accepts(m: Map<Seq<char>, BookView>, events: Seq<Event>) -> bool
    decreases events.len(),
{
    if events.len() == 0 {
        true
    } else {
        replay_accepts(m, events.drop_last()) && book_or_empty(
            replay(m, events.drop_last()),
            events.last().spec_ticker(),
        ).accepts(events.last())
    }
}

/// Whether an event comes after the end time, if there is one.
pub open spec fn past_end(e: Event, end_time: Option<u64>) -> bool {
    match end_time {
        Some(end) => e.spec_ts() > end,
        None => false,
    }
}

/// The position of the first event past the end time, or the length when there is none.
pub open spec fn stop_index(events: Seq<Event>, end_time: Option<u64>) -> int
    decreases events.len(),
{
    if events.len() == 0 {
        0
    } else if past_end(events[0], end_time) {
        0
    } else {
        1 + stop_index(events.drop_first(), end_time)
    }
}

/// Events at or after a start time.
pub open spec fn from_start(start_time: u64) -> spec_fn(Event) -> bool {
    |e: Event| e.spec_ts() >= start_time
}

/// The events a simulation processes: those before the first one past the end time,
/// without those before the start time.
pub open spec fn processed_events(events: Seq<Event>, config: SimConfig) -> Seq<Event> {
    events.take(stop_index(events, config.end_time)).filter(from_start(config.start_time))
}

/// A trade is valid when a NO taker's price can be seen from the YES side (at most 100).
pub open spec fn trade_price_valid(e: Event) -> bool {
    match e {
        Event::Trade { no_price, taker, .. } => taker == Side::No ==> no_price <= 100,
        _ => true,
    }
}

/// The price at which a market resolves, judged from its final book: 100 when the bid is
/// at least 99 and there is no ask, 0 when the ask is at most 1 and there is no bid, the
/// midpoint (rounded down) of a two-sided market, and 50 otherwise.
pub open spec fn market_resolution(bid: u8, ask: u8) -> u8 {
    if bid >= 99 && ask >= 100 {
        100
    } else if ask <= 1 && bid == 0 {
        0
    } else if bid > 0 && ask < 100 {
        ((bid + ask) / 2) as u8
    } else {
        50
    }
}

/// The fill reported for an audited order with a filled quantity, at its activation time.
pub open spec fn audit_fill(a: OrderAudit) -> Fill {
    Fill { id: a.id, price: a.price, qty: a.filled_qty, ts: a.activation_time, side: a.side }
}

/// The gross profit after settlement: the total a strategy reports, or the profit the
/// engine recorded when the strategy reports none.
pub open spec fn settled_gross(recorded: i64, reported: Option<i64>) -> i64 {
    match reported {
        Some(total) => total,
        None => recorded,
    }
}

/// The fills reported for an audit trail: one per order with a positive filled quantity.
pub open spec fn fills_from_audit(audit: Seq<OrderAudit>) -> Seq<Fill>
    decreases audit.len(),
{
    if audit.len() == 0 {
        Seq::empty()
    } else {
        let rest = fills_from_audit(audit.drop_last());
        if audit.last().filled_qty > 0 {
            rest.push(audit_fill(audit.last()))
        } else {
            rest
        }
    }
}

/// The audit trail with the status of order `id` changed, when `id` is audited.
pub open spec fn set_status(audit: Seq<OrderAudit>, id: OrderId, status: OrderStatus) -> Seq<
    OrderAudit,
> {
    if 1 <= id <= audit.len() {
        audit.update(id - 1, OrderAudit { status, ..audit[id - 1] })
    } else {
        audit
    }
}

/// The audit trail with the status of each listed order changed, in order.
pub open spec fn set_statuses(audit: Seq<OrderAudit>, ids: Seq<OrderId>, status: OrderStatus) -> Seq<
    OrderAudit,
>
    decreases ids.len(),
{
    if ids.len() == 0 {
        audit
    } else {
        set_status(set_statuses(audit, ids.drop_last(), status), ids.last(), status)
    }
}

/// Pending orders due for activation at `ts`.
pub open spec fn due(ts: u64) -> spec_fn(PendingOrder) -> bool {
    |o: PendingOrder| o.activation_time <= ts
}

/// Pending orders still waiting at `ts`.
pub open spec fn waiting(ts: u64) -> spec_fn(PendingOrder) -> bool {
    |o: PendingOrder| o.activation_time > ts
}

/// The active orders that pending orders become.
pub open spec fn activate_orders(ready: Seq<PendingOrder>) -> Seq<ActiveOrder> {
    ready.map_values(|o: PendingOrder| o.spec_into_active())
}

/// The identifiers of pending orders.
pub open spec fn pending_ids(orders: Seq<PendingOrder>) -> Seq<OrderId> {
    orders.map_values(|o: PendingOrder| o.id)
}

/// The identifiers of active orders.
pub open spec fn active_ids(orders: Seq<ActiveOrder>) -> Seq<OrderId> {
    orders.map_values(|o: ActiveOrder| o.id)
}

/// The abstract state of the execution engine.
pub struct EngineView {
    pub config: SimConfig,
    /// Order books in the order their tickers were first seen.
    pub books: Seq<(Seq<char>, BookView)>,
    /// Orders waiting for activation, in the order they were created.
    pub pending: Seq<PendingOrder>,
    /// Active orders.
    pub active: Seq<ActiveOrder>,
    pub metrics: Metrics,
    pub order_audit: Seq<OrderAudit>,
    pub order_id_counter: u64,
    /// What the engine carried out for each event it processed, in order.
    pub trace: Seq<StepTrace>,
    /// The calls the engine made on the strategy, in order, with what it answered.
    pub calls: Seq<StrategyCall>,
}

/// What the engine carried out for one event: the market data it showed the strategy, the
/// instructions the strategy replied with, the books after the event, and the orders a
/// trade filled, in the order it filled them.
pub struct StepTrace {
    pub md: MarketData,
    pub instrs: Seq<OrderInstr>,
    pub books: Seq<(Seq<char>, BookView)>,
    pub cands: Seq<ActiveOrder>,
}

impl EngineView {
    /// The engine's invariant: identifiers count the audited orders, the audit trail lists
    /// them by identifier, tickers have one book each, books hold positive levels, each
    /// waiting or active order has an issued identifier of its own, and the audit trail
    /// reflects each of them.
    pub open spec fn wf(self) -> bool {
        &&& self.order_id_counter == self.order_audit.len()
        &&& self.metrics.total_orders == self.order_audit.len()
        &&& forall|i: int|
            0 <= i < self.order_audit.len() ==> #[trigger] self.order_audit[i].id == i + 1
        &&& tickers_distinct(self.books)
        &&& books_positive(self.books)
        &&& orders_tracked(self.pending, self.active, self.order_id_counter)
        &&& audit_reflects(self.pending, self.active, self.order_audit)
    }

    /// The state after activating every pending order due at `ts`: each becomes active
    /// with its full quantity and is audited as active; later orders keep waiting.
    pub open spec fn activated(self, ts: u64) -> EngineView {
        let ready = self.pending.filter(due(ts));
        EngineView {
            pending: self.pending.filter(waiting(ts)),
            active: self.active + activate_orders(ready),
            order_audit: set_statuses(self.order_audit, pending_ids(ready), OrderStatus::Active),
            ..self
        }
    }
}

/// Each pending or active order has an identifier issued so far (from 1 to `counter`),
/// and no two of them share one.
pub open spec fn orders_tracked(pending: Seq<PendingOrder>, active: Seq<ActiveOrder>, counter: u64) -> bool {
    &&& forall|i: int, j: int|
        #![trigger pending[i], pending[j]]
        0 <= i < j < pending.len() ==> pending[i].id != pending[j].id
    &&& forall|i: int, j: int|
        #![trigger active[i], active[j]]
        0 <= i < j < active.len() ==> active[i].id != active[j].id
    &&& forall|i: int, j: int|
        #![trigger pending[i], active[j]]
        0 <= i < pending.len() && 0 <= j < active.len() ==> pending[i].id != active[j].id
    &&& forall|i: int| 0 <= i < pending.len() ==> 1 <= #[trigger] pending[i].id <= counter
    &&& forall|i: int| 0 <= i < active.len() ==> 1 <= #[trigger] active[i].id <= counter
}

/// A pending order is audited as created, on its side, at its price and for its
/// quantity, with nothing filled.
pub open spec fn pending_audited(o: PendingOrder, audit: Seq<OrderAudit>) -> bool {
    &&& 1 <= o.id <= audit.len()
    &&& audit[o.id - 1].status == OrderStatus::Created
    &&& audit[o.id - 1].side == o.side
    &&& audit[o.id - 1].price == o.price
    &&& audit[o.id - 1].original_qty == o.qty
    &&& audit[o.id - 1].filled_qty == 0
}

/// An active order is audited as active or partially filled, on its side and at its
/// price, and what it has filled and what remains of it make up its quantity.
pub open spec fn active_audited(o: ActiveOrder, audit: Seq<OrderAudit>) -> bool {
    &&& 1 <= o.id <= audit.len()
    &&& (audit[o.id - 1].status == OrderStatus::Active || audit[o.id - 1].status
        == OrderStatus::PartiallyFilled)
    &&& audit[o.id - 1].side == o.side
    &&& audit[o.id - 1].price == o.price
    &&& audit[o.id - 1].filled_qty + o.remaining == audit[o.id - 1].original_qty
}

/// The audit trail reflects every pending and every active order.
pub open spec fn audit_reflects(
    pending: Seq<PendingOrder>,
    active: Seq<ActiveOrder>,
    audit: Seq<OrderAudit>,
) -> bool {
    &&& forall|i: int| 0 <= i < pending.len() ==> pending_audited(#[trigger] pending[i], audit)
    &&& forall|i: int| 0 <= i < active.len() ==> active_audited(#[trigger] active[i], audit)
}

/// Whether identifier `n` is among `ids`.
pub open spec fn lists_id(ids: Seq<OrderId>, n: int) -> bool {
    exists|j: int| 0 <= j < ids.len() && ids[j] == n
}

/// Setting statuses changes the status of the listed orders' records only.
proof fn lemma_set_statuses(audit: Seq<OrderAudit>, ids: Seq<OrderId>, st: OrderStatus)
    ensures
        set_statuses(audit, ids, st).len() == audit.len(),
        forall|k: int|
            0 <= k < audit.len() ==> #[trigger] set_statuses(audit, ids, st)[k] == if lists_id(
                ids,
                k + 1,
            ) {
                OrderAudit { status: st, ..audit[k] }
            } else {
                audit[k]
            },
    decreases ids.len(),
{
    if ids.len() > 0 {
        let pre = ids.drop_last();
        lemma_set_statuses(audit, pre, st);
        let r = set_statuses(audit, ids, st);
        let q = set_statuses(audit, pre, st);
        assert forall|k: int| 0 <= k < audit.len() implies #[trigger] r[k] == if lists_id(
            ids,
            k + 1,
        ) {
            OrderAudit { status: st, ..audit[k] }
        } else {
            audit[k]
        } by {
            if ids.last() == k + 1 {
                assert(ids[ids.len() - 1] == k + 1);
            } else {
                if lists_id(ids, k + 1) {
                    let j = choose|j: int| 0 <= j < ids.len() && ids[j] == k + 1;
                    assert(pre[j] == k + 1);
                }
                if lists_id(pre, k + 1) {
                    let j = choose|j: int| 0 <= j < pre.len() && pre[j] == k + 1;
                    assert(ids[j] == k + 1);
                }
            }
        }
    }
}

/// Activating the due pending orders keeps the audit trail reflecting every order.
proof fn lemma_activation_audited(
    pending: Seq<PendingOrder>,
    active: Seq<ActiveOrder>,
    audit: Seq<OrderAudit>,
    counter: u64,
    ts: u64,
)
    requires
        orders_tracked(pending, active, counter),
        audit_reflects(pending, active, audit),
    ensures
        audit_reflects(
            pending.filter(waiting(ts)),
            active + activate_orders(pending.filter(due(ts))),
            set_statuses(audit, pending_ids(pending.filter(due(ts))), OrderStatus::Active),
        ),
{
    let pk = |o: PendingOrder| o.id;
    let w = pending.filter(waiting(ts));
    let r = pending.filter(due(ts));
    let ids = pending_ids(r);
    let ra = activate_orders(r);
    let a2 = active + ra;
    let au = set_statuses(audit, ids, OrderStatus::Active);
    lemma_set_statuses(audit, ids, OrderStatus::Active);
    lemma_filter_sub(pending, waiting(ts), pk);
    lemma_filter_sub(pending, due(ts), pk);
    assert forall|i: int| 0 <= i < w.len() implies pending_audited(#[trigger] w[i], au) by {
        assert(pending.contains(w[i]));
        let m = choose|m: int| 0 <= m < pending.len() && pending[m] == w[i];
        assert(pending_audited(pending[m], audit));
        if lists_id(ids, w[i].id as int) {
            let j = choose|j: int| 0 <= j < ids.len() && ids[j] == w[i].id as int;
            assert(ids[j] == r[j].id);
            assert(pending.contains(r[j]));
            let n = choose|n: int| 0 <= n < pending.len() && pending[n] == r[j];
            assert(waiting(ts)(w[i]));
            assert(due(ts)(r[j]));
            if m < n {
                assert(pending[m].id != pending[n].id);
            } else if n < m {
                assert(pending[n].id != pending[m].id);
            }
        }
        assert(au[w[i].id - 1] == audit[w[i].id - 1]);
    }
    assert forall|i: int| 0 <= i < a2.len() implies active_audited(#[trigger] a2[i], au) by {
        if i < active.len() {
            assert(a2[i] == active[i]);
            assert(active_audited(active[i], audit));
            if lists_id(ids, active[i].id as int) {
                let j = choose|j: int| 0 <= j < ids.len() && ids[j] == active[i].id as int;
                assert(ids[j] == r[j].id);
                assert(pending.contains(r[j]));
                let n = choose|n: int| 0 <= n < pending.len() && pending[n] == r[j];
                assert(pending[n].id != active[i].id);
            }
            assert(au[active[i].id - 1] == audit[active[i].id - 1]);
        } else {
            let ii = i - active.len();
            assert(a2[i] == ra[ii]);
            assert(ra[ii] == r[ii].spec_into_active());
            assert(pending.contains(r[ii]));
            let n = choose|n: int| 0 <= n < pending.len() && pending[n] == r[ii];
            assert(pending_audited(pending[n], audit));
            assert(ids[ii] == r[ii].id);
            assert(lists_id(ids, r[ii].id as int));
        }
    }
}

/// Expiring orders keeps the audit trail reflecting every order.
proof fn lemma_expiry_audited(
    pending: Seq<PendingOrder>,
    active: Seq<ActiveOrder>,
    audit: Seq<OrderAudit>,
    counter: u64,
    ts: u64,
)
    requires
        orders_tracked(pending, active, counter),
        audit_reflects(pending, active, audit),
    ensures
        audit_reflects(
            pending,
            active.filter(live_at(ts)),
            set_statuses(audit, active_ids(active.filter(expired_at(ts))), OrderStatus::Expired),
        ),
{
    let ak = |o: ActiveOrder| o.id;
    let f = active.filter(live_at(ts));
    let g = active.filter(expired_at(ts));
    let ids = active_ids(g);
    let au = set_statuses(audit, ids, OrderStatus::Expired);
    lemma_set_statuses(audit, ids, OrderStatus::Expired);
    lemma_filter_sub(active, live_at(ts), ak);
    lemma_filter_sub(active, expired_at(ts), ak);
    assert forall|i: int| 0 <= i < pending.len() implies pending_audited(#[trigger] pending[i], au) by {
        assert(pending_audited(pending[i], audit));
        if lists_id(ids, pending[i].id as int) {
            let j = choose|j: int| 0 <= j < ids.len() && ids[j] == pending[i].id as int;
            assert(ids[j] == g[j].id);
            assert(active.contains(g[j]));
            let n = choose|n: int| 0 <= n < active.len() && active[n] == g[j];
            assert(pending[i].id != active[n].id);
        }
        assert(au[pending[i].id - 1] == audit[pending[i].id - 1]);
    }
    assert forall|i: int| 0 <= i < f.len() implies active_audited(#[trigger] f[i], au) by {
        assert(active.contains(f[i]));
        let m = choose|m: int| 0 <= m < active.len() && active[m] == f[i];
        assert(active_audited(active[m], audit));
        if lists_id(ids, f[i].id as int) {
            let j = choose|j: int| 0 <= j < ids.len() && ids[j] == f[i].id as int;
            assert(ids[j] == g[j].id);
            assert(active.contains(g[j]));
            let n = choose|n: int| 0 <= n < active.len() && active[n] == g[j];
            assert(live_at(ts)(f[i]));
            assert(expired_at(ts)(g[j]));
            if m < n {
                assert(active[m].id != active[n].id);
            } else if n < m {
                assert(active[n].id != active[m].id);
            }
        }
        assert(au[f[i].id - 1] == audit[f[i].id - 1]);
    }
}

/// Cancelling an active order keeps the audit trail reflecting every order.
proof fn lemma_cancel_audited(
    pending: Seq<PendingOrder>,
    active: Seq<ActiveOrder>,
    audit: Seq<OrderAudit>,
    counter: u64,
    id: OrderId,
)
    requires
        orders_tracked(pending, active, counter),
        audit_reflects(pending, active, audit),
        has_active(active, id),
    ensures
        audit_reflects(
            pending,
            active.filter(other_than(id)),
            set_status(audit, id, OrderStatus::Cancelled),
        ),
{
    let ak = |o: ActiveOrder| o.id;
    let f = active.filter(other_than(id));
    let au = set_status(audit, id, OrderStatus::Cancelled);
    lemma_filter_sub(active, other_than(id), ak);
    let k = choose|k: int| 0 <= k < active.len() && #[trigger] active[k].id == id;
    assert forall|i: int| 0 <= i < pending.len() implies pending_audited(#[trigger] pending[i], au) by {
        assert(pending_audited(pending[i], audit));
        assert(pending[i].id != active[k].id);
    }
    assert forall|i: int| 0 <= i < f.len() implies active_audited(#[trigger] f[i], au) by {
        assert(active.contains(f[i]));
        let m = choose|m: int| 0 <= m < active.len() && active[m] == f[i];
        assert(active_audited(active[m], audit));
        assert(other_than(id)(f[i]));
    }
}

/// A new pending order audited as created keeps the audit trail reflecting every order.
proof fn lemma_new_order_audited(
    pending: Seq<PendingOrder>,
    active: Seq<ActiveOrder>,
    audit: Seq<OrderAudit>,
    o: PendingOrder,
    a: OrderAudit,
)
    requires
        audit_reflects(pending, active, audit),
        o.id == audit.len() + 1,
        a.status == OrderStatus::Created,
        a.side == o.side,
        a.price == o.price,
        a.original_qty == o.qty,
        a.filled_qty == 0,
    ensures
        audit_reflects(pending.push(o), active, audit.push(a)),
{
    let q = pending.push(o);
    let au = audit.push(a);
    assert forall|i: int| 0 <= i < q.len() implies pending_audited(#[trigger] q[i], au) by {
        if i < pending.len() {
            assert(q[i] == pending[i]);
            assert(pending_audited(pending[i], audit));
        }
    }
    assert forall|i: int| 0 <= i < active.len() implies active_audited(#[trigger] active[i], au) by {
        assert(active_audited(active[i], audit));
    }
}

/// A fill of an order that is not pending keeps the audit trail reflecting every order.
proof fn lemma_fill_audited(v: EngineView, c: ActiveOrder, q: i64, ts: u64)
    requires
        orders_tracked(v.pending, v.active, v.order_id_counter),
        audit_reflects(v.pending, v.active, v.order_audit),
        forall|i: int| 0 <= i < v.pending.len() ==> #[trigger] v.pending[i].id != c.id,
        v.active.contains(c),
    ensures
        audit_reflects(fill_step(v, c, q, ts).0.pending, fill_step(v, c, q, ts).0.active, fill_step(v, c, q, ts).0.order_audit),
{
    if q > 0 {
        let f = fill_of(c, q, ts);
        let rest = c.remaining - f.qty;
        let act = active_after_fill(v.active, c.id, rest as i64);
        let au = audit_after_fill(v.order_audit, c.id, f.qty, rest <= 0);
        assert(fill_step(v, c, q, ts).0.active == act);
        assert(fill_step(v, c, q, ts).0.order_audit == au);
        assert(au.len() == v.order_audit.len());
        assert forall|i: int| 0 <= i < v.pending.len() implies pending_audited(#[trigger] v.pending[i], au) by {
            assert(pending_audited(v.pending[i], v.order_audit));
            assert(v.pending[i].id != c.id);
        }
        if rest <= 0 {
            let ak = |o: ActiveOrder| o.id;
            lemma_filter_sub(v.active, other_than(c.id), ak);
            assert forall|i: int| 0 <= i < act.len() implies active_audited(#[trigger] act[i], au) by {
                assert(v.active.contains(act[i]));
                let m = choose|m: int| 0 <= m < v.active.len() && v.active[m] == act[i];
                assert(active_audited(v.active[m], v.order_audit));
                assert(other_than(c.id)(act[i]));
            }
        } else {
            let k = choose|k: int| 0 <= k < v.active.len() && v.active[k] == c;
            assert(active_audited(v.active[k], v.order_audit));
            assert forall|i: int| 0 <= i < act.len() implies active_audited(#[trigger] act[i], au) by {
                assert(active_audited(v.active[i], v.order_audit));
                if v.active[i].id == c.id {
                    if i < k {
                        assert(v.active[i].id != v.active[k].id);
                    } else if k < i {
                        assert(v.active[k].id != v.active[i].id);
                    }
                }
            }
        }
    }
}

/// Orders listed with the same multiplicities as some active orders are active orders.
proof fn lemma_candidates_active(
    active: Seq<ActiveOrder>,
    cands: Seq<ActiveOrder>,
    p: spec_fn(ActiveOrder) -> bool,
)
    requires
        cands.to_multiset() == active.filter(p).to_multiset(),
    ensures
        forall|k: int| 0 <= k < cands.len() ==> active.contains(#[trigger] cands[k]),
{
    let f = active.filter(p);
    lemma_filter_sub(active, p, |o: ActiveOrder| o.id);
    assert forall|k: int| 0 <= k < cands.len() implies active.contains(#[trigger] cands[k]) by {
        let x = cands[k];
        assert(cands.contains(x));
        vstd::seq_lib::to_multiset_contains(cands, x);
        vstd::seq_lib::to_multiset_contains(f, x);
        let i = choose|i: int| 0 <= i < f.len() && f[i] == x;
        assert(active.contains(f[i]));
    }
}

/// Orders listed with the same multiplicities as some active orders with identifiers of
/// their own have identifiers of their own too.
proof fn lemma_candidates_distinct(
    active: Seq<ActiveOrder>,
    cands: Seq<ActiveOrder>,
    p: spec_fn(ActiveOrder) -> bool,
)
    requires
        cands.to_multiset() == active.filter(p).to_multiset(),
        forall|i: int, j: int|
            #![trigger active[i], active[j]]
            0 <= i < j < active.len() ==> active[i].id != active[j].id,
    ensures
        forall|i: int, j: int|
            #![trigger cands[i], cands[j]]
            0 <= i < j < cands.len() ==> cands[i].id != cands[j].id,
{
    broadcast use vstd::multiset::group_multiset_axioms;

    let ak = |o: ActiveOrder| o.id;
    let f = active.filter(p);
    lemma_filter_sub(active, p, ak);
    assert forall|i: int, j: int|
        #![trigger active[i], active[j]]
        0 <= i < j < active.len() implies ak(active[i]) != ak(active[j]) by {}
    assert(f.no_duplicates()) by {
        assert forall|i: int, j: int| 0 <= i < f.len() && 0 <= j < f.len() && i != j implies f[i]
            != f[j] by {
            if i < j {
                assert(ak(f[i]) != ak(f[j]));
            } else {
                assert(ak(f[j]) != ak(f[i]));
            }
        }
    }
    f.lemma_multiset_has_no_duplicates();
    assert forall|i: int, j: int|
        #![trigger cands[i], cands[j]]
        0 <= i < j < cands.len() implies cands[i].id != cands[j].id by {
        let x = cands[i];
        let y = cands[j];
        assert(cands.contains(x));
        assert(cands.contains(y));
        vstd::seq_lib::to_multiset_contains(cands, x);
        vstd::seq_lib::to_multiset_contains(cands, y);
        vstd::seq_lib::to_multiset_contains(f, x);
        vstd::seq_lib::to_multiset_contains(f, y);
        if x == y {
            let r = cands.remove(j);
            cands.to_multiset_ensures();
            assert(r[i] == x);
            assert(r.contains(x));
            vstd::seq_lib::to_multiset_contains(r, x);
            assert(f.to_multiset().count(x) == 1);
        } else if x.id == y.id {
            let a = choose|a: int| 0 <= a < f.len() && f[a] == x;
            let b = choose|b: int| 0 <= b < f.len() && f[b] == y;
            if a < b {
                assert(ak(f[a]) != ak(f[b]));
            } else {
                assert(ak(f[b]) != ak(f[a]));
            }
        }
    }
}

/// A fill of one order leaves every other active order as it was.
proof fn lemma_fill_keeps_others(v: EngineView, c: ActiveOrder, q: i64, ts: u64, x: ActiveOrder)
    requires
        x.id != c.id,
        v.active.contains(x),
    ensures
        fill_step(v, c, q, ts).0.active.contains(x),
{
    if q > 0 {
        let f = fill_of(c, q, ts);
        let rest = c.remaining - f.qty;
        let m = choose|m: int| 0 <= m < v.active.len() && v.active[m] == x;
        if (rest as i64) <= 0 {
            v.active.lemma_filter_contains(other_than(c.id), m);
        } else {
            let mapped = v.active.map_values(with_remaining(c.id, rest as i64));
            assert(mapped[m] == x);
        }
    }
}

/// Filtering a list keeps only elements of the list, and keeps distinct keys distinct.
proof fn lemma_filter_sub<A>(s: Seq<A>, p: spec_fn(A) -> bool, key: spec_fn(A) -> u64)
    ensures
        forall|i: int| 0 <= i < s.filter(p).len() ==> s.contains(#[trigger] s.filter(p)[i]),
        (forall|i: int, j: int| #![trigger s[i], s[j]] 0 <= i < j < s.len() ==> key(s[i]) != key(s[j]))
            ==> (forall|i: int, j: int|
            #![trigger s.filter(p)[i], s.filter(p)[j]]
            0 <= i < j < s.filter(p).len() ==> key(s.filter(p)[i]) != key(s.filter(p)[j])),
    decreases s.len(),
{
    if s.len() == 0 {
        reveal(Seq::filter);
        assert(s.filter(p).len() == 0);
    } else {
        let t = s.drop_last();
        let x = s.last();
        assert(t.push(x) =~= s);
        lemma_filter_sub(t, p, key);
        t.lemma_filter_push(x, p);
        let f = s.filter(p);
        let g = t.filter(p);
        assert forall|i: int| 0 <= i < f.len() implies s.contains(#[trigger] f[i]) by {
            if p(x) && i == g.len() {
                assert(s[s.len() - 1] == f[i]);
            } else {
                assert(f[i] == g[i]);
                assert(t.contains(g[i]));
                let k = choose|k: int| 0 <= k < t.len() && t[k] == g[i];
                assert(s[k] == f[i]);
            }
        }
        if forall|i: int, j: int| #![trigger s[i], s[j]] 0 <= i < j < s.len() ==> key(s[i]) != key(s[j]) {
            assert forall|i: int, j: int| #![trigger t[i], t[j]] 0 <= i < j < t.len() implies key(t[i])
                != key(t[j]) by {
                assert(t[i] == s[i] && t[j] == s[j]);
            }
            assert forall|i: int, j: int| #![trigger f[i], f[j]] 0 <= i < j < f.len() implies key(f[i])
                != key(f[j]) by {
                if p(x) && j == g.len() {
                    assert(f[j] == x);
                    assert(f[i] == g[i]);
                    assert(t.contains(g[i]));
                    let k = choose|k: int| 0 <= k < t.len() && t[k] == g[i];
                    assert(s[k] == f[i] && s[s.len() - 1] == x);
                } else {
                    assert(f[i] == g[i] && f[j] == g[j]);
                }
            }
        }
    }
}

/// Activating the due pending orders keeps every order's identifier its own.
proof fn lemma_activation_tracked(pending: Seq<PendingOrder>, active: Seq<ActiveOrder>, counter: u64, ts: u64)
    requires
        orders_tracked(pending, active, counter),
    ensures
        orders_tracked(
            pending.filter(waiting(ts)),
            active + activate_orders(pending.filter(due(ts))),
            counter,
        ),
{
    let pk = |o: PendingOrder| o.id;
    let w = pending.filter(waiting(ts));
    let r = pending.filter(due(ts));
    let ra = activate_orders(r);
    let a2 = active + ra;
    lemma_filter_sub(pending, waiting(ts), pk);
    lemma_filter_sub(pending, due(ts), pk);
    assert forall|i: int, j: int|
        #![trigger pending[i], pending[j]]
        0 <= i < j < pending.len() implies pk(pending[i]) != pk(pending[j]) by {}
    assert forall|k: int| 0 <= k < w.len() implies exists|j: int|
        0 <= j < pending.len() && pending[j] == #[trigger] w[k] by {
        assert(pending.contains(w[k]));
    }
    assert forall|k: int| 0 <= k < r.len() implies exists|j: int|
        0 <= j < pending.len() && pending[j] == #[trigger] r[k] by {
        assert(pending.contains(r[k]));
    }
    assert forall|k: int| 0 <= k < ra.len() implies (#[trigger] ra[k]).id == r[k].id by {}
    assert forall|i: int, j: int| #![trigger a2[i], a2[j]] 0 <= i < j < a2.len() implies a2[i].id
        != a2[j].id by {
        if j < active.len() {
        } else if i < active.len() {
            let jj = j - active.len();
            assert(a2[j] == ra[jj]);
            let m = choose|m: int| 0 <= m < pending.len() && pending[m] == r[jj];
            assert(pending[m].id != active[i].id);
        } else {
            let ii = i - active.len();
            let jj = j - active.len();
            assert(a2[i] == ra[ii] && a2[j] == ra[jj]);
            assert(pk(r[ii]) != pk(r[jj]));
        }
    }
    assert forall|i: int, j: int| #![trigger w[i], a2[j]] 0 <= i < w.len() && 0 <= j < a2.len()
        implies w[i].id != a2[j].id by {
        let m = choose|m: int| 0 <= m < pending.len() && pending[m] == w[i];
        if j < active.len() {
            assert(pending[m].id != active[j].id);
        } else {
            let jj = j - active.len();
            assert(a2[j] == ra[jj]);
            let n = choose|n: int| 0 <= n < pending.len() && pending[n] == r[jj];
            assert(waiting(ts)(w[i]));
            assert(due(ts)(r[jj]));
            if m < n {
                assert(pending[m].id != pending[n].id);
            } else if n < m {
                assert(pending[n].id != pending[m].id);
            }
        }
    }
    assert forall|i: int| 0 <= i < w.len() implies 1 <= #[trigger] w[i].id <= counter by {
        let m = choose|m: int| 0 <= m < pending.len() && pending[m] == w[i];
        assert(1 <= pending[m].id <= counter);
    }
    assert forall|i: int| 0 <= i < a2.len() implies 1 <= #[trigger] a2[i].id <= counter by {
        if i < active.len() {
            assert(1 <= active[i].id <= counter);
        } else {
            let ii = i - active.len();
            assert(a2[i] == ra[ii]);
            let m = choose|m: int| 0 <= m < pending.len() && pending[m] == r[ii];
            assert(1 <= pending[m].id <= counter);
        }
    }
    assert forall|i: int, j: int| #![trigger w[i], w[j]] 0 <= i < j < w.len() implies w[i].id != w[j].id by {
        assert(pk(w[i]) != pk(w[j]));
    }
}

/// Dropping active orders keeps every order's identifier its own.
proof fn lemma_active_filter_tracked(
    pending: Seq<PendingOrder>,
    active: Seq<ActiveOrder>,
    counter: u64,
    p: spec_fn(ActiveOrder) -> bool,
)
    requires
        orders_tracked(pending, active, counter),
    ensures
        orders_tracked(pending, active.filter(p), counter),
{
    let ak = |o: ActiveOrder| o.id;
    let f = active.filter(p);
    lemma_filter_sub(active, p, ak);
    assert forall|i: int, j: int|
        #![trigger active[i], active[j]]
        0 <= i < j < active.len() implies ak(active[i]) != ak(active[j]) by {}
    assert forall|i: int, j: int| #![trigger f[i], f[j]] 0 <= i < j < f.len() implies f[i].id != f[j].id by {
        assert(ak(f[i]) != ak(f[j]));
    }
    assert forall|i: int, j: int| #![trigger pending[i], f[j]] 0 <= i < pending.len() && 0 <= j < f.len()
        implies pending[i].id != f[j].id by {
        assert(active.contains(f[j]));
        let m = choose|m: int| 0 <= m < active.len() && active[m] == f[j];
        assert(pending[i].id != active[m].id);
    }
    assert forall|i: int| 0 <= i < f.len() implies 1 <= #[trigger] f[i].id <= counter by {
        assert(active.contains(f[i]));
        let m = choose|m: int| 0 <= m < active.len() && active[m] == f[i];
        assert(1 <= active[m].id <= counter);
    }
}

/// Changing what remains of an active order keeps every order's identifier its own.
proof fn lemma_active_remaining_tracked(
    pending: Seq<PendingOrder>,
    active: Seq<ActiveOrder>,
    counter: u64,
    id: OrderId,
    remaining: i64,
)
    requires
        orders_tracked(pending, active, counter),
    ensures
        orders_tracked(pending, active_after_fill(active, id, remaining), counter),
{
    if remaining <= 0 {
        lemma_active_filter_tracked(pending, active, counter, other_than(id));
    } else {
        let m = active.map_values(with_remaining(id, remaining));
        assert forall|i: int| 0 <= i < m.len() implies (#[trigger] m[i]).id == active[i].id by {}
        assert forall|i: int, j: int| #![trigger m[i], m[j]] 0 <= i < j < m.len() implies m[i].id
            != m[j].id by {
            assert(m[i].id == active[i].id && m[j].id == active[j].id);
        }
        assert forall|i: int, j: int| #![trigger pending[i], m[j]] 0 <= i < pending.len() && 0 <= j
            < m.len() implies pending[i].id != m[j].id by {
            assert(m[j].id == active[j].id);
        }
        assert forall|i: int| 0 <= i < m.len() implies 1 <= #[trigger] m[i].id <= counter by {
            assert(m[i].id == active[i].id);
        }
    }
}

/// A new pending order with the next identifier keeps every order's identifier its own.
proof fn lemma_new_order_tracked(
    pending: Seq<PendingOrder>,
    active: Seq<ActiveOrder>,
    counter: u64,
    o: PendingOrder,
)
    requires
        orders_tracked(pending, active, counter),
        o.id == counter + 1,
    ensures
        orders_tracked(pending.push(o), active, o.id),
{
    let q = pending.push(o);
    assert forall|i: int| 0 <= i < pending.len() implies (#[trigger] q[i]) == pending[i] by {}
    assert forall|i: int, j: int| #![trigger q[i], q[j]] 0 <= i < j < q.len() implies q[i].id != q[j].id by {
        if j == pending.len() {
            assert(q[i].id <= counter);
        } else {
            assert(q[i] == pending[i] && q[j] == pending[j]);
        }
    }
    assert forall|i: int, j: int| #![trigger q[i], active[j]] 0 <= i < q.len() && 0 <= j < active.len()
        implies q[i].id != active[j].id by {
        if i == pending.len() {
            assert(active[j].id <= counter);
        } else {
            assert(q[i] == pending[i]);
        }
    }
    assert forall|i: int| 0 <= i < q.len() implies 1 <= #[trigger] q[i].id <= o.id by {
        if i < pending.len() {
            assert(q[i] == pending[i]);
        }
    }
}

/// Whether an active order with identifier `id` exists.
pub open spec fn has_active(active: Seq<ActiveOrder>, id: OrderId) -> bool {
    exists|i: int| 0 <= i < active.len() && #[trigger] active[i].id == id
}

/// Active orders other than order `id`.
pub open spec fn other_than(id: OrderId) -> spec_fn(ActiveOrder) -> bool {
    |o: ActiveOrder| o.id != id
}

/// Active orders that have expired at `ts`.
pub open spec fn expired_at(ts: u64) -> spec_fn(ActiveOrder) -> bool {
    |o: ActiveOrder| o.expiry_time <= ts
}

/// Active orders still live at `ts`.
pub open spec fn live_at(ts: u64) -> spec_fn(ActiveOrder) -> bool {
    |o: ActiveOrder| o.expiry_time > ts
}

/// The pending order and the audit record a limit instruction creates at time `ts`, when
/// its identifier and times fit their ranges.
pub open spec fn new_order(
    v: EngineView,
    side: Side,
    price: u8,
    qty: i64,
    ttl_ms: u64,
    ts: u64,
) -> Option<(PendingOrder, OrderAudit)> {
    let id = v.order_id_counter + 1;
    let activation = ts + v.config.latency_ms;
    let expiry = activation + ttl_ms;
    if id <= u64::MAX && activation <= u64::MAX && expiry <= u64::MAX {
        Some(
            (
                PendingOrder {
                    id: id as u64,
                    side,
                    price,
                    qty,
                    activation_time: activation as u64,
                    expiry_time: expiry as u64,
                },
                OrderAudit {
                    id: id as u64,
                    side,
                    price,
                    original_qty: qty,
                    filled_qty: 0,
                    create_time: ts,
                    activation_time: activation as u64,
                    expiry_time: expiry as u64,
                    status: OrderStatus::Created,
                },
            ),
        )
    } else {
        None
    }
}

/// The outcome of the `idx`-th instruction of a strategy at time `ts`: the new state and
/// the `(instruction index, order id)` pair of an order it created, or `None` when a
/// counter or time would leave its range. A limit instruction creates a pending order
/// with the next identifier, active after the latency and expiring its time to live
/// later, and audits it as created; a cancel removes an active order (counting it and
/// auditing it as cancelled) and is ignored for any other identifier.
pub open spec fn instr_step(v: EngineView, instr: OrderInstr, ts: u64, idx: int) -> Option<
    (EngineView, Option<(usize, OrderId)>),
> {
    match instr {
        OrderInstr::Limit { side, price, qty, ttl_ms } => {
            match new_order(v, side, price, qty, ttl_ms, ts) {
                Some((p, a)) => if v.metrics.total_orders < usize::MAX {
                    Some(
                        (
                            EngineView {
                                pending: v.pending.push(p),
                                order_audit: v.order_audit.push(a),
                                order_id_counter: p.id,
                                metrics: Metrics {
                                    total_orders: (v.metrics.total_orders + 1) as usize,
                                    ..v.metrics
                                },
                                ..v
                            },
                            Some((idx as usize, p.id)),
                        ),
                    )
                } else {
                    None
                },
                None => None,
            }
        },
        OrderInstr::Cancel { id } => {
            if !has_active(v.active, id) {
                Some((v, None))
            } else if v.metrics.cancelled_orders < usize::MAX {
                Some(
                    (
                        EngineView {
                            active: v.active.filter(other_than(id)),
                            metrics: Metrics {
                                cancelled_orders: (v.metrics.cancelled_orders + 1) as usize,
                                ..v.metrics
                            },
                            order_audit: set_status(v.order_audit, id, OrderStatus::Cancelled),
                            ..v
                        },
                        None,
                    ),
                )
            } else {
                None
            }
        },
    }
}

/// The outcome of a list of instructions, carried out in order: the final state and the
/// order-id pairs of the created orders, or `None` when an instruction fails.
pub open spec fn instr_fold(v: EngineView, instrs: Seq<OrderInstr>, ts: u64) -> Option<
    (EngineView, Seq<(usize, OrderId)>),
>
    decreases instrs.len(),
{
    if instrs.len() == 0 {
        Some((v, Seq::empty()))
    } else {
        match instr_fold(v, instrs.drop_last(), ts) {
            Some((v1, ms)) => match instr_step(v1, instrs.last(), ts, instrs.len() - 1) {
                Some((v2, m)) => Some(
                    (
                        v2,
                        match m {
                            Some(x) => ms.push(x),
                            None => ms,
                        },
                    ),
                ),
                None => None,
            },
            None => None,
        }
    }
}

impl EngineView {
    /// Whether the expired orders at `ts` can be counted.
    pub open spec fn can_expire(self, ts: u64) -> bool {
        self.metrics.expired_orders + self.active.filter(expired_at(ts)).len() <= usize::MAX
    }

    /// The state after expiring orders at `ts`: every active order whose expiry time has
    /// come is removed, counted as expired, and audited as expired.
    pub open spec fn expired(self, ts: u64) -> EngineView {
        let gone = self.active.filter(expired_at(ts));
        EngineView {
            active: self.active.filter(live_at(ts)),
            metrics: Metrics {
                expired_orders: (self.metrics.expired_orders + gone.len()) as usize,
                ..self.metrics
            },
            order_audit: set_statuses(self.order_audit, active_ids(gone), OrderStatus::Expired),
            ..self
        }
    }
}

/// Active orders a trade can fill: those on the filled side whose limit the trade price
/// reaches (a NO order at or above it when `at_or_below`, a YES order at or below it
/// otherwise).
pub open spec fn fillable(fill_side: Side, trade_price: u8, at_or_below: bool) -> spec_fn(
    ActiveOrder,
) -> bool {
    |o: ActiveOrder|
        o.side == fill_side && if at_or_below {
            o.price >= trade_price
        } else {
            o.price <= trade_price
        }
}

/// Fill priority: the better price first (the lower one for NO orders, the higher one
/// for YES orders), then the lower identifier.
pub open spec fn fills_before(a: ActiveOrder, b: ActiveOrder, at_or_below: bool) -> bool {
    if a.price != b.price {
        if at_or_below {
            a.price < b.price
        } else {
            a.price > b.price
        }
    } else {
        a.id <= b.id
    }
}

/// Orders listed in fill priority.
pub open spec fn in_fill_priority(s: Seq<ActiveOrder>, at_or_below: bool) -> bool {
    forall|i: int, j: int|
        #![trigger s[i], s[j]]
        0 <= i < j < s.len() ==> fills_before(s[i], s[j], at_or_below)
}

/// The quantity an order takes from what remains of a trade.
pub open spec fn fill_qty(c: ActiveOrder, q: i64) -> i64 {
    if q <= c.remaining {
        q
    } else {
        c.remaining
    }
}

/// The fill of order `c` from what remains `q` of a trade at time `ts`, at the order's
/// own limit price.
pub open spec fn fill_of(c: ActiveOrder, q: i64, ts: u64) -> Fill {
    Fill { id: c.id, price: c.price, qty: fill_qty(c, q), ts, side: c.side }
}

/// The active orders after order `id` is filled down to `remaining`: removed when
/// nothing remains, updated otherwise.
pub open spec fn active_after_fill(active: Seq<ActiveOrder>, id: OrderId, remaining: i64) -> Seq<
    ActiveOrder,
> {
    if remaining <= 0 {
        active.filter(other_than(id))
    } else {
        active.map_values(with_remaining(id, remaining))
    }
}

/// Order `id` with `remaining` left; other orders as they are.
pub open spec fn with_remaining(id: OrderId, remaining: i64) -> spec_fn(ActiveOrder) -> ActiveOrder {
    |o: ActiveOrder|
        if o.id == id {
            ActiveOrder { remaining, ..o }
        } else {
            o
        }
}

/// The audit trail after order `id` takes a fill of `qty`: audited as filled with its
/// whole quantity when `complete`, else as partially filled with `qty` more filled.
pub open spec fn audit_after_fill(audit: Seq<OrderAudit>, id: OrderId, qty: i64, complete: bool) -> Seq<
    OrderAudit,
> {
    if 1 <= id <= audit.len() {
        let a = audit[id - 1];
        audit.update(
            id - 1,
            if complete {
                OrderAudit { status: OrderStatus::Filled, filled_qty: a.original_qty, ..a }
            } else {
                OrderAudit {
                    status: OrderStatus::PartiallyFilled,
                    filled_qty: (a.filled_qty + qty) as i64,
                    ..a
                }
            },
        )
    } else {
        audit
    }
}

/// Whether order `c` can take its fill from what remains `q` of a trade without a
/// quantity or a metric leaving its range.
pub open spec fn fill_fits(v: EngineView, c: ActiveOrder, q: i64, ts: u64) -> bool {
    q <= 0 || {
        let f = fill_of(c, q, ts);
        &&& v.metrics.can_update_fill(f, c.side == Side::Yes, c.price as i64)
        &&& i64::MIN <= q - f.qty <= i64::MAX
        &&& (c.remaining - f.qty > 0 && 1 <= c.id <= v.order_audit.len()) ==> i64::MIN
            <= v.order_audit[c.id - 1].filled_qty + f.qty <= i64::MAX
    }
}

/// One step of a trade's fills: while some of the trade remains, order `c` takes the
/// smaller of that and its own remaining quantity at its limit price; the metrics record
/// the fill, the order is updated or removed, and its audit record follows.
pub open spec fn fill_step(v: EngineView, c: ActiveOrder, q: i64, ts: u64) -> (EngineView, i64) {
    if q <= 0 {
        (v, q)
    } else {
        let f = fill_of(c, q, ts);
        let rest = c.remaining - f.qty;
        (
            EngineView {
                metrics: v.metrics.after_fill(f, c.side == Side::Yes, c.price as i64),
                active: active_after_fill(v.active, c.id, rest as i64),
                order_audit: audit_after_fill(v.order_audit, c.id, f.qty, rest <= 0),
                calls: v.calls.push(StrategyCall::Fill { fill: f }),
                ..v
            },
            (q - f.qty) as i64,
        )
    }
}

/// The fills of a trade of quantity `q` against a list of orders, in list order: the
/// final state and what remains of the trade.
pub open spec fn fill_fold(v: EngineView, cands: Seq<ActiveOrder>, q: i64, ts: u64) -> (
    EngineView,
    i64,
)
    decreases cands.len(),
{
    if cands.len() == 0 {
        (v, q)
    } else {
        let (v1, q1) = fill_fold(v, cands.drop_last(), q, ts);
        fill_step(v1, cands.last(), q1, ts)
    }
}

/// Whether every step of `fill_fold` stays within the ranges.
pub open spec fn fold_fits(v: EngineView, cands: Seq<ActiveOrder>, q: i64, ts: u64) -> bool
    decreases cands.len(),
{
    if cands.len() == 0 {
        true
    } else {
        let (v1, q1) = fill_fold(v, cands.drop_last(), q, ts);
        fold_fits(v, cands.drop_last(), q, ts) && fill_fits(v1, cands.last(), q1, ts)
    }
}

/// The side, price and direction by which a trade fills resting orders: a YES taker
/// fills NO orders at or above the YES price, a NO taker fills YES orders at or below
/// the YES price that its NO price implies.
pub open spec fn trade_terms(yes_price: u8, no_price: u8, taker: Side) -> (Side, u8, bool) {
    match taker {
        Side::Yes => (Side::No, yes_price, true),
        Side::No => (Side::Yes, (100 - no_price) as u8, false),
    }
}

/// With no active order, a trade has nothing to fill.
proof fn lemma_no_active_fills(v: EngineView, p: spec_fn(ActiveOrder) -> bool, q: i64, ts: u64)
    requires
        v.active.len() == 0,
    ensures
        forall|cands: Seq<ActiveOrder>|
            #[trigger] cands.to_multiset() == v.active.filter(p).to_multiset() ==> cands
                =~= Seq::<ActiveOrder>::empty(),
        fold_fits(v, Seq::empty(), q, ts),
        fill_fold(v, Seq::empty(), q, ts).0 == v,
{
    v.active.lemma_filter_len(p);
    v.active.filter(p).to_multiset_ensures();
    assert forall|cands: Seq<ActiveOrder>|
        #[trigger] cands.to_multiset() == v.active.filter(p).to_multiset() implies cands
            =~= Seq::<ActiveOrder>::empty() by {
        cands.to_multiset_ensures();
    }
}

/// The parts of one event's processing make a valid step: activation, the book update,
/// the fills and the market data shown are those `step_valid` and `event_step` ask for.
proof fn lemma_step_parts(v0: EngineView, e: Event, t: StepTrace, v2: EngineView)
    requires
        v2 == (EngineView { books: v2.books, ..v0.activated(e.spec_ts()) }),
        book_or_empty(books_map(v0.books), e.spec_ticker()).accepts(e),
        books_map(v2.books) == books_after_event(books_map(v0.books), e),
        t.books == v2.books,
        fills_valid(v2, e, t.cands),
        shows(t.md, books_map(t.books), e),
    ensures
        step_valid(v0, e, t),
{
}

/// Carrying out one more event extends a traced run.
#[verifier::rlimit(30)]
proof fn lemma_run_trace_push(
    v: EngineView,
    events: Seq<Event>,
    trace: Seq<StepTrace>,
    u: EngineView,
    e: Event,
    t: StepTrace,
    w: EngineView,
)
    requires
        run_trace(v, events, trace) == Some(u),
        step_valid(u, e, t),
        event_step(u, e, t) == Some(w),
    ensures
        run_trace(v, events.push(e), trace.push(t)) == Some(w),
{
    reveal(run_trace);
    assert(events.push(e).drop_last() =~= events);
    assert(trace.push(t).drop_last() =~= trace);
}

/// A trade's fills leave the trace as it was.
proof fn lemma_fill_fold_trace(v: EngineView, cands: Seq<ActiveOrder>, q: i64, ts: u64)
    ensures
        fill_fold(v, cands, q, ts).0.trace == v.trace,
    decreases cands.len(),
{
    if cands.len() > 0 {
        lemma_fill_fold_trace(v, cands.drop_last(), q, ts);
    }
}

/// Carrying out instructions leaves the trace as it was.
proof fn lemma_instr_fold_trace(v: EngineView, instrs: Seq<OrderInstr>, ts: u64)
    ensures
        instr_fold(v, instrs, ts) matches Some((w, m)) ==> w.trace == v.trace,
    decreases instrs.len(),
{
    if instrs.len() > 0 {
        lemma_instr_fold_trace(v, instrs.drop_last(), ts);
    }
}

/// Whether `md` is the market data shown for event `e` with books `m` after it: the
/// event's time and ticker, and the best bid and ask of the ticker's book (0 and 100 on an
/// empty side).
pub open spec fn shows(md: MarketData, m: Map<Seq<char>, BookView>, e: Event) -> bool {
    &&& md.ts == e.spec_ts()
    &&& md.ticker@ == e.spec_ticker()
    &&& md.bid == book_or_empty(m, e.spec_ticker()).best_bid_price()
    &&& md.ask == book_or_empty(m, e.spec_ticker()).best_ask_price()
}

/// The state after a trade fills the listed orders in order; other events fill nothing.
pub open spec fn after_fills(v: EngineView, e: Event, cands: Seq<ActiveOrder>) -> EngineView {
    match e {
        Event::Trade { qty, ts, .. } => fill_fold(v, cands, qty, ts).0,
        _ => v,
    }
}

/// Whether `t` records a way the engine carries out event `e` from state `v`: the event's
/// book accepts it and the books are those after it; a trade fills the fillable active
/// orders, after activation, in fill priority and within the ranges, and other events fill
/// nothing; and the strategy is shown the event's time and ticker and the best bid and
/// ask of the ticker's book after the event (and after any fills).
pub open spec fn step_valid(v: EngineView, e: Event, t: StepTrace) -> bool {
    &&& book_or_empty(books_map(v.books), e.spec_ticker()).accepts(e)
    &&& books_map(t.books) == books_after_event(books_map(v.books), e)
    &&& fills_valid(EngineView { books: t.books, ..v.activated(e.spec_ts()) }, e, t.cands)
    &&& shows(t.md, books_map(t.books), e)
}

/// Whether `cands` lists how a trade fills resting orders from state `v`: the fillable
/// active orders, in fill priority, each fill within the ranges; other events fill nothing.
pub open spec fn fills_valid(v: EngineView, e: Event, cands: Seq<ActiveOrder>) -> bool {
    match e {
        Event::Trade { yes_price, no_price, qty, taker, ts, .. } => {
            let (side, price, below) = trade_terms(yes_price, no_price, taker);
            &&& in_fill_priority(cands, below)
            &&& cands.to_multiset() == v.active.filter(fillable(side, price, below)).to_multiset()
            &&& fold_fits(v, cands, qty, ts)
        },
        _ => cands.len() == 0,
    }
}

/// The state after carrying out a strategy's instructions at `ts` and expiring orders;
/// `None` when an instruction or the expiry count leaves its range.
pub open spec fn reply_outcome(v: EngineView, instrs: Seq<OrderInstr>, ts: u64) -> Option<
    EngineView,
> {
    match instr_fold(v, instrs, ts) {
        Some((v4, _)) => if v4.can_expire(ts) {
            Some(v4.expired(ts))
        } else {
            None
        },
        None => None,
    }
}

/// The state before the strategy's reply to event `e` is carried out as `t` records: due
/// orders activate at the event's time; the books become `t.books`; a trade fills
/// `t.cands`, telling the strategy of each fill; `t` joins the trace; and the strategy,
/// shown `t.md`, replies `t.instrs`.
pub open spec fn before_reply(v: EngineView, e: Event, t: StepTrace) -> EngineView {
    let v3 = after_fills(EngineView { books: t.books, ..v.activated(e.spec_ts()) }, e, t.cands);
    EngineView {
        trace: v3.trace.push(t),
        calls: v3.calls.push(StrategyCall::Book { md: t.md, reply: t.instrs }),
        ..v3
    }
}

/// The state after the strategy is told of the orders its reply created, when there are
/// any.
pub open spec fn told_of_orders(v: EngineView, mappings: Seq<(usize, OrderId)>) -> EngineView {
    if mappings.len() > 0 {
        EngineView { calls: v.calls.push(StrategyCall::OrdersCreated { mappings }), ..v }
    } else {
        v
    }
}

/// The state after event `e` carried out as `t` records: the state before the reply
/// (`before_reply`); then the strategy's instructions `t.instrs` are carried out at the
/// event's time, expired orders go, and the strategy is told of the orders created.
/// `None` when an instruction or the expiry count leaves its range.
pub open spec fn event_step(v: EngineView, e: Event, t: StepTrace) -> Option<EngineView> {
    let v4 = before_reply(v, e, t);
    match reply_outcome(v4, t.instrs, e.spec_ts()) {
        Some(w) => Some(told_of_orders(w, instr_fold(v4, t.instrs, e.spec_ts()).unwrap().1)),
        None => None,
    }
}

/// The state after the events, carried out one by one as the trace records: `None` when the
/// trace does not record one step per event, records a step the engine cannot take, or a
/// step leaves a range.
#[verifier::opaque]
pub open spec fn run_trace(v: EngineView, events: Seq<Event>, trace: Seq<StepTrace>) -> Option<
    EngineView,
>
    decreases events.len(),
{
    if events.len() != trace.len() {
        None
    } else if events.len() == 0 {
        Some(v)
    } else {
        match run_trace(v, events.drop_last(), trace.drop_last()) {
            Some(u) => if step_valid(u, events.last(), trace.last()) {
                event_step(u, events.last(), trace.last())
            } else {
                None
            },
            None => None,
        }
    }
}

/// Whether a trade's fills leave a range from state `v`, once its due orders are active:
/// the fillable orders, listed in fill priority, cannot all take their fills within the
/// ranges. Other events fill nothing and never fail so.
pub open spec fn fills_fail(v: EngineView, e: Event) -> bool {
    match e {
        Event::Trade { yes_price, no_price, qty, taker, ts, .. } => {
            let w = v.activated(ts);
            let (side, price, below) = trade_terms(yes_price, no_price, taker);
            exists|cands: Seq<ActiveOrder>|
                {
                    &&& #[trigger] in_fill_priority(cands, below)
                    &&& cands.to_multiset() == w.active.filter(
                        fillable(side, price, below),
                    ).to_multiset()
                    &&& !fold_fits(w, cands, qty, ts)
                }
        },
        _ => false,
    }
}

/// Whether a run from `v` over `events`, of a strategy that starts in state `s0`, stops at
/// an event whose step leaves a range, as `trace` records the steps carried out: for some
/// `k`, the first `k` events run as the trace records them, the strategy answering every
/// call made so far as recorded, and then either the trade at `k` cannot fill its orders
/// (the trace ends there), or the trace records one more step, which the engine takes and
/// in which the strategy replies as recorded, and carrying out that reply or expiring
/// orders leaves a range.
pub open spec fn run_stops<S: KalshiStrategy>(
    v: EngineView,
    events: Seq<Event>,
    trace: Seq<StepTrace>,
    s0: S,
) -> bool {
    exists|k: int|
        {
            &&& 0 <= k < events.len()
            &&& #[trigger] run_trace(v, events.take(k), trace.take(k)) matches Some(u)
            &&& {
                ||| trace.len() == k && fills_fail(u, events[k]) && exists|s: S|
                    #[trigger] followed(s0, u.calls, v.calls.len() as int, s)
                ||| trace.len() == k + 1 && step_valid(u, events[k], trace[k]) && event_step(
                    u,
                    events[k],
                    trace[k],
                ) is None && exists|s: S|
                    #[trigger] followed(
                        s0,
                        before_reply(u, events[k], trace[k]).calls,
                        v.calls.len() as int,
                        s,
                    )
            }
        }
}

/// A traced run records one step per event.
proof fn lemma_run_trace_len(v: EngineView, events: Seq<Event>, trace: Seq<StepTrace>)
    ensures
        run_trace(v, events, trace) is Some ==> events.len() == trace.len(),
{
    reveal(run_trace);
}

/// A trade's fills do not depend on the books.
proof fn lemma_fill_fold_books(
    v: EngineView,
    b: Seq<(Seq<char>, BookView)>,
    cands: Seq<ActiveOrder>,
    q: i64,
    ts: u64,
)
    ensures
        fill_fold(EngineView { books: b, ..v }, cands, q, ts) == (
            EngineView { books: b, ..fill_fold(v, cands, q, ts).0 },
            fill_fold(v, cands, q, ts).1,
        ),
        fold_fits(EngineView { books: b, ..v }, cands, q, ts) == fold_fits(v, cands, q, ts),
    decreases cands.len(),
{
    if cands.len() > 0 {
        lemma_fill_fold_books(v, b, cands.drop_last(), q, ts);
    }
}

/// The resolution prices of the markets of a list of books, in order.
pub open spec fn resolution_prices(books: Seq<(Seq<char>, BookView)>) -> Seq<u8> {
    books.map_values(
        |b: (Seq<char>, BookView)| market_resolution(b.1.best_bid_price(), b.1.best_ask_price()),
    )
}

/// Main execution simulator engine
pub struct Engine {
    state: SimState,
    config: SimConfig,
    trace: Ghost<Seq<StepTrace>>,
    calls: Ghost<Seq<StrategyCall>>,
}

/// Internal simulation state
#[derive(Debug)]
struct SimState {
    books: Vec<(String, OrderBook)>,
    pending: Vec<PendingOrder>,
    active: Vec<ActiveOrder>,
    metrics: Metrics,
    order_audit: Vec<OrderAudit>,
    order_id_counter: OrderId,
}

/// The view of the books of the engine.
pub open spec fn books_view(books: Seq<(String, OrderBook)>) -> Seq<(Seq<char>, BookView)> {
    books.map_values(|b: (String, OrderBook)| (b.0@, b.1@))
}

impl View for Engine {
    type V = EngineView;

    closed spec fn view(&self) -> EngineView {
        EngineView {
            config: self.config,
            books: books_view(self.state.books@),
            pending: self.state.pending@,
            active: self.state.active@,
            metrics: self.state.metrics,
            order_audit: self.state.order_audit@,
            order_id_counter: self.state.order_id_counter,
            trace: self.trace@,
            calls: self.calls@,
        }
    }
}

/// Replacing the book of an existing ticker changes that ticker's book and nothing else.
proof fn lemma_books_map_update(books: Seq<(Seq<char>, BookView)>, i: int, b: BookView)
    requires
        tickers_distinct(books),
        0 <= i < books.len(),
    ensures
        tickers_distinct(books.update(i, (books[i].0, b))),
        books_map(books.update(i, (books[i].0, b))) == books_map(books).insert(books[i].0, b),
        books_map(books).contains_key(books[i].0),
        books_map(books)[books[i].0] == books[i].1,
{
    let nb = books.update(i, (books[i].0, b));
    let t = books[i].0;
    assert(books[i].0 == t);
    assert(nb[i].0 == t);
    assert(has_book(books, t));
    assert(book_index(books, t) == i);
    assert(book_index(nb, t) == i);
    assert forall|u: Seq<char>| has_book(nb, u) == has_book(books, u) by {
        if has_book(books, u) {
            let k = book_index(books, u);
            assert(nb[k].0 == u);
        }
        if has_book(nb, u) {
            let k = book_index(nb, u);
            assert(books[k].0 == u);
        }
    }
    assert forall|u: Seq<char>| u != t && has_book(books, u) implies nb[book_index(nb, u)].1
        == books[book_index(books, u)].1 by {
        let k = book_index(books, u);
        assert(nb[k].0 == u);
        let k2 = book_index(nb, u);
        assert(books[k2].0 == u);
    }
    assert(books_map(nb) =~= books_map(books).insert(t, b));
}

/// Adding a book for a new ticker adds that ticker's book and nothing else.
proof fn lemma_books_map_push(books: Seq<(Seq<char>, BookView)>, t: Seq<char>, b: BookView)
    requires
        tickers_distinct(books),
        !has_book(books, t),
    ensures
        tickers_distinct(books.push((t, b))),
        books_map(books.push((t, b))) == books_map(books).insert(t, b),
        !books_map(books).contains_key(t),
{
    let nb = books.push((t, b));
    assert(nb[books.len() as int].0 == t);
    assert(book_index(nb, t) == books.len());
    assert forall|u: Seq<char>| u != t implies has_book(nb, u) == has_book(books, u) by {
        if has_book(books, u) {
            let k = book_index(books, u);
            assert(nb[k].0 == u);
        }
    }
    assert forall|u: Seq<char>| u != t && has_book(books, u) implies nb[book_index(nb, u)].1
        == books[book_index(books, u)].1 by {
        let k = book_index(books, u);
        assert(nb[k].0 == u);
        let k2 = book_index(nb, u);
        assert(k2 < books.len());
        assert(books[k2].0 == u);
    }
    assert(books_map(nb) =~= books_map(books).insert(t, b));
}

/// Once a prefix of the instructions fails, the whole list fails.
proof fn lemma_instr_fold_fails(v: EngineView, instrs: Seq<OrderInstr>, ts: u64, k: int)
    requires
        0 <= k <= instrs.len(),
        instr_fold(v, instrs.take(k), ts) is None,
    ensures
        instr_fold(v, instrs, ts) is None,
    decreases instrs.len() - k,
{
    if k == instrs.len() {
        assert(instrs.take(k) =~= instrs);
    } else {
        assert(instrs.take(k + 1).drop_last() =~= instrs.take(k));
        lemma_instr_fold_fails(v, instrs, ts, k + 1);
    }
}

/// Once a prefix of a trade's fills leaves the ranges, the whole list does.
proof fn lemma_fold_fits_prefix(v: EngineView, cands: Seq<ActiveOrder>, q: i64, ts: u64, k: int)
    requires
        0 <= k <= cands.len(),
        !fold_fits(v, cands.take(k), q, ts),
    ensures
        !fold_fits(v, cands, q, ts),
    decreases cands.len() - k,
{
    if k == cands.len() {
        assert(cands.take(k) =~= cands);
    } else {
        assert(cands.take(k + 1).drop_last() =~= cands.take(k));
        lemma_fold_fits_prefix(v, cands, q, ts, k + 1);
    }
}

/// Whether fill priority puts `a` before `b`.
fn fills_before_exec(a: &ActiveOrder, b: &ActiveOrder, at_or_below: bool) -> (r: bool)
    ensures
        r == fills_before(*a, *b, at_or_below),
{
    if a.price != b.price {
        if at_or_below {
            a.price < b.price
        } else {
            a.price > b.price
        }
    } else {
        a.id <= b.id
    }
}

/// The orders in fill priority (an insertion sort).
fn sort_by_fill_priority(v: &Vec<ActiveOrder>, at_or_below: bool) -> (r: Vec<ActiveOrder>)
    ensures
        in_fill_priority(r@, at_or_below),
        r@.to_multiset() == v@.to_multiset(),
{
    broadcast use vstd::seq_lib::group_to_multiset_ensures;

    let mut r: Vec<ActiveOrder> = Vec::new();
    let n = v.len();
    let mut i: usize = 0;
    while i < n
        invariant
            0 <= i <= n,
            n == v@.len(),
            in_fill_priority(r@, at_or_below),
            r@.to_multiset() == v@.take(i as int).to_multiset(),
        decreases n - i,
    {
        let x = v[i];
        let mut p: usize = 0;
        while p < r.len() && !fills_before_exec(&x, &r[p], at_or_below)
            invariant
                0 <= p <= r@.len(),
                forall|k: int| 0 <= k < p ==> !fills_before(x, #[trigger] r@[k], at_or_below),
            decreases r@.len() - p,
        {
            p = p + 1;
        }
        let ghost old_r = r@;
        r.insert(p, x);
        proof {
            assert forall|a: int, b: int|
                #![trigger r@[a], r@[b]]
                0 <= a < b < r@.len() implies fills_before(r@[a], r@[b], at_or_below) by {
                if b < p {
                    assert(r@[a] == old_r[a] && r@[b] == old_r[b]);
                } else if b == p {
                    assert(r@[a] == old_r[a]);
                    assert(!fills_before(x, old_r[a], at_or_below));
                } else if a == p {
                    assert(r@[b] == old_r[b - 1]);
                    assert(fills_before(x, old_r[p as int], at_or_below));
                    if p < b - 1 {
                        assert(fills_before(old_r[p as int], old_r[b - 1], at_or_below));
                    }
                } else if a < p {
                    assert(r@[a] == old_r[a] && r@[b] == old_r[b - 1]);
                    if a < b - 1 {
                        assert(fills_before(old_r[a], old_r[b - 1], at_or_below));
                    }
                } else {
                    assert(r@[a] == old_r[a - 1] && r@[b] == old_r[b - 1]);
                }
            }
            assert(v@.take(i + 1) =~= v@.take(i as int).push(x));
            assert(r@ == old_r.insert(p as int, x));
            vstd::seq_lib::to_multiset_insert(old_r, p as int, x);
            vstd::seq_lib::to_multiset_build(v@.take(i as int), x);
            assert(old_r.insert(p as int, x).to_multiset() == old_r.to_multiset().insert(x));
            assert(v@.take(i as int).push(x).to_multiset() == v@.take(i as int).to_multiset().insert(
                x,
            ));
        }
        i = i + 1;
    }
    proof {
        assert(v@.take(n as int) =~= v@);
    }
    r
}

/// Whether the metrics can record a fill without leaving their ranges.
fn metrics_can_record(m: &Metrics, fill: &Fill, is_buy: bool, cost_basis: i64) -> (r: bool)
    ensures
        r == m.can_update_fill(*fill, is_buy, cost_basis),
{
    if m.total_fills == usize::MAX {
        return false;
    }
    let volume = m.volume_traded as i128 + fill.qty as i128;
    if volume < i64::MIN as i128 || volume > i64::MAX as i128 {
        return false;
    }
    if !is_buy {
        let diff = fill.price as i128 - cost_basis as i128;
        if diff > i64::MAX as i128 {
            return false;
        }
        let q = fill.qty as i128;
        assert(diff * q <= 0x8000_0000_0000_0000 * 0x8000_0000_0000_0000
            && diff * q >= -(0x8000_0000_0000_0000 * 0x8000_0000_0000_0000)) by (nonlinear_arith)
            requires
                -0x8000_0000_0000_0000 <= diff <= 0x8000_0000_0000_0000,
                -0x8000_0000_0000_0000 <= q <= 0x8000_0000_0000_0000,
        ;
        let pnl = diff * q;
        if pnl < i64::MIN as i128 || pnl > i64::MAX as i128 {
            return false;
        }
        let gross = m.gross_pnl_cents as i128 + pnl;
        if gross < i64::MIN as i128 || gross > i64::MAX as i128 {
            return false;
        }
        if m.num_spreads == usize::MAX {
            return false;
        }
    }
    true
}

/// The position of the first event past the end time is the first index at which an
/// event is past it.
proof fn lemma_stop_index(events: Seq<Event>, end_time: Option<u64>, i: int)
    requires
        0 <= i <= events.len(),
        forall|k: int| 0 <= k < i ==> !past_end(#[trigger] events[k], end_time),
        i == events.len() || past_end(events[i], end_time),
    ensures
        stop_index(events, end_time) == i,
    decreases i,
{
    if i > 0 {
        assert(!past_end(events[0], end_time));
        let rest = events.drop_first();
        assert forall|k: int| 0 <= k < i - 1 implies !past_end(#[trigger] rest[k], end_time) by {
            assert(rest[k] == events[k + 1]);
        }
        if i < events.len() {
            assert(rest[i - 1] == events[i]);
        }
        lemma_stop_index(rest, end_time, i - 1);
    }
}

/// A replay that fails on a prefix of the events fails on all of them.
proof fn lemma_replay_rejects_extension(
    m: Map<Seq<char>, BookView>,
    t: Seq<Event>,
    u: Seq<Event>,
)
    requires
        !replay_accepts(m, t),
    ensures
        !replay_accepts(m, t + u),
    decreases u.len(),
{
    if u.len() == 0 {
        assert(t + u =~= t);
    } else {
        lemma_replay_rejects_extension(m, t, u.drop_last());
        assert((t + u).drop_last() =~= t + u.drop_last());
    }
}

/// The events processed up to position `j` are a prefix of those processed up to `k`.
proof fn lemma_processed_prefix(events: Seq<Event>, p: spec_fn(Event) -> bool, j: int, k: int)
    requires
        0 <= j <= k <= events.len(),
    ensures
        events.take(k).filter(p) == events.take(j).filter(p) + events.subrange(j, k).filter(p),
{
    assert(events.take(k) =~= events.take(j) + events.subrange(j, k));
    Seq::filter_distributes_over_add(events.take(j), events.subrange(j, k), p);
}

/// The resolution price of a market from its final book.
fn determine_market_resolution(book: &OrderBook) -> (r: u8)
    ensures
        r == market_resolution(book@.best_bid_price(), book@.best_ask_price()),
{
    let (bid, ask) = book.best_bid_ask();
    if bid >= 99 && ask >= 100 {
        100
    } else if ask <= 1 && bid == 0 {
        0
    } else if bid > 0 && ask < 100 {
        ((bid as u16 + ask as u16) / 2) as u8
    } else {
        50
    }
}

/// The ticker of an event.
fn event_ticker(e: &Event) -> (r: &String)
    ensures
        r@ == e.spec_ticker(),
{
    match e {
        Event::Snapshot { ticker, .. } => ticker,
        Event::Delta { ticker, .. } => ticker,
        Event::Trade { ticker, .. } => ticker,
    }
}

/// Whether a book can take an event without a level leaving the `i64` range.
fn book_accepts(book: &OrderBook, e: &Event) -> (r: bool)
    ensures
        r == book@.accepts(*e),
{
    match e {
        Event::Delta { side, price, delta, .. } => {
            let q = book.get_quantity(*side, *price);
            q.checked_add(*delta).is_some()
        },
        _ => true,
    }
}

impl Engine {
    /// Create a new execution engine
    pub fn new(config: SimConfig) -> (r: Self)
        ensures
            r@.wf(),
            r@ == (EngineView {
                config,
                books: Seq::empty(),
                pending: Seq::empty(),
                active: Seq::empty(),
                metrics: Metrics::spec_zero(),
                order_audit: Seq::empty(),
                order_id_counter: 0,
                trace: Seq::empty(),
                calls: Seq::empty(),
            }),
    {
        let r = Engine {
            state: SimState {
                books: Vec::new(),
                pending: Vec::new(),
                active: Vec::new(),
                metrics: Metrics::new(),
                order_audit: Vec::new(),
                order_id_counter: 0,
            },
            config,
            trace: Ghost(Seq::empty()),
            calls: Ghost(Seq::empty()),
        };
        assert(books_view(r.state.books@) =~= Seq::empty());
        r
    }

    /// Set the audited status of order `id`, when it is audited.
    fn set_audit_status(&mut self, id: OrderId, status: OrderStatus)
        ensures
            final(self)@ == (EngineView {
                order_audit: set_status(old(self)@.order_audit, id, status),
                ..old(self)@
            }),
    {
        let n = self.state.order_audit.len();
        if 1 <= id && id <= n as u64 {
            let idx = (id - 1) as usize;
            let a = self.state.order_audit[idx];
            self.state.order_audit.set(idx, OrderAudit { status, ..a });
        }
    }

    /// Activate every pending order due at `current_ts`.
    fn activate_pending_orders(&mut self, current_ts: u64)
        requires
            old(self)@.wf(),
        ensures
            final(self)@ == old(self)@.activated(current_ts),
            final(self)@.wf(),
    {
        let ghost v0 = self@;
        let mut still_pending: Vec<PendingOrder> = Vec::new();
        let n = self.state.pending.len();
        let mut i: usize = 0;
        while i < n
            invariant
                0 <= i <= n,
                n == v0.pending.len(),
                v0.wf(),
                self@ == (EngineView {
                    active: v0.active + activate_orders(v0.pending.take(i as int).filter(due(current_ts))),
                    order_audit: set_statuses(
                        v0.order_audit,
                        pending_ids(v0.pending.take(i as int).filter(due(current_ts))),
                        OrderStatus::Active,
                    ),
                    ..v0
                }),
                still_pending@ == v0.pending.take(i as int).filter(waiting(current_ts)),
                self@.order_audit.len() == v0.order_audit.len(),
                forall|k: int|
                    0 <= k < self@.order_audit.len() ==> #[trigger] self@.order_audit[k].id == k
                        + 1,
            decreases n - i,
        {
            let o = self.state.pending[i];
            let ghost before = v0.pending.take(i as int);
            proof {
                assert(v0.pending.take(i + 1) =~= before.push(o));
                before.lemma_filter_push(o, due(current_ts));
                before.lemma_filter_push(o, waiting(current_ts));
            }
            if o.activation_time <= current_ts {
                let ghost ready = before.filter(due(current_ts));
                self.state.active.push(o.into_active());
                self.set_audit_status(o.id, OrderStatus::Active);
                proof {
                    assert(activate_orders(ready.push(o)) =~= activate_orders(ready).push(
                        o.spec_into_active(),
                    ));
                    assert(pending_ids(ready.push(o)) =~= pending_ids(ready).push(o.id));
                    assert(pending_ids(ready.push(o)).drop_last() =~= pending_ids(ready));
                    assert(self@.active =~= v0.active + activate_orders(ready.push(o)));
                }
            } else {
                still_pending.push(o);
            }
            i = i + 1;
        }
        self.state.pending = still_pending;
        proof {
            assert(v0.pending.take(n as int) =~= v0.pending);
            lemma_activation_tracked(v0.pending, v0.active, v0.order_id_counter, current_ts);
            lemma_activation_audited(
                v0.pending,
                v0.active,
                v0.order_audit,
                v0.order_id_counter,
                current_ts,
            );
        }
    }

    /// Whether an active order has identifier `id`.
    fn has_active_order(&self, id: OrderId) -> (r: bool)
        ensures
            r == has_active(self@.active, id),
    {
        let n = self.state.active.len();
        let mut i: usize = 0;
        while i < n
            invariant
                0 <= i <= n,
                n == self@.active.len(),
                forall|k: int| 0 <= k < i ==> self@.active[k].id != id,
            decreases n - i,
        {
            if self.state.active[i].id == id {
                assert(self@.active[i as int].id == id);
                return true;
            }
            i = i + 1;
        }
        false
    }

    /// Remove the active orders with identifier `id`.
    fn remove_active(&mut self, id: OrderId)
        ensures
            final(self)@ == (EngineView {
                active: old(self)@.active.filter(other_than(id)),
                ..old(self)@
            }),
    {
        let ghost v0 = self@;
        let ghost a0 = self@.active;
        let mut kept: Vec<ActiveOrder> = Vec::new();
        let n = self.state.active.len();
        let mut i: usize = 0;
        while i < n
            invariant
                0 <= i <= n,
                n == a0.len(),
                self@ == v0,
                a0 == v0.active,
                kept@ == a0.take(i as int).filter(other_than(id)),
            decreases n - i,
        {
            let o = self.state.active[i];
            proof {
                assert(a0.take(i + 1) =~= a0.take(i as int).push(o));
                a0.take(i as int).lemma_filter_push(o, other_than(id));
            }
            if o.id != id {
                kept.push(o);
            }
            i = i + 1;
        }
        proof {
            assert(a0.take(n as int) =~= a0);
        }
        self.state.active = kept;
    }

    /// Carry out the instructions of a strategy at `current_ts`, in order, and return the
    /// `(instruction index, order id)` pair of each order created.
    fn process_order_instructions(
        &mut self,
        instructions: Vec<OrderInstr>,
        current_ts: u64,
    ) -> (r: Result<Vec<(usize, OrderId)>, EngineError>)
        requires
            old(self)@.wf(),
        ensures
            final(self)@.wf(),
            final(self)@.books == old(self)@.books,
            final(self)@.config == old(self)@.config,
            !(r matches Err(EngineError::BookOverflow)),
            final(self)@.trace == old(self)@.trace,
            final(self)@.calls == old(self)@.calls,
            match r {
                Ok(m) => instr_fold(old(self)@, instructions@, current_ts) == Some(
                    (final(self)@, m@),
                ),
                Err(_) => instr_fold(old(self)@, instructions@, current_ts) is None,
            },
    {
        let ghost v0 = self@;
        let mut mappings: Vec<(usize, OrderId)> = Vec::new();
        let n = instructions.len();
        let mut i: usize = 0;
        while i < n
            invariant
                0 <= i <= n,
                n == instructions@.len(),
                self@.wf(),
                self@.books == v0.books,
                self@.config == v0.config,
                v0 == old(self)@,
                self@.trace == v0.trace,
                self@.calls == v0.calls,
                instr_fold(v0, instructions@.take(i as int), current_ts) == Some(
                    (self@, mappings@),
                ),
            decreases n - i,
        {
            proof {
                assert(instructions@.take(i + 1).drop_last() =~= instructions@.take(i as int));
            }
            match &instructions[i] {
                OrderInstr::Limit { side, price, qty, ttl_ms } => {
                    if self.state.order_id_counter == u64::MAX
                        || self.state.metrics.total_orders == usize::MAX {
                        proof {
                            lemma_instr_fold_fails(v0, instructions@, current_ts, i + 1);
                        }
                        return Err(EngineError::CounterOverflow);
                    }
                    let activation = match current_ts.checked_add(self.config.latency_ms) {
                        Some(a) => a,
                        None => {
                            proof {
                                lemma_instr_fold_fails(v0, instructions@, current_ts, i + 1);
                            }
                            return Err(EngineError::TimeOverflow);
                        },
                    };
                    let expiry = match activation.checked_add(*ttl_ms) {
                        Some(e) => e,
                        None => {
                            proof {
                                lemma_instr_fold_fails(v0, instructions@, current_ts, i + 1);
                            }
                            return Err(EngineError::TimeOverflow);
                        },
                    };
                    let id = self.state.order_id_counter + 1;
                    let ghost before = self@;
                    self.state.pending.push(
                        PendingOrder {
                            id,
                            side: *side,
                            price: *price,
                            qty: *qty,
                            activation_time: activation,
                            expiry_time: expiry,
                        },
                    );
                    self.state.order_audit.push(
                        OrderAudit {
                            id,
                            side: *side,
                            price: *price,
                            original_qty: *qty,
                            filled_qty: 0,
                            create_time: current_ts,
                            activation_time: activation,
                            expiry_time: expiry,
                            status: OrderStatus::Created,
                        },
                    );
                    self.state.order_id_counter = id;
                    self.state.metrics.total_orders = self.state.metrics.total_orders + 1;
                    mappings.push((i, id));
                    proof {
                        lemma_new_order_tracked(
                            before.pending,
                            before.active,
                            before.order_id_counter,
                            self@.pending.last(),
                        );
                        assert(self@.pending =~= before.pending.push(self@.pending.last()));
                        lemma_new_order_audited(
                            before.pending,
                            before.active,
                            before.order_audit,
                            self@.pending.last(),
                            self@.order_audit.last(),
                        );
                        assert(self@.order_audit =~= before.order_audit.push(
                            self@.order_audit.last(),
                        ));
                    }
                },
                OrderInstr::Cancel { id } => {
                    if self.has_active_order(*id) {
                        if self.state.metrics.cancelled_orders == usize::MAX {
                            proof {
                                lemma_instr_fold_fails(v0, instructions@, current_ts, i + 1);
                            }
                            return Err(EngineError::CounterOverflow);
                        }
                        proof {
                            lemma_active_filter_tracked(
                                self@.pending,
                                self@.active,
                                self@.order_id_counter,
                                other_than(*id),
                            );
                            lemma_cancel_audited(
                                self@.pending,
                                self@.active,
                                self@.order_audit,
                                self@.order_id_counter,
                                *id,
                            );
                        }
                        self.remove_active(*id);
                        self.state.metrics.cancelled_orders = self.state.metrics.cancelled_orders
                            + 1;
                        self.set_audit_status(*id, OrderStatus::Cancelled);
                    }
                },
            }
            i = i + 1;
        }
        proof {
            assert(instructions@.take(n as int) =~= instructions@);
        }
        Ok(mappings)
    }

    /// Expire every active order whose expiry time has come at `current_ts`.
    fn expire_orders(&mut self, current_ts: u64) -> (r: Result<(), EngineError>)
        requires
            old(self)@.wf(),
        ensures
            final(self)@.wf(),
            final(self)@.books == old(self)@.books,
            final(self)@.config == old(self)@.config,
            r is Err ==> r == Err::<(), EngineError>(EngineError::CounterOverflow),
            r is Ok <==> old(self)@.can_expire(current_ts),
            r is Ok ==> final(self)@ == old(self)@.expired(current_ts),
            final(self)@.trace == old(self)@.trace,
            final(self)@.calls == old(self)@.calls,
    {
        let ghost v0 = self@;
        let ghost a0 = self@.active;
        let mut kept: Vec<ActiveOrder> = Vec::new();
        let mut count: usize = 0;
        let n = self.state.active.len();
        let mut i: usize = 0;
        while i < n
            invariant
                0 <= i <= n,
                n == a0.len(),
                a0 == v0.active,
                v0.wf(),
                count <= i,
                count == a0.take(i as int).filter(expired_at(current_ts)).len(),
                kept@ == a0.take(i as int).filter(live_at(current_ts)),
                self@ == (EngineView {
                    order_audit: set_statuses(
                        v0.order_audit,
                        active_ids(a0.take(i as int).filter(expired_at(current_ts))),
                        OrderStatus::Expired,
                    ),
                    ..v0
                }),
                self@.order_audit.len() == v0.order_audit.len(),
                forall|k: int|
                    0 <= k < self@.order_audit.len() ==> #[trigger] self@.order_audit[k].id == k
                        + 1,
            decreases n - i,
        {
            let o = self.state.active[i];
            let ghost before = a0.take(i as int);
            proof {
                assert(a0.take(i + 1) =~= before.push(o));
                before.lemma_filter_push(o, expired_at(current_ts));
                before.lemma_filter_push(o, live_at(current_ts));
            }
            if o.expiry_time <= current_ts {
                let ghost gone = before.filter(expired_at(current_ts));
                count = count + 1;
                self.set_audit_status(o.id, OrderStatus::Expired);
                proof {
                    assert(active_ids(gone.push(o)) =~= active_ids(gone).push(o.id));
                    assert(active_ids(gone.push(o)).drop_last() =~= active_ids(gone));
                }
            } else {
                kept.push(o);
            }
            i = i + 1;
        }
        proof {
            assert(a0.take(n as int) =~= a0);
        }
        self.state.active = kept;
        proof {
            lemma_active_filter_tracked(v0.pending, v0.active, v0.order_id_counter, live_at(current_ts));
            lemma_expiry_audited(v0.pending, v0.active, v0.order_audit, v0.order_id_counter, current_ts);
        }
        match self.state.metrics.expired_orders.checked_add(count) {
            Some(total) => {
                self.state.metrics.expired_orders = total;
                Ok(())
            },
            None => Err(EngineError::CounterOverflow),
        }
    }

    /// The active orders a trade can fill, in fill priority.
    fn fill_candidates(&self, fill_side: Side, trade_price: u8, at_or_below: bool) -> (r: Vec<
        ActiveOrder,
    >)
        ensures
            in_fill_priority(r@, at_or_below),
            r@.to_multiset() == self@.active.filter(
                fillable(fill_side, trade_price, at_or_below),
            ).to_multiset(),
    {
        let ghost a0 = self@.active;
        let ghost pred = fillable(fill_side, trade_price, at_or_below);
        let mut eligible: Vec<ActiveOrder> = Vec::new();
        let n = self.state.active.len();
        let mut i: usize = 0;
        while i < n
            invariant
                0 <= i <= n,
                n == a0.len(),
                a0 == self@.active,
                pred == fillable(fill_side, trade_price, at_or_below),
                eligible@ == a0.take(i as int).filter(pred),
            decreases n - i,
        {
            let o = self.state.active[i];
            proof {
                assert(a0.take(i + 1) =~= a0.take(i as int).push(o));
                a0.take(i as int).lemma_filter_push(o, pred);
            }
            let reaches = if at_or_below {
                o.price >= trade_price
            } else {
                o.price <= trade_price
            };
            if o.side == fill_side && reaches {
                eligible.push(o);
            }
            i = i + 1;
        }
        proof {
            assert(a0.take(n as int) =~= a0);
        }
        sort_by_fill_priority(&eligible, at_or_below)
    }

    /// Leave order `id` with `remaining`, removing it when nothing remains.
    fn update_active_after_fill(&mut self, id: OrderId, remaining: i64)
        ensures
            final(self)@ == (EngineView {
                active: active_after_fill(old(self)@.active, id, remaining),
                ..old(self)@
            }),
    {
        if remaining <= 0 {
            self.remove_active(id);
        } else {
            let ghost v0 = self@;
            let ghost a0 = self@.active;
            let ghost f = with_remaining(id, remaining);
            let mut out: Vec<ActiveOrder> = Vec::new();
            let n = self.state.active.len();
            let mut i: usize = 0;
            while i < n
                invariant
                    0 <= i <= n,
                    n == a0.len(),
                    self@ == v0,
                    a0 == v0.active,
                    f == with_remaining(id, remaining),
                    out@ == a0.take(i as int).map_values(f),
                decreases n - i,
            {
                let o = self.state.active[i];
                let o2 = if o.id == id {
                    ActiveOrder { remaining, ..o }
                } else {
                    o
                };
                out.push(o2);
                proof {
                    assert(a0.take(i + 1).map_values(f) =~= a0.take(i as int).map_values(f).push(
                        f(o),
                    ));
                }
                i = i + 1;
            }
            proof {
                assert(a0.take(n as int) =~= a0);
            }
            self.state.active = out;
        }
    }

    /// Record in the audit trail a fill of `qty` of order `id`.
    fn record_audit_fill(&mut self, id: OrderId, qty: i64, complete: bool)
        requires
            (!complete && 1 <= id <= old(self)@.order_audit.len()) ==> i64::MIN <= old(
                self,
            )@.order_audit[id - 1].filled_qty + qty <= i64::MAX,
        ensures
            final(self)@ == (EngineView {
                order_audit: audit_after_fill(old(self)@.order_audit, id, qty, complete),
                ..old(self)@
            }),
    {
        let n = self.state.order_audit.len();
        if 1 <= id && id <= n as u64 {
            let idx = (id - 1) as usize;
            let a = self.state.order_audit[idx];
            let updated = if complete {
                OrderAudit { status: OrderStatus::Filled, filled_qty: a.original_qty, ..a }
            } else {
                OrderAudit {
                    status: OrderStatus::PartiallyFilled,
                    filled_qty: a.filled_qty + qty,
                    ..a
                }
            };
            self.state.order_audit.set(idx, updated);
        }
    }

    /// Fill the listed orders, in order, from a trade of quantity `qty` at `ts`, telling
    /// the strategy of each fill.
    fn apply_fills<S: KalshiStrategy>(
        &mut self,
        strategy: &mut S,
        cands: &Vec<ActiveOrder>,
        qty: i64,
        ts: u64,
    ) -> (r: Result<(), EngineError>)
        requires
            old(self)@.wf(),
            forall|k: int| 0 <= k < cands@.len() ==> old(self)@.active.contains(#[trigger] cands@[k]),
            forall|i: int, j: int|
                #![trigger cands@[i], cands@[j]]
                0 <= i < j < cands@.len() ==> cands@[i].id != cands@[j].id,
        ensures
            final(self)@.wf(),
            final(self)@.books == old(self)@.books,
            final(self)@.config == old(self)@.config,
            r is Ok <==> fold_fits(old(self)@, cands@, qty, ts),
            r is Ok ==> final(self)@ == fill_fold(old(self)@, cands@, qty, ts).0,
            r is Err ==> r == Err::<(), EngineError>(EngineError::FillOverflow),
            final(self)@.trace == old(self)@.trace,
            follow_extends(old(self)@.calls, *old(strategy), final(self)@.calls, *final(strategy)),
    {
        let ghost v0 = self@;
        let ghost s_init = *strategy;
        proof {
            lemma_follow_same(v0.calls, s_init);
        }
        let mut q = qty;
        let n = cands.len();
        let mut i: usize = 0;
        while i < n
            invariant
                0 <= i <= n,
                n == cands@.len(),
                v0 == old(self)@,
                v0.wf(),
                self@.wf(),
                self@.books == v0.books,
                self@.config == v0.config,
                self@.trace == v0.trace,
                self@.pending == v0.pending,
                forall|k: int| 0 <= k < cands@.len() ==> v0.active.contains(#[trigger] cands@[k]),
                forall|k: int| i <= k < cands@.len() ==> self@.active.contains(#[trigger] cands@[k]),
                forall|a: int, b: int|
                    #![trigger cands@[a], cands@[b]]
                    0 <= a < b < cands@.len() ==> cands@[a].id != cands@[b].id,
                fold_fits(v0, cands@.take(i as int), qty, ts),
                fill_fold(v0, cands@.take(i as int), qty, ts) == (self@, q),
                follow_extends(v0.calls, s_init, self@.calls, *strategy),
                s_init == *old(strategy),
            decreases n - i,
        {
            let c = cands[i];
            proof {
                assert(cands@.take(i + 1).drop_last() =~= cands@.take(i as int));
                assert(cands@.take(i + 1).last() == c);
            }
            if q > 0 {
                let fq: i64 = if q <= c.remaining {
                    q
                } else {
                    c.remaining
                };
                let fill = Fill { id: c.id, price: c.price, qty: fq, ts, side: c.side };
                let is_buy = c.side == Side::Yes;
                let cost = c.price as i64;
                if !metrics_can_record(&self.state.metrics, &fill, is_buy, cost) {
                    proof {
                        lemma_fold_fits_prefix(v0, cands@, qty, ts, i + 1);
                    }
                    return Err(EngineError::FillOverflow);
                }
                let new_q = match q.checked_sub(fq) {
                    Some(x) => x,
                    None => {
                        proof {
                            lemma_fold_fits_prefix(v0, cands@, qty, ts, i + 1);
                        }
                        return Err(EngineError::FillOverflow);
                    },
                };
                let rest = c.remaining - fq;
                let n_audit = self.state.order_audit.len();
                if rest > 0 && 1 <= c.id && c.id <= n_audit as u64 {
                    let a = self.state.order_audit[(c.id - 1) as usize];
                    if a.filled_qty.checked_add(fq).is_none() {
                        proof {
                            lemma_fold_fits_prefix(v0, cands@, qty, ts, i + 1);
                        }
                        return Err(EngineError::FillOverflow);
                    }
                }
                let ghost before = self@;
                let ghost q0 = q;
                proof {
                    assert(v0.active.contains(c));
                    let m = choose|m: int| 0 <= m < v0.active.len() && v0.active[m] == c;
                    assert forall|j: int| 0 <= j < before.pending.len() implies #[trigger]
                        before.pending[j].id != c.id by {
                        assert(v0.pending[j].id != v0.active[m].id);
                    }
                    assert(before.active.contains(cands@[i as int]));
                    lemma_fill_audited(before, c, q0, ts);
                    assert forall|k: int| i < k < cands@.len() implies fill_step(
                        before,
                        c,
                        q0,
                        ts,
                    ).0.active.contains(#[trigger] cands@[k]) by {
                        assert(before.active.contains(cands@[k]));
                        assert(cands@[i as int].id != cands@[k].id);
                        lemma_fill_keeps_others(before, c, q0, ts, cands@[k]);
                    }
                }
                self.state.metrics.update_fill(&fill, is_buy, cost);
                let ghost s_before = *strategy;
                let ghost calls_before = self@.calls;
                strategy.on_fill(&fill);
                self.calls = Ghost(self.calls@.push(StrategyCall::Fill { fill }));
                proof {
                    lemma_follow_push(
                        v0.calls,
                        s_init,
                        calls_before,
                        s_before,
                        StrategyCall::Fill { fill },
                        *strategy,
                    );
                }
                self.update_active_after_fill(c.id, rest);
                self.record_audit_fill(c.id, fq, rest <= 0);
                q = new_q;
                proof {
                    lemma_active_remaining_tracked(
                        before.pending,
                        before.active,
                        before.order_id_counter,
                        c.id,
                        rest,
                    );
                    assert(self@.order_audit.len() == before.order_audit.len());
                    assert forall|k: int| 0 <= k < self@.order_audit.len() implies #[trigger]
                        self@.order_audit[k].id == k + 1 by {
                        assert(before.order_audit[k].id == k + 1);
                    }
                    assert(self@.books == before.books);
                }
            }
            i = i + 1;
        }
        proof {
            assert(cands@.take(n as int) =~= cands@);
        }
        Ok(())
    }

    /// Fill resting orders from a trade of `qty` at `ts`, telling the strategy of each fill.
    fn process_trade_fills<S: KalshiStrategy>(
        &mut self,
        strategy: &mut S,
        yes_price: u8,
        no_price: u8,
        qty: i64,
        taker: Side,
        ts: u64,
    ) -> (r: Result<(), EngineError>)
        requires
            old(self)@.wf(),
            taker == Side::No ==> no_price <= 100,
        ensures
            final(self)@.wf(),
            final(self)@.books == old(self)@.books,
            final(self)@.config == old(self)@.config,
            r is Err ==> r == Err::<(), EngineError>(EngineError::FillOverflow),
            final(self)@.trace == old(self)@.trace,
            follow_extends(old(self)@.calls, *old(strategy), final(self)@.calls, *final(strategy)),
            ({
                let (side, price, below) = trade_terms(yes_price, no_price, taker);
                exists|cands: Seq<ActiveOrder>|
                    {
                        &&& #[trigger] in_fill_priority(cands, below)
                        &&& cands.to_multiset() == old(self)@.active.filter(
                            fillable(side, price, below),
                        ).to_multiset()
                        &&& (r is Ok <==> fold_fits(old(self)@, cands, qty, ts))
                        &&& (r is Ok ==> final(self)@ == fill_fold(old(self)@, cands, qty, ts).0)
                    }
            }),
    {
        let (side, price, below) = match taker {
            Side::Yes => (Side::No, yes_price, true),
            Side::No => (Side::Yes, 100 - no_price, false),
        };
        assert((side, price, below) == trade_terms(yes_price, no_price, taker));
        let ghost v0 = self@;
        let cands = self.fill_candidates(side, price, below);
        proof {
            lemma_candidates_active(v0.active, cands@, fillable(side, price, below));
            lemma_candidates_distinct(v0.active, cands@, fillable(side, price, below));
        }
        let r = self.apply_fills(strategy, &cands, qty, ts);
        assert({
            &&& in_fill_priority(cands@, below)
            &&& cands@.to_multiset() == v0.active.filter(fillable(side, price, below)).to_multiset()
            &&& (r is Ok <==> fold_fits(v0, cands@, qty, ts))
            &&& (r is Ok ==> self@ == fill_fold(v0, cands@, qty, ts).0)
        });
        r
    }

    /// The market data to show the strategy for an event: the event's time and ticker and
    /// the best bid and ask of the ticker's book.
    fn market_data_for(&self, event: &Event) -> (md: MarketData)
        requires
            self@.wf(),
        ensures
            shows(md, books_map(self@.books), *event),
    {
        let ticker = event_ticker(event);
        let (bid, ask) = match self.find_book(ticker) {
            Some(i) => {
                proof {
                    lemma_books_map_update(self@.books, i as int, self@.books[i as int].1);
                }
                self.state.books[i].1.best_bid_ask()
            },
            None => {
                proof {
                    assert(empty_book().yes.dom() =~= Set::empty());
                    assert(empty_book().no.dom() =~= Set::empty());
                }
                (0, 100)
            },
        };
        MarketData { ts: event.ts(), ticker: ticker.clone(), bid, ask }
    }

    /// Fill resting orders from an event, when it is a trade; returns the orders filled, in
    /// the order they were filled.
    fn fills_for_event<S: KalshiStrategy>(&mut self, event: &Event, strategy: &mut S) -> (r: (
        Result<(), EngineError>,
        Ghost<Seq<ActiveOrder>>,
    ))
        requires
            old(self)@.wf(),
            trade_price_valid(*event),
        ensures
            final(self)@.wf(),
            final(self)@.books == old(self)@.books,
            final(self)@.config == old(self)@.config,
            final(self)@.trace == old(self)@.trace,
            r.0 is Err ==> r.0 == Err::<(), EngineError>(EngineError::FillOverflow),
            r.0 is Ok ==> fills_valid(old(self)@, *event, r.1@) && final(self)@ == after_fills(
                old(self)@,
                *event,
                r.1@,
            ),
            r.0 is Err ==> (*event matches Event::Trade { yes_price, no_price, qty, taker, ts, .. }
                && {
                let (side, price, below) = trade_terms(yes_price, no_price, taker);
                &&& in_fill_priority(r.1@, below)
                &&& r.1@.to_multiset() == old(self)@.active.filter(
                    fillable(side, price, below),
                ).to_multiset()
                &&& !fold_fits(old(self)@, r.1@, qty, ts)
            }),
            old(self)@.active.len() == 0 ==> r.0 is Ok && r.1@.len() == 0,
            follow_extends(old(self)@.calls, *old(strategy), final(self)@.calls, *final(strategy)),
    {
        let ghost v2 = self@;
        proof {
            lemma_follow_same(v2.calls, *strategy);
        }
        if let Event::Trade { yes_price, no_price, qty, taker, ts, .. } = event {
            let ghost (side, price, below) = trade_terms(*yes_price, *no_price, *taker);
            proof {
                if v2.active.len() == 0 {
                    lemma_no_active_fills(v2, fillable(side, price, below), *qty, *ts);
                }
            }
            let r = self.process_trade_fills(strategy, *yes_price, *no_price, *qty, *taker, *ts);
            let ghost cands = choose|c: Seq<ActiveOrder>|
                {
                    &&& #[trigger] in_fill_priority(c, below)
                    &&& c.to_multiset() == v2.active.filter(fillable(side, price, below)).to_multiset()
                    &&& (r is Ok <==> fold_fits(v2, c, *qty, *ts))
                    &&& (r is Ok ==> self@ == fill_fold(v2, c, *qty, *ts).0)
                };
            proof {
                lemma_fill_fold_trace(v2, cands, *qty, *ts);
            }
            (r, Ghost(cands))
        } else {
            (Ok(()), Ghost(Seq::empty()))
        }
    }

    /// Carry out a strategy's reply at `ts`, then expire orders.
    fn carry_out_reply(&mut self, instructions: Vec<OrderInstr>, ts: u64) -> (r: Result<
        Vec<(usize, OrderId)>,
        EngineError,
    >)
        requires
            old(self)@.wf(),
        ensures
            final(self)@.wf(),
            final(self)@.books == old(self)@.books,
            final(self)@.config == old(self)@.config,
            final(self)@.trace == old(self)@.trace,
            r is Err ==> r != Err::<Vec<(usize, OrderId)>, EngineError>(EngineError::BookOverflow),
            final(self)@.calls == old(self)@.calls,
            r is Ok <==> reply_outcome(old(self)@, instructions@, ts) is Some,
            r is Ok ==> reply_outcome(old(self)@, instructions@, ts) == Some(final(self)@),
            r matches Ok(m) ==> m@ == instr_fold(old(self)@, instructions@, ts).unwrap().1,
            old(self)@.active.len() == 0 && instructions@.len() == 0 ==> r is Ok
                && final(self)@.pending == old(self)@.pending && final(self)@.active.len() == 0,
    {
        let ghost v3 = self@;
        let ghost instrs = instructions@;
        let order_mappings = self.process_order_instructions(instructions, ts)?;
        let ghost v4 = self@;
        proof {
            lemma_instr_fold_trace(v3, instrs, ts);
            if v3.active.len() == 0 && instrs.len() == 0 {
                v4.active.lemma_filter_len(expired_at(ts));
                v4.active.lemma_filter_len(live_at(ts));
            }
        }
        self.expire_orders(ts)?;
        Ok(order_mappings)
    }

    /// Process one market event: activate due orders, update the event's book, fill
    /// resting orders from a trade, show the strategy the new best bid and ask and carry
    /// out its instructions, then expire orders.
    #[verifier::rlimit(40)]
    #[verifier::spinoff_prover]
    fn process_event<S: KalshiStrategy>(&mut self, event: &Event, strategy: &mut S) -> (r:
        Result<(), EngineError>)
        requires
            old(self)@.wf(),
            trade_price_valid(*event),
        ensures
            final(self)@.wf(),
            final(self)@.config == old(self)@.config,
            r is Ok ==> book_or_empty(books_map(old(self)@.books), event.spec_ticker()).accepts(
                *event,
            ) && books_map(final(self)@.books) == books_after_event(
                books_map(old(self)@.books),
                *event,
            ),
            !book_or_empty(books_map(old(self)@.books), event.spec_ticker()).accepts(*event) <==> r
                == Err::<(), EngineError>(EngineError::BookOverflow),
            r is Ok ==> final(self)@.trace == old(self)@.trace.push(final(self)@.trace.last()),
            r is Ok ==> final(self)@.trace.len() == old(self)@.trace.len() + 1 && step_valid(
                old(self)@,
                *event,
                final(self)@.trace.last(),
            ) && event_step(old(self)@, *event, final(self)@.trace.last()) == Some(final(self)@),
            old(self)@.pending.len() == 0 && old(self)@.active.len() == 0 && r != Err::<
                (),
                EngineError,
            >(EngineError::BookOverflow) ==> final(self)@.trace.len() == old(self)@.trace.len() + 1
                && (r is Ok || final(self)@.trace.last().instrs.len() > 0),
            old(self)@.pending.len() == 0 && old(self)@.active.len() == 0 && r is Ok
                && final(self)@.trace.last().instrs.len() == 0 ==> final(self)@.pending.len() == 0
                && final(self)@.active.len() == 0,
            final(self)@.trace.len() >= old(self)@.trace.len(),
            final(self)@.trace.subrange(0, old(self)@.trace.len() as int) == old(self)@.trace,
            follow_extends(old(self)@.calls, *old(strategy), final(self)@.calls, *final(strategy)),
            r is Err && r != Err::<(), EngineError>(EngineError::BookOverflow) ==> {
                ||| final(self)@.trace == old(self)@.trace && fills_fail(old(self)@, *event)
                ||| final(self)@.trace == old(self)@.trace.push(final(self)@.trace.last())
                    && step_valid(old(self)@, *event, final(self)@.trace.last()) && event_step(
                    old(self)@,
                    *event,
                    final(self)@.trace.last(),
                ) is None && final(self)@.calls == before_reply(
                    old(self)@,
                    *event,
                    final(self)@.trace.last(),
                ).calls
            },
    {
        let ghost v0 = self@;
        let ghost s0 = *strategy;
        proof {
            lemma_follow_same(v0.calls, s0);
        }
        let ghost idle = v0.pending.len() == 0 && v0.active.len() == 0;
        let event_ts = event.ts();
        self.activate_pending_orders(event_ts);
        proof {
            if idle {
                v0.pending.lemma_filter_len(due(event_ts));
                v0.pending.lemma_filter_len(waiting(event_ts));
            }
        }
        self.apply_to_book(event)?;
        let ghost v2 = self@;
        let (filled, Ghost(cands)) = self.fills_for_event(event, strategy);
        if filled.is_err() {
            proof {
                if let Event::Trade { yes_price, no_price, qty, taker, ts, .. } = *event {
                    let (side, price, below) = trade_terms(yes_price, no_price, taker);
                    lemma_fill_fold_books(v0.activated(ts), v2.books, cands, qty, ts);
                    assert(v2 == EngineView { books: v2.books, ..v0.activated(ts) });
                    assert(in_fill_priority(cands, below));
                }
            }
            return Err(EngineError::FillOverflow);
        }
        let market_data = self.market_data_for(event);
        let ghost s_before = *strategy;
        let ghost calls_before = self@.calls;
        let instructions = strategy.on_book(&market_data);
        let ghost step = StepTrace {
            md: market_data,
            instrs: instructions@,
            books: v2.books,
            cands,
        };
        self.trace = Ghost(self.trace@.push(step));
        self.calls = Ghost(
            self.calls@.push(StrategyCall::Book { md: market_data, reply: instructions@ }),
        );
        proof {
            lemma_follow_push(
                v0.calls,
                s0,
                calls_before,
                s_before,
                StrategyCall::Book { md: market_data, reply: instructions@ },
                *strategy,
            );
            lemma_step_parts(v0, *event, step, v2);
            assert(self@.trace.subrange(0, v0.trace.len() as int) =~= v0.trace);
        }
        let carried = self.carry_out_reply(instructions, event_ts);
        let order_mappings = match carried {
            Ok(m) => m,
            Err(e) => {
                return Err(e);
            },
        };
        if order_mappings.len() > 0 {
            let ghost mappings = order_mappings@;
            let ghost s_mid = *strategy;
            let ghost calls_mid = self@.calls;
            strategy.on_orders_created(order_mappings);
            self.calls = Ghost(
                self.calls@.push(StrategyCall::OrdersCreated { mappings }),
            );
            proof {
                lemma_follow_push(
                    v0.calls,
                    s0,
                    calls_mid,
                    s_mid,
                    StrategyCall::OrdersCreated { mappings },
                    *strategy,
                );
            }
        }
        proof {
            assert(self@.trace =~= v0.trace.push(step));
        }
        Ok(())
    }

    /// The resolution price of every market, in the order of the books.
    fn resolution_prices(&self) -> (r: Vec<u8>)
        ensures
            r@ == resolution_prices(self@.books),
    {
        let mut prices: Vec<u8> = Vec::new();
        let n = self.state.books.len();
        let mut i: usize = 0;
        while i < n
            invariant
                0 <= i <= n,
                n == self@.books.len(),
                prices@ == resolution_prices(self@.books).take(i as int),
            decreases n - i,
        {
            let p = determine_market_resolution(&self.state.books[i].1);
            prices.push(p);
            proof {
                assert(self@.books[i as int].1 == self.state.books@[i as int].1@);
                assert(prices@ =~= resolution_prices(self@.books).take(i + 1));
            }
            i = i + 1;
        }
        proof {
            assert(resolution_prices(self@.books).take(n as int) =~= resolution_prices(self@.books));
        }
        prices
    }

    /// Settle the strategy's remaining positions at the markets' resolution prices; a
    /// strategy that reports its total profit sets the gross profit of the metrics. The
    /// settlement is recorded with the prices handed to the strategy. Returns what the
    /// strategy reported.
    fn finalize_strategy_pnl<S: KalshiStrategy>(&mut self, strategy: &mut S) -> (reported:
        Option<i64>)
        ensures
            final(self)@ == (EngineView {
                metrics: Metrics {
                    gross_pnl_cents: settled_gross(old(self)@.metrics.gross_pnl_cents, reported),
                    ..old(self)@.metrics
                },
                calls: old(self)@.calls.push(
                    StrategyCall::Settle { prices: resolution_prices(old(self)@.books), reported },
                ),
                ..old(self)@
            }),
            follow_extends(old(self)@.calls, *old(strategy), final(self)@.calls, *final(strategy)),

    {
        let prices = self.resolution_prices();
        let ghost s_before = *strategy;
        proof {
            lemma_follow_same(self@.calls, s_before);
        }
        let reported = strategy.settle_final_positions(&prices);
        self.calls = Ghost(self.calls@.push(StrategyCall::Settle { prices: prices@, reported }));
        proof {
            lemma_follow_push(
                old(self)@.calls,
                s_before,
                old(self)@.calls,
                s_before,
                StrategyCall::Settle { prices: prices@, reported },
                *strategy,
            );
        }
        self.settle_gross_pnl(reported);
        reported
    }

    /// Set the gross profit of the metrics to the total a strategy reported, if any.
    fn settle_gross_pnl(&mut self, reported: Option<i64>)
        ensures
            final(self)@ == (EngineView {
                metrics: Metrics {
                    gross_pnl_cents: settled_gross(old(self)@.metrics.gross_pnl_cents, reported),
                    ..old(self)@.metrics
                },
                ..old(self)@
            }),
    {
        match reported {
            Some(total) => {
                self.state.metrics.gross_pnl_cents = total;
            },
            None => {},
        }
    }

    /// The fills reported from the audit trail.
    fn extract_fills_from_audit(&self) -> (r: Vec<Fill>)
        ensures
            r@ == fills_from_audit(self@.order_audit),
    {
        let ghost audit = self@.order_audit;
        let mut fills: Vec<Fill> = Vec::new();
        let n = self.state.order_audit.len();
        let mut i: usize = 0;
        while i < n
            invariant
                0 <= i <= n,
                n == audit.len(),
                audit == self@.order_audit,
                fills@ == fills_from_audit(audit.take(i as int)),
            decreases n - i,
        {
            let a = self.state.order_audit[i];
            proof {
                assert(audit.take(i + 1).drop_last() =~= audit.take(i as int));
                assert(audit.take(i + 1).last() == a);
            }
            if a.filled_qty > 0 {
                fills.push(
                    Fill { id: a.id, price: a.price, qty: a.filled_qty, ts: a.activation_time, side: a.side },
                );
            }
            i = i + 1;
        }
        proof {
            assert(audit.take(n as int) =~= audit);
        }
        fills
    }

    /// A copy of the audit trail.
    fn copy_audit(&self) -> (r: Vec<OrderAudit>)
        ensures
            r@ == self@.order_audit,
    {
        let mut out: Vec<OrderAudit> = Vec::new();
        let n = self.state.order_audit.len();
        let mut i: usize = 0;
        while i < n
            invariant
                0 <= i <= n,
                n == self@.order_audit.len(),
                out@ == self@.order_audit.take(i as int),
            decreases n - i,
        {
            out.push(self.state.order_audit[i]);
            proof {
                assert(out@ =~= self@.order_audit.take(i + 1));
            }
            i = i + 1;
        }
        proof {
            assert(self@.order_audit.take(n as int) =~= self@.order_audit);
        }
        out
    }

    /// The position of the first event past the configured end time.
    fn stop_position(&self, events: &Vec<Event>) -> (r: usize)
        ensures
            r == stop_index(events@, self@.config.end_time),
            r <= events@.len(),
    {
        let n = events.len();
        let mut i: usize = 0;
        while i < n
            invariant
                0 <= i <= n,
                n == events@.len(),
                forall|k: int| 0 <= k < i ==> !past_end(#[trigger] events@[k], self@.config.end_time),
            decreases n - i,
        {
            let past = match self.config.end_time {
                Some(end) => events[i].ts() > end,
                None => false,
            };
            if past {
                proof {
                    lemma_stop_index(events@, self@.config.end_time, i as int);
                }
                return i;
            }
            i = i + 1;
        }
        proof {
            lemma_stop_index(events@, self@.config.end_time, n as int);
        }
        n
    }

    /// Run the simulation with the given strategy over a stream of market events.
    ///
    /// Events after the first one past the end time are not processed, nor are those
    /// before the start time. Whatever the strategy does, the books after a run are the
    /// books replayed from the processed events, and the report's fills are those of the
    /// report's audit trail. For each processed event the strategy is shown its market
    /// data, and its reply is carried out; every call on the strategy is recorded, and the
    /// strategy answered each as it states.
    #[verifier::rlimit(40)]
    pub fn run<S: KalshiStrategy>(&mut self, strategy: &mut S, events: Vec<Event>) -> (r:
        Result<Report, EngineError>)
        requires
            old(self)@.wf(),
            forall|i: int| 0 <= i < events@.len() ==> trade_price_valid(#[trigger] events@[i]),
        ensures
            final(self)@.wf(),
            final(self)@.config == old(self)@.config,
            r is Ok ==> replay_accepts(
                books_map(old(self)@.books),
                processed_events(events@, old(self)@.config),
            ) && books_map(final(self)@.books) == replay(
                books_map(old(self)@.books),
                processed_events(events@, old(self)@.config),
            ),
            r == Err::<Report, EngineError>(EngineError::BookOverflow) ==> !replay_accepts(
                books_map(old(self)@.books),
                processed_events(events@, old(self)@.config),
            ),
            r matches Ok(report) ==> {
                &&& report.metrics == final(self)@.metrics
                &&& report.orders@ == final(self)@.order_audit
                &&& report.fills@ == fills_from_audit(report.orders@)
                &&& report.metrics.total_orders == report.orders@.len()
            },
            r is Ok ==> final(self)@.trace.len() >= old(self)@.trace.len(),
            r is Ok ==> (run_trace(
                old(self)@,
                processed_events(events@, old(self)@.config),
                final(self)@.trace.skip(old(self)@.trace.len() as int),
            ) matches Some(u) && final(self)@ == (EngineView {
                metrics: Metrics {
                    gross_pnl_cents: settled_gross(
                        u.metrics.gross_pnl_cents,
                        final(self)@.calls.last()->reported,
                    ),
                    ..u.metrics
                },
                calls: u.calls.push(
                    StrategyCall::Settle {
                        prices: resolution_prices(u.books),
                        reported: final(self)@.calls.last()->reported,
                    },
                ),
                ..u
            })),
            events@.len() == 0 ==> r is Ok,
            processed_events(events@, old(self)@.config).len() == 0 ==> r is Ok,
            follow_extends(old(self)@.calls, *old(strategy), final(self)@.calls, *final(strategy)),
            followed(
                *old(strategy),
                final(self)@.calls,
                old(self)@.calls.len() as int,
                *final(strategy),
            ),
            r is Err && r != Err::<Report, EngineError>(EngineError::BookOverflow) ==> run_stops(
                old(self)@,
                processed_events(events@, old(self)@.config),
                final(self)@.trace.skip(old(self)@.trace.len() as int),
                *old(strategy),
            ),
            old(self)@.pending.len() == 0 && old(self)@.active.len() == 0 && r is Err && r
                != Err::<Report, EngineError>(EngineError::BookOverflow) ==> exists|k: int|
                old(self)@.trace.len() <= k < final(self)@.trace.len()
                    && #[trigger] final(self)@.trace[k].instrs.len() > 0,
    {
        let ghost v0 = self@;
        let ghost s0 = *strategy;
        proof {
            lemma_follow_same(v0.calls, s0);
            lemma_followed_start(v0.calls, s0);
        }
        let ghost m0 = books_map(v0.books);
        let ghost p = from_start(v0.config.start_time);
        let stop = self.stop_position(&events);
        let mut i: usize = 0;
        proof {
            assert(events@.take(0) =~= Seq::<Event>::empty());
            reveal(Seq::filter);
            assert(events@.take(0).filter(p) =~= Seq::<Event>::empty());
            assert(v0.trace.skip(v0.trace.len() as int) =~= Seq::<StepTrace>::empty());
            reveal(run_trace);
        }
        while i < stop
            invariant
                0 <= i <= stop,
                stop == stop_index(events@, v0.config.end_time),
                stop <= events@.len(),
                v0 == old(self)@,
                m0 == books_map(v0.books),
                p == from_start(v0.config.start_time),
                s0 == *old(strategy),
                follow_extends(v0.calls, s0, self@.calls, *strategy),
                followed(s0, self@.calls, v0.calls.len() as int, *strategy),
                forall|k: int| 0 <= k < events@.len() ==> trade_price_valid(#[trigger] events@[k]),
                self@.wf(),
                self@.config == v0.config,
                replay_accepts(m0, events@.take(i as int).filter(p)),
                books_map(self@.books) == replay(m0, events@.take(i as int).filter(p)),
                self@.trace.len() >= v0.trace.len(),
                run_trace(v0, events@.take(i as int).filter(p), self@.trace.skip(v0.trace.len() as int))
                    == Some(self@),
                (v0.pending.len() == 0 && v0.active.len() == 0 && forall|k: int|
                    v0.trace.len() <= k < self@.trace.len() ==> #[trigger] self@.trace[k].instrs.len()
                        == 0) ==> self@.pending.len() == 0 && self@.active.len() == 0,
            decreases stop - i,
        {
            let event = &events[i];
            let ghost before = events@.take(i as int).filter(p);
            proof {
                assert(events@.take(i + 1) =~= events@.take(i as int).push(*event));
                events@.take(i as int).lemma_filter_push(*event, p);
            }
            if event.ts() >= self.config.start_time {
                let ghost prev = self@;
                let ghost prev_s = *strategy;
                let step = self.process_event(event, strategy);
                match step {
                    Ok(()) => {
                        proof {
                            assert(before.push(*event).drop_last() =~= before);
                            let t0 = v0.trace.len() as int;
                            let tp = prev.trace.len() as int;
                            if v0.pending.len() == 0 && v0.active.len() == 0 && forall|k: int|
                                t0 <= k < self@.trace.len() ==> #[trigger] self@.trace[k].instrs.len()
                                    == 0 {
                                assert forall|k: int| t0 <= k < tp implies #[trigger] prev.trace[k].instrs.len()
                                    == 0 by {
                                    assert(self@.trace.subrange(0, tp)[k] == self@.trace[k]);
                                }
                                assert(self@.trace[tp].instrs.len() == 0);
                            }
                            assert(self@.trace =~= prev.trace.push(self@.trace.last()));
                            assert(self@.trace.skip(t0) =~= prev.trace.skip(t0).push(
                                self@.trace.last(),
                            ));
                            lemma_run_trace_push(
                                v0,
                                before,
                                prev.trace.skip(t0),
                                prev,
                                *event,
                                self@.trace.last(),
                                self@,
                            );
                        }
                    },
                    Err(e) => {
                        proof {
                            let t0 = v0.trace.len() as int;
                            let tp = prev.trace.len() as int;
                            let pe = processed_events(events@, v0.config);
                            let kk = before.len() as int;
                            lemma_processed_prefix(events@, p, i + 1, stop as int);
                            assert(pe == before.push(*event) + events@.subrange(
                                i + 1,
                                stop as int,
                            ).filter(p));
                            assert(pe.take(kk) =~= before);
                            assert(pe[kk] == *event);
                            lemma_run_trace_len(v0, before, prev.trace.skip(t0));
                            if e != EngineError::BookOverflow {
                                let tr = self@.trace.skip(t0);
                                let n0 = v0.calls.len() as int;
                                if self@.trace == prev.trace {
                                    assert(tr.take(kk) =~= prev.trace.skip(t0));
                                    assert(followed(s0, prev.calls, n0, prev_s));
                                } else {
                                    assert(tr =~= prev.trace.skip(t0).push(self@.trace.last()));
                                    assert(tr.take(kk) =~= prev.trace.skip(t0));
                                    assert(followed(s0, prev.calls, n0, prev_s));
                                    assert(followed(s0, self@.calls, n0, *strategy));
                                    assert(followed(
                                        s0,
                                        before_reply(prev, *event, self@.trace.last()).calls,
                                        n0,
                                        *strategy,
                                    ));
                                }
                                assert(run_trace(v0, pe.take(kk), tr.take(kk)) == Some(prev));
                            }
                            if v0.pending.len() == 0 && v0.active.len() == 0 && e
                                != EngineError::BookOverflow {
                                if exists|k: int|
                                    t0 <= k < tp && #[trigger] prev.trace[k].instrs.len() > 0 {
                                    let k = choose|k: int|
                                        t0 <= k < tp && #[trigger] prev.trace[k].instrs.len() > 0;
                                    assert(self@.trace.subrange(0, tp)[k] == self@.trace[k]);
                                    assert(self@.trace[k].instrs.len() > 0);
                                } else {
                                    assert(self@.trace[tp].instrs.len() > 0);
                                }
                            }
                            if e == EngineError::BookOverflow {
                                assert(before.push(*event).drop_last() =~= before);
                                assert(!replay_accepts(m0, before.push(*event)));
                                lemma_processed_prefix(events@, p, i + 1, stop as int);
                                lemma_replay_rejects_extension(
                                    m0,
                                    before.push(*event),
                                    events@.subrange(i + 1, stop as int).filter(p),
                                );
                            }
                        }
                        return Err(e);
                    },
                }
            }
            i = i + 1;
        }
        self.finalize_strategy_pnl(strategy);
        Ok(
            Report {
                metrics: self.state.metrics,
                fills: self.extract_fills_from_audit(),
                orders: self.copy_audit(),
            },
        )
    }

    /// Get current active orders count
    pub fn active_orders_count(&self) -> (r: usize)
        ensures
            r == self@.active.len(),
    {
        self.state.active.len()
    }

    /// Get current metrics snapshot
    pub fn get_metrics(&self) -> (r: &Metrics)
        ensures
            *r == self@.metrics,
    {
        &self.state.metrics
    }

    /// Get orderbook for a ticker
    pub fn get_book(&self, ticker: &str) -> (r: Option<&OrderBook>)
        requires
            self@.wf(),
        ensures
            match r {
                Some(b) => books_map(self@.books).contains_key(ticker@) && b@ == books_map(
                    self@.books,
                )[ticker@] && b.wf(),
                None => !books_map(self@.books).contains_key(ticker@),
            },
    {
        let owned = ticker.to_owned();
        match self.find_book(&owned) {
            Some(i) => {
                proof {
                    lemma_books_map_update(self@.books, i as int, self@.books[i as int].1);
                }
                assert(self@.books[i as int].1 == self.state.books@[i as int].1@);
                assert(crate::kalshi_l2_book::levels_positive(self@.books[i as int].1.yes));
                assert(crate::kalshi_l2_book::levels_positive(self@.books[i as int].1.no));
                assert(self.state.books@[i as int].1.wf());
                Some(&self.state.books[i].1)
            },
            None => None,
        }
    }

    /// The position of the book of `ticker`, if it has one.
    fn find_book(&self, ticker: &String) -> (r: Option<usize>)
        ensures
            match r {
                Some(i) => i < self@.books.len() && self@.books[i as int].0 == ticker@,
                None => !has_book(self@.books, ticker@),
            },
    {
        let n = self.state.books.len();
        let mut i: usize = 0;
        while i < n
            invariant
                0 <= i <= n,
                n == self@.books.len(),
                forall|k: int| 0 <= k < i ==> self@.books[k].0 != ticker@,
            decreases n - i,
        {
            if self.state.books[i].0 == *ticker {
                assert(self@.books[i as int].0 == self.state.books@[i as int].0@);
                return Some(i);
            }
            assert(self@.books[i as int].0 == self.state.books@[i as int].0@);
            i = i + 1;
        }
        None
    }

    /// Apply a market event to the book of its ticker, which is created empty on the
    /// ticker's first event. Fails, leaving the state as it was, when a level would leave
    /// the `i64` range.
    fn apply_to_book(&mut self, event: &Event) -> (r: Result<(), EngineError>)
        requires
            old(self)@.wf(),
        ensures
            final(self)@.wf(),
            r is Ok <==> book_or_empty(books_map(old(self)@.books), event.spec_ticker()).accepts(
                *event,
            ),
            r is Ok ==> books_map(final(self)@.books) == books_after_event(
                books_map(old(self)@.books),
                *event,
            ),
            r is Err ==> r == Err::<(), EngineError>(EngineError::BookOverflow) && final(self)@
                == old(self)@,
            final(self)@ == (EngineView { books: final(self)@.books, ..old(self)@ }),
    {
        let ghost v0 = self@;
        let t = event_ticker(event);
        match self.find_book(t) {
            Some(i) => {
                proof {
                    lemma_books_map_update(v0.books, i as int, v0.books[i as int].1);
                }
                let (name, mut book) = self.state.books.remove(i);
                assert(book@ == v0.books[i as int].1);
                assert(crate::kalshi_l2_book::levels_positive(v0.books[i as int].1.yes));
                assert(book.wf());
                if !book_accepts(&book, event) {
                    self.state.books.insert(i, (name, book));
                    proof {
                        assert(self.state.books@ =~= old(self).state.books@);
                    }
                    return Err(EngineError::BookOverflow);
                }
                update_book_with_event(&mut book, event);
                self.state.books.insert(i, (name, book));
                proof {
                    assert(books_view(self.state.books@) =~= v0.books.update(
                        i as int,
                        (v0.books[i as int].0, book@),
                    ));
                    lemma_books_map_update(v0.books, i as int, book@);
                    assert forall|k: int| 0 <= k < self@.books.len() implies
                        crate::kalshi_l2_book::levels_positive(#[trigger] self@.books[k].1.yes)
                            && crate::kalshi_l2_book::levels_positive(self@.books[k].1.no) by {
                        if k != i {
                            assert(self@.books[k] == v0.books[k]);
                        }
                    }
                }
                Ok(())
            },
            None => {
                let mut book = OrderBook::new();
                assert(book@ == empty_book());
                update_book_with_event(&mut book, event);
                self.state.books.push((t.clone(), book));
                proof {
                    assert(books_view(self.state.books@) =~= v0.books.push((t@, book@)));
                    lemma_books_map_push(v0.books, t@, book@);
                    assert forall|k: int| 0 <= k < self@.books.len() implies
                        crate::kalshi_l2_book::levels_positive(#[trigger] self@.books[k].1.yes)
                            && crate::kalshi_l2_book::levels_positive(self@.books[k].1.no) by {
                        if k < v0.books.len() {
                            assert(self@.books[k] == v0.books[k]);
                        }
                    }
                }
                Ok(())
            },
        }
    }
}

/// Convenience function to run a backtest: a fresh engine with `config` runs `strategy`
/// over `events`. Whatever the strategy does, the books of the run are those replayed
/// from the processed events; the report is the one the step semantics give when the
/// strategy answers every call as it states.
pub fn run_backtest<S: KalshiStrategy>(
    config: SimConfig,
    strategy: &mut S,
    events: Vec<Event>,
) -> (r: Result<Report, EngineError>)
    requires
        forall|i: int| 0 <= i < events@.len() ==> trade_price_valid(#[trigger] events@[i]),
    ensures
        r is Ok ==> replay_accepts(Map::empty(), processed_events(events@, config)),
        r == Err::<Report, EngineError>(EngineError::BookOverflow) ==> !replay_accepts(
            Map::empty(),
            processed_events(events@, config),
        ),
        r matches Ok(report) ==> report.fills@ == fills_from_audit(report.orders@)
            && report.metrics.total_orders == report.orders@.len(),
        r matches Ok(report) ==> traced_report(config, events@, report, *old(strategy), *final(strategy)),
        events@.len() == 0 ==> r is Ok,
        processed_events(events@, config).len() == 0 ==> r is Ok,
        r is Err && r != Err::<Report, EngineError>(EngineError::BookOverflow) ==> run_stopped(
            config,
            events@,
            *old(strategy),
        ),
{
    let mut engine = Engine::new(config);
    proof {
        assert(books_map(engine@.books) =~= Map::empty());
    }
    let r = engine.run(strategy, events);
    proof {
        if r is Ok {
            let tr = engine@.trace.skip(0);
            let u = run_trace(fresh_engine(config), processed_events(events@, config), tr).unwrap();
            assert(run_trace(fresh_engine(config), processed_events(events@, config), tr) == Some(u));
            let reported = engine@.calls.last()->reported;
            assert(engine@.calls.skip(0) =~= engine@.calls);
            assert(follows(
                *old(strategy),
                u.calls.push(StrategyCall::Settle { prices: resolution_prices(u.books), reported }),
                *strategy,
            ));
            assert(settled_gross(u.metrics.gross_pnl_cents, reported) == engine@.metrics.gross_pnl_cents);
        } else if r != Err::<Report, EngineError>(EngineError::BookOverflow) {
            assert(run_stops(
                fresh_engine(config),
                processed_events(events@, config),
                engine@.trace.skip(0),
                *old(strategy),
            ));
        }
    }
    r
}


/// The state of a new engine with configuration `config`.
pub open spec fn fresh_engine(config: SimConfig) -> EngineView {
    EngineView {
        config,
        books: Seq::empty(),
        pending: Seq::empty(),
        active: Seq::empty(),
        metrics: Metrics::spec_zero(),
        order_audit: Seq::empty(),
        order_id_counter: 0,
        trace: Seq::empty(),
        calls: Seq::empty(),
    }
}

/// Whether a report is one a new engine gives for the events with a strategy that goes
/// from state `s0` to state `s1`: for some trace of the processed events (the market data
/// the strategy was shown, its replies, the fills), the engine reaches a state whose audit
/// trail is the report's orders; the strategy, settled at the resolution prices of that
/// state's books and reporting `reported`, answers every call the engine made on it as
/// recorded; and the report's metrics are that state's, with the gross profit settled by
/// what the strategy reported.
pub open spec fn traced_report<S: KalshiStrategy>(
    config: SimConfig,
    events: Seq<Event>,
    report: Report,
    s0: S,
    s1: S,
) -> bool {
    exists|trace: Seq<StepTrace>|
        #[trigger] run_trace(fresh_engine(config), processed_events(events, config), trace) matches Some(u)
            && report.orders@ == u.order_audit && exists|reported: Option<i64>|
            {
                &&& report.metrics == (Metrics {
                    gross_pnl_cents: #[trigger] settled_gross(u.metrics.gross_pnl_cents, reported),
                    ..u.metrics
                })
                &&& follows(
                    s0,
                    u.calls.push(
                        StrategyCall::Settle { prices: resolution_prices(u.books), reported },
                    ),
                    s1,
                )
            }
}

/// Whether a new engine's run over the processed events stops at a step that leaves a
/// range, for some record of the steps: the market data shown, the strategy's replies and
/// the fills.
pub open spec fn run_stopped<S: KalshiStrategy>(config: SimConfig, events: Seq<Event>, s0: S) -> bool {
    exists|trace: Seq<StepTrace>|
        #[trigger] run_stops(fresh_engine(config), processed_events(events, config), trace, s0)
}

/// Law: a two-sided market (a bid above 0 and an ask below 100) resolves at the midpoint of
/// its bid and ask, rounded down: twice the price is the sum of bid and ask, or one less,
/// so the price lies between the bid and the ask.
pub proof fn lemma_two_sided_resolution(bid: u8, ask: u8)
    requires
        0 < bid,
        ask < 100,
    ensures
        2 * market_resolution(bid, ask) <= bid + ask <= 2 * market_resolution(bid, ask) + 1,
        bid <= ask ==> bid <= market_resolution(bid, ask) <= ask,
{
}

/// Law: a market with one side or none resolves by its remaining side: YES (100) when a
/// bid of at least 99 stands with no ask, NO (0) when an ask of at most 1 stands with no
/// bid, and 50 otherwise.
pub proof fn lemma_one_sided_resolution(bid: u8, ask: u8)
    requires
        bid == 0 || ask >= 100,
    ensures
        bid >= 99 && ask >= 100 ==> market_resolution(bid, ask) == 100,
        bid == 0 && ask <= 1 ==> market_resolution(bid, ask) == 0,
        !(bid >= 99 && ask >= 100) && !(bid == 0 && ask <= 1) ==> market_resolution(bid, ask)
            == 50,
{
}

/// Law: the resolution price of a two-sided market moves with its prices: a market whose
/// bid and ask are both at least another's resolves at least as high.
pub proof fn lemma_resolution_moves_with_market(b1: u8, a1: u8, b2: u8, a2: u8)
    requires
        0 < b1 <= b2,
        a1 <= a2 < 100,
    ensures
        market_resolution(b1, a1) <= market_resolution(b2, a2),
{
    lemma_two_sided_resolution(b1, a1);
    lemma_two_sided_resolution(b2, a2);
}

/// Law: replaying two stretches of events one after the other is replaying them at once.
pub proof fn lemma_replay_concat(m: Map<Seq<char>, BookView>, s: Seq<Event>, t: Seq<Event>)
    ensures
        replay(m, s + t) == replay(replay(m, s), t),
        replay_accepts(m, s + t) == (replay_accepts(m, s) && replay_accepts(replay(m, s), t)),
    decreases t.len(),
{
    if t.len() == 0 {
        assert(s + t =~= s);
    } else {
        lemma_replay_concat(m, s, t.drop_last());
        assert((s + t).drop_last() =~= s + t.drop_last());
        assert((s + t).last() == t.last());
    }
}

/// Law: a trade leaves every book as it was; it only opens an empty book for a ticker
/// not seen before.
pub proof fn lemma_trade_keeps_books(m: Map<Seq<char>, BookView>, e: Event)
    requires
        e is Trade,
    ensures
        books_after_event(m, e).dom() == m.dom().insert(e.spec_ticker()),
        forall|t: Seq<char>| #[trigger] m.contains_key(t) ==> books_after_event(m, e)[t] == m[t],
        !m.contains_key(e.spec_ticker()) ==> books_after_event(m, e)[e.spec_ticker()]
            == empty_book(),
{
    assert(books_after_event(m, e).dom() =~= m.dom().insert(e.spec_ticker()));
}

/// Law: what a trade fills is what it loses: over a trade's fills, the volume traded
/// grows by exactly the quantity taken from the trade; when the trade and the orders'
/// remaining quantities are not negative, what remains of the trade stays between zero
/// and its quantity.
pub proof fn lemma_fill_fold_conserves(v: EngineView, cands: Seq<ActiveOrder>, q: i64, ts: u64)
    requires
        fold_fits(v, cands, q, ts),
    ensures
        fill_fold(v, cands, q, ts).0.metrics.volume_traded == v.metrics.volume_traded + q
            - fill_fold(v, cands, q, ts).1,
        (q >= 0 && forall|i: int| 0 <= i < cands.len() ==> #[trigger] cands[i].remaining >= 0)
            ==> 0 <= fill_fold(v, cands, q, ts).1 <= q,
    decreases cands.len(),
{
    if cands.len() > 0 {
        let rest = cands.drop_last();
        assert forall|i: int| 0 <= i < rest.len() implies rest[i] == cands[i] by {}
        lemma_fill_fold_conserves(v, rest, q, ts);
    }
}

} // verus!
