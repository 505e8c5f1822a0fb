use crate::kalshi_types::{Fill, MarketData, OrderId, OrderInstr, Side};
use std::collections::HashMap;
use vstd::prelude::*;

verus! {

/// A call on a strategy, with what the strategy answered.
pub enum StrategyCall {
    /// `on_book` with the market data shown, and the instructions replied.
    Book { md: MarketData, reply: Seq<OrderInstr> },
    /// `on_fill` with a fill.
    Fill { fill: Fill },
    /// `on_orders_created` with (instruction position, order identifier) pairs.
    OrdersCreated { mappings: Seq<(usize, OrderId)> },
    /// `settle_final_positions` with the resolution prices, and the total reported.
    Settle { prices: Seq<u8>, reported: Option<i64> },
}

/// Trait for Kalshi trading strategies
pub trait KalshiStrategy {
    /// Whether a strategy in state `self`, called as `call` records (with what it
    /// answered), may be left in state `next`. Each strategy of this library states this
    /// of itself, and each of its methods keeps to it; a strategy that states nothing
    /// allows every answer.
    open spec fn answers(&self, call: StrategyCall, next: &Self) -> bool {
        true
    }

    /// Called when orderbook data is updated
    fn on_book(&mut self, md: &MarketData) -> (r: Vec<OrderInstr>)
        ensures
            old(self).answers(StrategyCall::Book { md: *md, reply: r@ }, final(self)),
    ;

    /// Called when an order is filled
    fn on_fill(&mut self, fill: &Fill)
        ensures
            old(self).answers(StrategyCall::Fill { fill: *fill }, final(self)),
    ;

    /// Called when orders are created by the engine to provide real order IDs
    /// The vector contains (instruction_index, assigned_order_id) pairs
    fn on_orders_created(&mut self, order_mappings: Vec<(usize, OrderId)>)
        ensures
            old(self).answers(
                StrategyCall::OrdersCreated { mappings: order_mappings@ },
                final(self),
            ),
    ;

    /// Called once at the end of a backtest with the resolution price of each market the
    /// backtest saw. A strategy that keeps its own profit account settles its remaining
    /// position at these prices and returns its total profit in cents; one that keeps no
    /// account returns `None`.
    fn settle_final_positions(&mut self, resolved_prices: &Vec<u8>) -> (r: Option<i64>)
        ensures
            old(self).answers(
                StrategyCall::Settle { prices: resolved_prices@, reported: r },
                final(self),
            ),
    ;
}

/// Whether `states` is a run of a strategy through the calls: one more state than calls,
/// and each call, answered as recorded, takes the strategy from one state to the next.
pub open spec fn chain<S: KalshiStrategy>(states: Seq<S>, calls: Seq<StrategyCall>) -> bool {
    &&& states.len() == calls.len() + 1
    &&& forall|i: int| 0 <= i < calls.len() ==> #[trigger] states[i].answers(calls[i], &states[i + 1])
}

/// Whether a strategy can go from state `s0` to state `s1` through the calls, in order,
/// each answered as recorded.
pub open spec fn follows<S: KalshiStrategy>(s0: S, calls: Seq<StrategyCall>, s1: S) -> bool {
    exists|states: Seq<S>| #[trigger] chain(states, calls) && states[0] == s0 && states.last() == s1
}

/// Whether a strategy went from state `s0` to state `s1` through the calls after the
/// first `n`.
pub open spec fn followed<S: KalshiStrategy>(s0: S, calls: Seq<StrategyCall>, n: int, s1: S) -> bool {
    0 <= n <= calls.len() && follows(s0, calls.skip(n), s1)
}

/// Whether a strategy's calls, going from calls `ca` and state `a` to calls `cb` and
/// state `b`, extend its record: whatever start led to `a` through `ca` leads to `b`
/// through `cb`.
pub open spec fn follow_extends<S: KalshiStrategy>(
    ca: Seq<StrategyCall>,
    a: S,
    cb: Seq<StrategyCall>,
    b: S,
) -> bool {
    forall|s0: S, n: int| #[trigger] followed(s0, ca, n, a) ==> followed(s0, cb, n, b)
}

/// A call answered as recorded extends a strategy's record.
pub proof fn lemma_follow_push<S: KalshiStrategy>(
    ca: Seq<StrategyCall>,
    a: S,
    cb: Seq<StrategyCall>,
    b: S,
    c: StrategyCall,
    d: S,
)
    requires
        follow_extends(ca, a, cb, b),
        b.answers(c, &d),
    ensures
        follow_extends(ca, a, cb.push(c), d),
{
    assert forall|s0: S, n: int| #[trigger] followed(s0, ca, n, a) implies followed(
        s0,
        cb.push(c),
        n,
        d,
    ) by {
        assert(followed(s0, cb, n, b));
        let calls = cb.skip(n);
        let states = choose|states: Seq<S>|
            #[trigger] chain(states, calls) && states[0] == s0 && states.last() == b;
        let more = states.push(d);
        assert(cb.push(c).skip(n) =~= calls.push(c));
        assert forall|i: int| 0 <= i < calls.len() + 1 implies #[trigger] more[i].answers(
            calls.push(c)[i],
            &more[i + 1],
        ) by {
            if i < calls.len() {
                assert(states[i].answers(calls[i], &states[i + 1]));
            }
        }
        assert(chain(more, calls.push(c)));
    }
}

/// Nothing called, nothing changed: the record extends itself.
pub proof fn lemma_follow_same<S: KalshiStrategy>(ca: Seq<StrategyCall>, a: S)
    ensures
        follow_extends(ca, a, ca, a),
{
}

/// A strategy follows the empty record from the start to the state it is in.
pub proof fn lemma_followed_start<S: KalshiStrategy>(calls: Seq<StrategyCall>, s: S)
    ensures
        followed(s, calls, calls.len() as int, s),
{
    assert(calls.skip(calls.len() as int) =~= Seq::<StrategyCall>::empty());
    assert(chain(seq![s], Seq::<StrategyCall>::empty()));
}

/// The smaller of two integers.
pub open spec fn min_int(a: int, b: int) -> int {
    if a <= b {
        a
    } else {
        b
    }
}

/// The larger of two integers.
pub open spec fn max_int(a: int, b: int) -> int {
    if a >= b {
        a
    } else {
        b
    }
}

/// Whether an integer fits in an `i64`.
pub open spec fn fits_i64(x: int) -> bool {
    i64::MIN <= x <= i64::MAX
}

/// The abstract state of a directional strategy.
pub struct DirectionalView {
    pub target_side: Side,
    pub target_quantity: i64,
    pub max_price: u8,
    pub current_position: i64,
    pub order_ttl_ms: u64,
    pub order_id_counter: u64,
}

impl DirectionalView {
    /// How far the position still is from the target, in the direction of the target side:
    /// a YES target is reached at a position of `target_quantity`, a NO target at a position
    /// of `-target_quantity` (NO contracts count negative).
    pub open spec fn position_needed(self) -> int {
        match self.target_side {
            Side::Yes => self.target_quantity - self.current_position,
            Side::No => self.target_quantity + self.current_position,
        }
    }

    /// The price the strategy is willing to pay: the ask for YES, the bid for NO, capped at
    /// the maximum price.
    pub open spec fn target_price(self, md: MarketData) -> u8 {
        match self.target_side {
            Side::Yes => if md.ask <= self.max_price {
                md.ask
            } else {
                self.max_price
            },
            Side::No => if md.bid <= self.max_price {
                md.bid
            } else {
                self.max_price
            },
        }
    }

    /// The orders for a book update: one limit order of at most 10 contracts toward the
    /// target, unless the target is reached or the price is extreme (at most 1 or at least 99).
    pub open spec fn orders(self, md: MarketData) -> Seq<OrderInstr> {
        if self.position_needed() <= 0 {
            Seq::empty()
        } else if self.target_price(md) <= 1 || self.target_price(md) >= 99 {
            Seq::empty()
        } else {
            seq![
                OrderInstr::Limit {
                    side: self.target_side,
                    price: self.target_price(md),
                    qty: min_int(self.position_needed(), 10) as i64,
                    ttl_ms: self.order_ttl_ms,
                },
            ]
        }
    }

    /// The position after a fill: fills below 50 cents add to it, others subtract from it.
    pub open spec fn position_after_fill(self, fill: Fill) -> int {
        if fill.price < 50 {
            self.current_position + fill.qty
        } else {
            self.current_position - fill.qty
        }
    }

    /// The state after a fill; a fill whose position would not fit an `i64` is ignored.
    pub open spec fn after_fill(self, fill: Fill) -> DirectionalView {
        if fits_i64(self.position_after_fill(fill)) {
            DirectionalView { current_position: self.position_after_fill(fill) as i64, ..self }
        } else {
            self
        }
    }
}

/// A simple directional strategy that bets on one side
#[derive(Debug)]
pub struct DirectionalStrategy {
    target_side: Side,
    target_quantity: i64,
    max_price: u8,
    current_position: i64,
    order_ttl_ms: u64,
    order_id_counter: u64,
}

impl View for DirectionalStrategy {
    type V = DirectionalView;

    closed spec fn view(&self) -> DirectionalView {
        DirectionalView {
            target_side: self.target_side,
            target_quantity: self.target_quantity,
            max_price: self.max_price,
            current_position: self.current_position,
            order_ttl_ms: self.order_ttl_ms,
            order_id_counter: self.order_id_counter,
        }
    }
}

impl DirectionalStrategy {
    pub fn new(target_side: Side, target_quantity: i64, max_price: u8) -> (r: Self)
        ensures
            r@ == (DirectionalView {
                target_side,
                target_quantity,
                max_price,
                current_position: 0,
                order_ttl_ms: 10_000,
                order_id_counter: 0,
            }),
    {
        DirectionalStrategy {
            target_side,
            target_quantity,
            max_price,
            current_position: 0,
            order_ttl_ms: 10_000,
            order_id_counter: 0,
        }
    }

    fn next_order_id(&mut self) -> (r: OrderId)
        requires
            old(self)@.order_id_counter < u64::MAX,
        ensures
            r == old(self)@.order_id_counter + 1,
            final(self)@ == (DirectionalView { order_id_counter: r, ..old(self)@ }),
    {
        self.order_id_counter = self.order_id_counter + 1;
        self.order_id_counter
    }
}

impl KalshiStrategy for DirectionalStrategy {
    /// The directional strategy orders toward its target, counts its fills and keeps no
    /// profit account.
    open spec fn answers(&self, call: StrategyCall, next: &Self) -> bool {
        match call {
            StrategyCall::Book { md, reply } => reply == self@.orders(md) && next@ == self@,
            StrategyCall::Fill { fill } => next@ == self@.after_fill(fill),
            StrategyCall::OrdersCreated { .. } => next@ == self@,
            StrategyCall::Settle { reported, .. } => reported is None && next@ == self@,
        }
    }

    fn on_book(&mut self, md: &MarketData) -> (r: Vec<OrderInstr>)
        ensures
            r@ == old(self)@.orders(*md),
            final(self)@ == old(self)@,
    {
        // Check if we already have the target position
        let position_needed: i128 = match self.target_side {
            Side::Yes => self.target_quantity as i128 - self.current_position as i128,
            Side::No => self.target_quantity as i128 + self.current_position as i128,
        };
        if position_needed <= 0 {
            return Vec::new();
        }
        // Determine the price we're willing to pay
        let target_price = match self.target_side {
            Side::Yes => if md.ask <= self.max_price {
                md.ask
            } else {
                self.max_price
            },
            Side::No => if md.bid <= self.max_price {
                md.bid
            } else {
                self.max_price
            },
        };
        // Don't place orders at extreme prices
        if target_price <= 1 || target_price >= 99 {
            return Vec::new();
        }
        // Limit order size to reasonable chunks
        let order_qty: i64 = if position_needed <= 10 {
            position_needed as i64
        } else {
            10
        };
        let mut r = Vec::new();
        r.push(
            OrderInstr::Limit {
                side: self.target_side,
                price: target_price,
                qty: order_qty,
                ttl_ms: self.order_ttl_ms,
            },
        );
        assert(r@ =~= old(self)@.orders(*md));
        r
    }

    fn on_orders_created(&mut self, order_mappings: Vec<(usize, OrderId)>)
        ensures
            final(self)@ == old(self)@,
    {
        // DirectionalStrategy doesn't need to track order IDs since it doesn't cancel orders
    }

    fn on_fill(&mut self, fill: &Fill)
        ensures
            final(self)@ == old(self)@.after_fill(*fill),
    {
        // Fill doesn't carry side info, so use a price-based heuristic
        let new_position: i128 = if fill.price < 50 {
            self.current_position as i128 + fill.qty as i128
        } else {
            self.current_position as i128 - fill.qty as i128
        };
        if i64::MIN as i128 <= new_position && new_position <= i64::MAX as i128 {
            self.current_position = new_position as i64;
        }
    }

    fn settle_final_positions(&mut self, resolved_prices: &Vec<u8>) -> (r: Option<i64>)
        ensures
            r is None,
            final(self)@ == old(self)@,
    {
        None
    }
}


/// Integer division rounded toward zero, for a positive divisor.
pub open spec fn trunc_div(a: int, b: int) -> int
    recommends
        b > 0,
{
    if a >= 0 {
        a / b
    } else {
        -((-a) / b)
    }
}

/// The absolute value of an integer.
pub open spec fn abs_int(a: int) -> int {
    if a >= 0 {
        a
    } else {
        -a
    }
}

/// The next identifier of a counter, wrapping around at `u64::MAX`.
pub open spec fn next_counter(c: u64) -> u64 {
    if c == u64::MAX {
        0
    } else {
        (c + 1) as u64
    }
}

/// One cancel instruction for each identifier, in order.
pub open spec fn cancels(ids: Seq<OrderId>) -> Seq<OrderInstr> {
    ids.map_values(|id: OrderId| OrderInstr::Cancel { id })
}

/// Position and profit accounting shared by the market-making strategies.
pub struct Accounting {
    pub position: i64,
    pub total_pnl_cents: i64,
    /// Average cost of the open position, rounded toward zero.
    pub avg_cost_basis_cents: i64,
    pub total_position_cost: i64,
}

/// The position change of a fill: `+qty` for a YES order, `-qty` for a NO order, and for an
/// order of unknown side `+qty` below 50 cents and `-qty` otherwise.
pub open spec fn fill_position_delta(side: Option<Side>, fill: Fill) -> int {
    match side {
        Some(Side::Yes) => fill.qty as int,
        Some(Side::No) => -fill.qty,
        None => if fill.price < 50 {
            fill.qty as int
        } else {
            -fill.qty
        },
    }
}

/// The exact accounting after a fill that moves the position by `delta` at `price`:
/// a fill that reduces an open position realizes the profit of the closed quantity against
/// the average cost and removes that quantity's cost; a fill that grows the position (or
/// opens one) adds its cost; the average cost is then the remaining cost per contract.
pub open spec fn accounting_after(a: Accounting, delta: int, price: u8) -> (int, int, int, int) {
    let pos = a.position as int;
    let avg = a.avg_cost_basis_cents as int;
    let increasing = pos * delta >= 0;
    let closed = abs_int(delta);
    let reducing = !increasing && pos != 0;
    let pnl1 = if reducing {
        a.total_pnl_cents + (if pos > 0 {
            price - avg
        } else {
            avg - price
        }) * closed
    } else {
        a.total_pnl_cents as int
    };
    let cost1 = if reducing {
        a.total_position_cost - avg * closed
    } else {
        a.total_position_cost as int
    };
    let pos2 = pos + delta;
    let cost2 = if increasing {
        cost1 + price * closed
    } else {
        cost1
    };
    let avg2 = if increasing && pos2 != 0 {
        trunc_div(cost2, abs_int(pos2))
    } else {
        avg
    };
    let (avg3, cost3) = if pos2 != 0 && cost2 > 0 {
        (trunc_div(cost2, abs_int(pos2)), cost2)
    } else if pos2 == 0 {
        (0int, 0int)
    } else {
        (avg2, cost2)
    };
    (pos2, pnl1, avg3, cost3)
}

/// Whether the accounting after a fill fits the `i64` state.
pub open spec fn accounting_fits(a: Accounting, delta: int, price: u8) -> bool {
    let (pos, pnl, avg, cost) = accounting_after(a, delta, price);
    fits_i64(pos) && fits_i64(pnl) && fits_i64(avg) && fits_i64(cost)
}

/// The accounting after a fill; when the result would not fit `i64`, the fill is not
/// booked.
pub open spec fn book_fill(a: Accounting, delta: int, price: u8) -> Accounting {
    if accounting_fits(a, delta, price) {
        let (pos, pnl, avg, cost) = accounting_after(a, delta, price);
        Accounting {
            position: pos as i64,
            total_pnl_cents: pnl as i64,
            avg_cost_basis_cents: avg as i64,
            total_position_cost: cost as i64,
        }
    } else {
        a
    }
}

/// Profit of settling the position at a resolution price: for a long position the price
/// above the average cost, for a short one the average cost above the price, times the
/// size of the position.
pub open spec fn settlement_pnl(a: Accounting, resolved_price: u8) -> int {
    if a.position == 0 {
        0
    } else if a.position > 0 {
        (resolved_price - a.avg_cost_basis_cents) * a.position
    } else {
        (a.avg_cost_basis_cents - resolved_price) * abs_int(a.position as int)
    }
}

/// Total profit including the unrealized profit of the open position at a market price.
pub open spec fn total_pnl_at(a: Accounting, market_price: Option<u8>) -> int {
    match market_price {
        Some(p) => a.total_pnl_cents + settlement_pnl(a, p),
        None => a.total_pnl_cents as int,
    }
}

/// Rounded-toward-zero division of an exact value by a positive one.
fn trunc_div_i128(a: i128, b: i128) -> (r: i128)
    requires
        b > 0,
        a > i128::MIN,
    ensures
        r == trunc_div(a as int, b as int),
{
    if a >= 0 {
        a / b
    } else {
        -((-a) / b)
    }
}

proof fn lemma_trunc_div_bound(a: int, b: int)
    requires
        b >= 1,
    ensures
        abs_int(trunc_div(a, b)) <= abs_int(a),
{
    if a >= 0 {
        assert(a / b <= a) by (nonlinear_arith)
            requires
                a >= 0,
                b >= 1,
        ;
        assert(a / b >= 0) by (nonlinear_arith)
            requires
                a >= 0,
                b >= 1,
        ;
    } else {
        let na = -a;
        assert(na / b <= na) by (nonlinear_arith)
            requires
                na >= 0,
                b >= 1,
        ;
        assert(na / b >= 0) by (nonlinear_arith)
            requires
                na >= 0,
                b >= 1,
        ;
    }
}

proof fn lemma_product_bound(x: int, y: int, bx: int, by: int)
    requires
        -bx <= x <= bx,
        0 <= y <= by,
    ensures
        -(bx * by) <= x * y <= bx * by,
{
    assert(-(bx * by) <= x * y <= bx * by) by (nonlinear_arith)
        requires
            -bx <= x <= bx,
            0 <= y <= by,
    ;
}

/// Compute the accounting after a fill exactly, and store it when it fits.
fn apply_accounting(
    position: &mut i64,
    total_pnl_cents: &mut i64,
    avg_cost_basis_cents: &mut i64,
    total_position_cost: &mut i64,
    delta: i128,
    price: u8,
)
    requires
        -0x8000_0000_0000_0000 <= delta <= 0x8000_0000_0000_0000,
    ensures
        ({
            let a = Accounting {
                position: *old(position),
                total_pnl_cents: *old(total_pnl_cents),
                avg_cost_basis_cents: *old(avg_cost_basis_cents),
                total_position_cost: *old(total_position_cost),
            };
            book_fill(a, delta as int, price) == (Accounting {
                position: *final(position),
                total_pnl_cents: *final(total_pnl_cents),
                avg_cost_basis_cents: *final(avg_cost_basis_cents),
                total_position_cost: *final(total_position_cost),
            })
        }),
{
    let ghost a = Accounting {
        position: *position,
        total_pnl_cents: *total_pnl_cents,
        avg_cost_basis_cents: *avg_cost_basis_cents,
        total_position_cost: *total_position_cost,
    };
    let pos = *position as i128;
    let avg = *avg_cost_basis_cents as i128;
    let bound: i128 = 0x8000_0000_0000_0000;
    proof {
        lemma_product_bound(pos as int, 0, bound as int, 0);
    }
    let increasing = if pos == 0 || delta == 0 {
        true
    } else {
        (pos > 0) == (delta > 0)
    };
    proof {
        if pos > 0 && delta > 0 {
            assert(pos * delta > 0) by (nonlinear_arith)
                requires
                    pos > 0,
                    delta > 0,
            ;
        } else if pos < 0 && delta < 0 {
            assert(pos * delta > 0) by (nonlinear_arith)
                requires
                    pos < 0,
                    delta < 0,
            ;
        } else if pos > 0 && delta < 0 {
            assert(pos * delta < 0) by (nonlinear_arith)
                requires
                    pos > 0,
                    delta < 0,
            ;
        } else if pos < 0 && delta > 0 {
            assert(pos * delta < 0) by (nonlinear_arith)
                requires
                    pos < 0,
                    delta > 0,
            ;
        } else {
            assert(pos * delta == 0) by (nonlinear_arith)
                requires
                    pos == 0 || delta == 0,
            ;
        }
        assert(increasing == (pos * delta >= 0));
    }
    let closed: i128 = if delta >= 0 {
        delta
    } else {
        -delta
    };
    let reducing = !increasing && pos != 0;
    let price_i = price as i128;
    let mut pnl = *total_pnl_cents as i128;
    let mut cost = *total_position_cost as i128;
    if reducing {
        let diff: i128 = if pos > 0 {
            price_i - avg
        } else {
            avg - price_i
        };
        proof {
            lemma_product_bound(diff as int, closed as int, bound + 255, bound as int);
            lemma_product_bound(avg as int, closed as int, bound as int, bound as int);
        }
        pnl = pnl + diff * closed;
        cost = cost - avg * closed;
    }
    let pos2 = pos + delta;
    if increasing {
        proof {
            lemma_product_bound(price_i as int, closed as int, 255, bound as int);
        }
        cost = cost + price_i * closed;
    }
    let abs_pos2: i128 = if pos2 >= 0 {
        pos2
    } else {
        -pos2
    };
    let mut new_avg = avg;
    if increasing && pos2 != 0 {
        new_avg = trunc_div_i128(cost, abs_pos2);
    }
    let mut new_cost = cost;
    if pos2 != 0 && cost > 0 {
        new_avg = trunc_div_i128(cost, abs_pos2);
    } else if pos2 == 0 {
        new_avg = 0;
        new_cost = 0;
    }
    proof {
        if pos2 != 0 {
            lemma_trunc_div_bound(cost as int, abs_pos2 as int);
        }
    }
    assert(accounting_after(a, delta as int, price) == (
        pos2 as int,
        pnl as int,
        new_avg as int,
        new_cost as int,
    ));
    let lo = i64::MIN as i128;
    let hi = i64::MAX as i128;
    if lo <= pos2 && pos2 <= hi && lo <= pnl && pnl <= hi && lo <= new_avg && new_avg <= hi && lo
        <= new_cost && new_cost <= hi {
        *position = pos2 as i64;
        *total_pnl_cents = pnl as i64;
        *avg_cost_basis_cents = new_avg as i64;
        *total_position_cost = new_cost as i64;
    }
}


/// Parameters for the spread market making strategy
#[derive(Debug, Clone, Copy, PartialEq, Eq)]
pub struct SpreadMmParams {
    pub min_spread: u8,
    pub max_position: i64,
    pub quote_quantity: i64,
    /// Lifetime of each quote, in milliseconds.
    pub order_ttl_ms: u64,
}

impl Default for SpreadMmParams {
    fn default() -> (r: Self)
        ensures
            r == (SpreadMmParams {
                min_spread: 4,
                max_position: 100,
                quote_quantity: 50,
                order_ttl_ms: 5000,
            }),
    {
        SpreadMmParams { min_spread: 4, max_position: 100, quote_quantity: 50, order_ttl_ms: 5000 }
    }
}

/// `a - b`, or 0 when `b > a`.
pub open spec fn sat_sub(a: u8, b: u8) -> u8 {
    if a >= b {
        (a - b) as u8
    } else {
        0
    }
}

/// Quotes one cent inside the market, or none when the market is uninitialized
/// (bid 0 or ask 100), wider than 20 cents, at an extreme (bid at least 99 or ask at
/// most 1), narrower than the minimum spread, or when the inside quotes would sit at
/// an extreme or cross.
pub open spec fn spread_quotes(params: SpreadMmParams, bid: u8, ask: u8) -> Option<(u8, u8)> {
    let spread = sat_sub(ask, bid);
    if bid == 0 || ask == 100 {
        None
    } else if spread > 20 {
        None
    } else if bid >= 99 || ask <= 1 {
        None
    } else if spread < params.min_spread {
        None
    } else if bid + 1 >= 99 {
        None
    } else if ask - 1 <= 1 {
        None
    } else if sat_sub((ask - 1) as u8, (bid + 1) as u8) < 1 {
        None
    } else {
        Some(((bid + 1) as u8, (ask - 1) as u8))
    }
}

/// Whether the position limit allows quoting a side: YES while below the maximum
/// position, NO while above its negative.
pub open spec fn may_quote(position: i64, max_position: i64, side: Side) -> bool {
    match side {
        Side::Yes => position < max_position,
        Side::No => position > -max_position,
    }
}

/// The quote size: the base quantity capped by the remaining capacity on that side, and
/// never negative.
pub open spec fn capped_quantity(position: i64, max_position: i64, base: i64, side: Side) -> int {
    let capacity = match side {
        Side::Yes => max_position - position,
        Side::No => position + max_position,
    };
    max_int(min_int(base as int, capacity), 0)
}

/// The capped quote size, computed exactly.
fn capped_quantity_exec(position: i64, max_position: i64, base: i64, side: Side) -> (r: i64)
    ensures
        r == capped_quantity(position, max_position, base, side),
{
    let capacity: i128 = match side {
        Side::Yes => max_position as i128 - position as i128,
        Side::No => position as i128 + max_position as i128,
    };
    let m: i128 = if (base as i128) <= capacity {
        base as i128
    } else {
        capacity
    };
    if m >= 0 {
        m as i64
    } else {
        0
    }
}

/// Whether a side may be quoted under the position limit, computed exactly.
fn may_quote_exec(position: i64, max_position: i64, side: Side) -> (r: bool)
    ensures
        r == may_quote(position, max_position, side),
{
    match side {
        Side::Yes => position < max_position,
        Side::No => (position as i128) > -(max_position as i128),
    }
}

/// The abstract state of a spread market maker.
pub struct SpreadMmView {
    pub params: SpreadMmParams,
    pub accounting: Accounting,
    pub active_orders: Seq<OrderId>,
    pub last_ticker: Option<Seq<char>>,
    pub order_id_counter: u64,
    pub order_side_map: Map<OrderId, Side>,
}

impl SpreadMmView {
    /// The state after cancelling every tracked order.
    pub open spec fn cleared(self) -> SpreadMmView {
        SpreadMmView { active_orders: Seq::empty(), ..self }
    }

    /// The state after recording a new quote on `side`, under the next identifier.
    pub open spec fn with_quote(self, side: Side) -> SpreadMmView {
        let id = next_counter(self.order_id_counter);
        SpreadMmView {
            order_id_counter: id,
            active_orders: self.active_orders.push(id),
            order_side_map: self.order_side_map.insert(id, side),
            ..self
        }
    }

    /// The quote on one side at `price`, if the position limit allows a positive size.
    pub open spec fn side_quote(self, side: Side, price: u8) -> Option<OrderInstr> {
        let qty = capped_quantity(
            self.accounting.position,
            self.params.max_position,
            self.params.quote_quantity,
            side,
        );
        if may_quote(self.accounting.position, self.params.max_position, side) && qty > 0 {
            Some(OrderInstr::Limit { side, price, qty: qty as i64, ttl_ms: self.params.order_ttl_ms })
        } else {
            None
        }
    }

    /// The state and instructions of one book update: a new ticker first cancels every
    /// tracked order; without quotes every tracked order is cancelled; otherwise a YES bid
    /// and a NO ask are placed one cent inside the market, each when the position limit
    /// allows it.
    pub open spec fn on_book(self, md: MarketData) -> (SpreadMmView, Seq<OrderInstr>) {
        let ticker_changed = self.last_ticker != Some(md.ticker@);
        let v1 = if ticker_changed {
            SpreadMmView { last_ticker: Some(md.ticker@), ..self.cleared() }
        } else {
            self
        };
        let i1 = if ticker_changed {
            cancels(self.active_orders)
        } else {
            Seq::empty()
        };
        match spread_quotes(self.params, md.bid, md.ask) {
            None => (v1.cleared(), i1 + cancels(v1.active_orders)),
            Some((our_bid, our_ask)) => {
                let (v2, i2) = match v1.side_quote(Side::Yes, our_bid) {
                    Some(o) => (v1.with_quote(Side::Yes), i1.push(o)),
                    None => (v1, i1),
                };
                match v2.side_quote(Side::No, our_ask) {
                    Some(o) => (v2.with_quote(Side::No), i2.push(o)),
                    None => (v2, i2),
                }
            },
        }
    }

    /// The state after a fill: the order stops being tracked, and the fill is booked with
    /// the side the order was placed on.
    pub open spec fn on_fill(self, fill: Fill) -> SpreadMmView {
        let side = if self.order_side_map.contains_key(fill.id) {
            Some(self.order_side_map[fill.id])
        } else {
            None
        };
        SpreadMmView {
            active_orders: self.active_orders.filter(|id: OrderId| id != fill.id),
            order_side_map: self.order_side_map.remove(fill.id),
            accounting: book_fill(self.accounting, fill_position_delta(side, fill), fill.price),
            ..self
        }
    }
}

/// A spread-based market making strategy
#[derive(Debug)]
pub struct SpreadMmStrategy {
    params: SpreadMmParams,
    /// Net YES position (+ve = long YES, -ve = short YES)
    position: i64,
    active_orders: Vec<OrderId>,
    last_ticker: Option<String>,
    order_id_counter: u64,
    /// Running total of round-trip PnL
    total_pnl_cents: i64,
    /// Track which side each order is on
    order_side_map: HashMap<OrderId, Side>,
    /// Average cost of the position, rounded toward zero
    avg_cost_basis_cents: i64,
    /// Total cost of current position
    total_position_cost: i64,
}

/// The view of an optional ticker.
pub open spec fn ticker_view(t: Option<String>) -> Option<Seq<char>> {
    match t {
        Some(s) => Some(s@),
        None => None,
    }
}

impl View for SpreadMmStrategy {
    type V = SpreadMmView;

    closed spec fn view(&self) -> SpreadMmView {
        SpreadMmView {
            params: self.params,
            accounting: Accounting {
                position: self.position,
                total_pnl_cents: self.total_pnl_cents,
                avg_cost_basis_cents: self.avg_cost_basis_cents,
                total_position_cost: self.total_position_cost,
            },
            active_orders: self.active_orders@,
            last_ticker: ticker_view(self.last_ticker),
            order_id_counter: self.order_id_counter,
            order_side_map: self.order_side_map@,
        }
    }
}

/// The quotes of a spread market maker, computed as `spread_quotes` states.
fn spread_quotes_exec(params: &SpreadMmParams, market_bid: u8, market_ask: u8) -> (r: Option<
    (u8, u8),
>)
    ensures
        r == spread_quotes(*params, market_bid, market_ask),
{
    // Don't make markets in uninitialized/fake conditions
    if market_bid == 0 || market_ask == 100 {
        return None;
    }
    // Don't make markets when spread is unrealistically wide (>20 cents)
    let spread = if market_ask >= market_bid {
        market_ask - market_bid
    } else {
        0
    };
    if spread > 20 {
        return None;
    }
    // Don't make markets at extreme prices - only allow exits
    if market_bid >= 99 || market_ask <= 1 {
        return None;
    }
    // Only quote if market spread is wide enough
    if spread < params.min_spread {
        return None;
    }
    // Calculate our quotes inside the current market
    let our_bid = market_bid + 1;
    let our_ask = market_ask - 1;
    // Don't place bids that could get filled at extreme prices
    if our_bid >= 99 {
        return None;
    }
    // Don't place asks that could get filled at extreme prices
    if our_ask <= 1 {
        return None;
    }
    // Ensure our internal quotes maintain at least 1 cent spread
    let inner = if our_ask >= our_bid {
        our_ask - our_bid
    } else {
        0
    };
    if inner < 1 {
        return None;
    }
    Some((our_bid, our_ask))
}

/// One cancel instruction per identifier.
fn cancel_instructions(ids: &Vec<OrderId>) -> (r: Vec<OrderInstr>)
    ensures
        r@ == cancels(ids@),
{
    let mut r: Vec<OrderInstr> = Vec::new();
    let mut i: usize = 0;
    while i < ids.len()
        invariant
            0 <= i <= ids.len(),
            r@ == cancels(ids@.take(i as int)),
        decreases ids.len() - i,
    {
        r.push(OrderInstr::Cancel { id: ids[i] });
        assert(cancels(ids@.take(i + 1)) =~= cancels(ids@.take(i as int)).push(
            OrderInstr::Cancel { id: ids@[i as int] },
        ));
        i = i + 1;
    }
    assert(ids@.take(ids.len() as int) =~= ids@);
    r
}

/// The identifiers other than `id`, in order.
fn without_id(ids: &Vec<OrderId>, id: OrderId) -> (r: Vec<OrderId>)
    ensures
        r@ == ids@.filter(|x: OrderId| x != id),
{
    let mut r: Vec<OrderId> = Vec::new();
    let mut i: usize = 0;
    while i < ids.len()
        invariant
            0 <= i <= ids.len(),
            r@ == ids@.take(i as int).filter(|x: OrderId| x != id),
        decreases ids.len() - i,
    {
        let x = ids[i];
        proof {
            reveal_with_fuel(Seq::filter, 1);
            assert(ids@.take(i + 1).drop_last() =~= ids@.take(i as int));
        }
        if x != id {
            r.push(x);
        }
        i = i + 1;
    }
    assert(ids@.take(ids.len() as int) =~= ids@);
    r
}

/// Whether the optional ticker differs from `ticker`.
fn ticker_differs(last: &Option<String>, ticker: &String) -> (r: bool)
    ensures
        r == (ticker_view(*last) != Some(ticker@)),
{
    match last {
        Some(t) => !(*t == *ticker),
        None => true,
    }
}

impl SpreadMmStrategy {
    pub fn new(params: SpreadMmParams) -> (r: Self)
        ensures
            r@ == (SpreadMmView {
                params,
                accounting: Accounting {
                    position: 0,
                    total_pnl_cents: 0,
                    avg_cost_basis_cents: 0,
                    total_position_cost: 0,
                },
                active_orders: Seq::empty(),
                last_ticker: None,
                order_id_counter: 0,
                order_side_map: Map::empty(),
            }),
    {
        SpreadMmStrategy {
            params,
            position: 0,
            active_orders: Vec::new(),
            last_ticker: None,
            order_id_counter: 0,
            total_pnl_cents: 0,
            order_side_map: HashMap::new(),
            avg_cost_basis_cents: 0,
            total_position_cost: 0,
        }
    }

    fn next_order_id(&mut self) -> (r: OrderId)
        ensures
            r == next_counter(old(self)@.order_id_counter),
            final(self)@ == (SpreadMmView { order_id_counter: r, ..old(self)@ }),
    {
        self.order_id_counter = if self.order_id_counter == u64::MAX {
            0
        } else {
            self.order_id_counter + 1
        };
        self.order_id_counter
    }

    /// Cancel all active orders
    fn cancel_all_orders(&mut self) -> (r: Vec<OrderInstr>)
        ensures
            r@ == cancels(old(self)@.active_orders),
            final(self)@ == old(self)@.cleared(),
    {
        let cancel_orders = cancel_instructions(&self.active_orders);
        self.active_orders.clear();
        cancel_orders
    }

    /// Place a quote on `side` at `price` when the position limit allows it.
    fn quote_side(&mut self, side: Side, price: u8, instructions: &mut Vec<OrderInstr>)
        ensures
            match old(self)@.side_quote(side, price) {
                Some(o) => final(self)@ == old(self)@.with_quote(side) && final(instructions)@
                    == old(instructions)@.push(o),
                None => final(self)@ == old(self)@ && final(instructions)@ == old(instructions)@,
            },
    {
        if may_quote_exec(self.position, self.params.max_position, side) {
            let qty = capped_quantity_exec(
                self.position,
                self.params.max_position,
                self.params.quote_quantity,
                side,
            );
            if qty > 0 {
                let order_id = self.next_order_id();
                self.active_orders.push(order_id);
                self.order_side_map.insert(order_id, side);
                instructions.push(
                    OrderInstr::Limit { side, price, qty, ttl_ms: self.params.order_ttl_ms },
                );
            }
        }
    }

    /// Get the current PnL including unrealized PnL at given market price
    pub fn get_total_pnl_cents(&self, current_market_price: Option<u8>) -> (r: i64)
        requires
            fits_i64(total_pnl_at(self@.accounting, current_market_price)),
        ensures
            r == total_pnl_at(self@.accounting, current_market_price),
    {
        pnl_with_unrealized(
            self.total_pnl_cents,
            self.position,
            self.avg_cost_basis_cents,
            current_market_price,
        )
    }

    /// Settle final position based on market resolution: the position is closed at the
    /// resolution price, its profit added to the total and returned.
    pub fn settle_final_position(&mut self, market_resolved_price: u8) -> (r: i64)
        requires
            fits_i64(settlement_pnl(old(self)@.accounting, market_resolved_price)),
            fits_i64(old(self)@.accounting.total_pnl_cents + settlement_pnl(
                old(self)@.accounting,
                market_resolved_price,
            )),
        ensures
            r == settlement_pnl(old(self)@.accounting, market_resolved_price),
            final(self)@ == old(self)@.settled(market_resolved_price),
    {
        if self.position == 0 {
            return 0;
        }
        let pnl = settlement_of(self.position, self.avg_cost_basis_cents, market_resolved_price);
        self.total_pnl_cents = self.total_pnl_cents + pnl;
        // Clear position
        self.position = 0;
        self.avg_cost_basis_cents = 0;
        self.total_position_cost = 0;
        pnl
    }
}

/// Settlement profit of a non-zero position, computed exactly.
fn settlement_of(position: i64, avg: i64, price: u8) -> (r: i64)
    requires
        position != 0,
        fits_i64(
            settlement_pnl(
                Accounting {
                    position,
                    total_pnl_cents: 0,
                    avg_cost_basis_cents: avg,
                    total_position_cost: 0,
                },
                price,
            ),
        ),
    ensures
        r == settlement_pnl(
            Accounting { position, total_pnl_cents: 0, avg_cost_basis_cents: avg, total_position_cost: 0 },
            price,
        ),
{
    let p = position as i128;
    let a = avg as i128;
    let pr = price as i128;
    proof {
        lemma_product_bound(
            (pr - a) as int,
            abs_int(p as int),
            0x8000_0000_0000_00ff,
            0x8000_0000_0000_0000,
        );
    }
    let v: i128 = if p > 0 {
        (pr - a) * p
    } else {
        (a - pr) * (-p)
    };
    v as i64
}

/// Total profit plus the unrealized profit of the position at an optional market price.
fn pnl_with_unrealized(total: i64, position: i64, avg: i64, market: Option<u8>) -> (r: i64)
    requires
        fits_i64(
            total_pnl_at(
                Accounting {
                    position,
                    total_pnl_cents: total,
                    avg_cost_basis_cents: avg,
                    total_position_cost: 0,
                },
                market,
            ),
        ),
    ensures
        r == total_pnl_at(
            Accounting {
                position,
                total_pnl_cents: total,
                avg_cost_basis_cents: avg,
                total_position_cost: 0,
            },
            market,
        ),
{
    match market {
        Some(price) => {
            if position == 0 {
                total
            } else {
                let p = position as i128;
                let a = avg as i128;
                let pr = price as i128;
                proof {
                    lemma_product_bound(
                        (pr - a) as int,
                        abs_int(p as int),
                        0x8000_0000_0000_00ff,
                        0x8000_0000_0000_0000,
                    );
                }
                let v: i128 = if p > 0 {
                    (pr - a) * p
                } else {
                    (a - pr) * (-p)
                };
                (total as i128 + v) as i64
            }
        },
        None => total,
    }
}

impl SpreadMmView {
    /// The state after settling the position at a resolution price.
    pub open spec fn settled(self, resolved_price: u8) -> SpreadMmView {
        if self.accounting.position == 0 {
            self
        } else {
            SpreadMmView {
                accounting: Accounting {
                    position: 0,
                    total_pnl_cents: (self.accounting.total_pnl_cents + settlement_pnl(
                        self.accounting,
                        resolved_price,
                    )) as i64,
                    avg_cost_basis_cents: 0,
                    total_position_cost: 0,
                },
                ..self
            }
        }
    }

    /// Whether settling at a resolution price fits the `i64` state.
    pub open spec fn settles_within_range(self, resolved_price: u8) -> bool {
        fits_i64(settlement_pnl(self.accounting, resolved_price)) && fits_i64(
            self.accounting.total_pnl_cents + settlement_pnl(self.accounting, resolved_price),
        )
    }

    /// Settle at each resolution price in order; a settlement that would not fit the
    /// `i64` state is skipped.
    pub open spec fn settled_all(self, prices: Seq<u8>) -> SpreadMmView
        decreases prices.len(),
    {
        if prices.len() == 0 {
            self
        } else {
            let v = self.settled_all(prices.drop_last());
            if v.settles_within_range(prices.last()) {
                v.settled(prices.last())
            } else {
                v
            }
        }
    }
}

impl KalshiStrategy for SpreadMmStrategy {
    /// The spread market maker quotes inside the market, books its fills, ignores order
    /// identifiers and settles its position at the resolution prices.
    open spec fn answers(&self, call: StrategyCall, next: &Self) -> bool {
        match call {
            StrategyCall::Book { md, reply } => (next@, reply) == self@.on_book(md),
            StrategyCall::Fill { fill } => next@ == self@.on_fill(fill),
            StrategyCall::OrdersCreated { .. } => next@ == self@,
            StrategyCall::Settle { prices, reported } => next@ == self@.settled_all(prices)
                && reported == Some(next@.accounting.total_pnl_cents),
        }
    }

    fn on_book(&mut self, md: &MarketData) -> (r: Vec<OrderInstr>)
        ensures
            (final(self)@, r@) == old(self)@.on_book(*md),
    {
        let mut instructions: Vec<OrderInstr> = Vec::new();
        // Cancel existing orders if ticker changed
        if ticker_differs(&self.last_ticker, &md.ticker) {
            let mut c = self.cancel_all_orders();
            instructions.append(&mut c);
            self.last_ticker = Some(md.ticker.clone());
        }
        let ghost v1 = self@;
        let ghost i1 = instructions@;
        // Calculate optimal quotes
        let quotes = match spread_quotes_exec(&self.params, md.bid, md.ask) {
            Some(quotes) => quotes,
            None => {
                // Cancel all orders if we can't quote profitably
                let mut c = self.cancel_all_orders();
                instructions.append(&mut c);
                return instructions;
            },
        };
        let (our_bid, our_ask) = quotes;
        // Place bid order (buying YES)
        self.quote_side(Side::Yes, our_bid, &mut instructions);
        // Place ask order (buying NO, i.e., selling YES)
        self.quote_side(Side::No, our_ask, &mut instructions);
        instructions
    }

    fn on_orders_created(&mut self, order_mappings: Vec<(usize, OrderId)>)
        ensures
            final(self)@ == old(self)@,
    {
        // SpreadMmStrategy doesn't need to track individual order IDs for cancellation
        // since it uses TTL-based expiration rather than explicit cancellation
    }

    fn on_fill(&mut self, fill: &Fill)
        ensures
            final(self)@ == old(self)@.on_fill(*fill),
    {
        // Remove filled order from active orders
        self.active_orders = without_id(&self.active_orders, fill.id);
        // Get the side this order was on
        let order_side = self.order_side_map.remove(&fill.id);
        let qty = fill.qty as i128;
        let delta: i128 = match order_side {
            Some(Side::Yes) => qty,
            Some(Side::No) => -qty,
            None => if fill.price < 50 {
                qty
            } else {
                -qty
            },
        };
        apply_accounting(
            &mut self.position,
            &mut self.total_pnl_cents,
            &mut self.avg_cost_basis_cents,
            &mut self.total_position_cost,
            delta,
            fill.price,
        );
    }

    fn settle_final_positions(&mut self, resolved_prices: &Vec<u8>) -> (r: Option<i64>)
        ensures
            final(self)@ == old(self)@.settled_all(resolved_prices@),
            r == Some(final(self)@.accounting.total_pnl_cents),
    {
        let mut i: usize = 0;
        while i < resolved_prices.len()
            invariant
                0 <= i <= resolved_prices.len(),
                self@ == old(self)@.settled_all(resolved_prices@.take(i as int)),
            decreases resolved_prices.len() - i,
        {
            let price = resolved_prices[i];
            proof {
                assert(resolved_prices@.take(i + 1).drop_last() =~= resolved_prices@.take(
                    i as int,
                ));
            }
            if self.position == 0 || settlement_fits(
                self.total_pnl_cents,
                self.position,
                self.avg_cost_basis_cents,
                price,
            ) {
                self.settle_final_position(price);
            }
            i = i + 1;
        }
        assert(resolved_prices@.take(resolved_prices.len() as int) =~= resolved_prices@);
        Some(self.total_pnl_cents)
    }
}

/// Whether settling a non-zero position at a price fits the `i64` state.
fn settlement_fits(total: i64, position: i64, avg: i64, price: u8) -> (r: bool)
    requires
        position != 0,
    ensures
        r == ({
            let a = Accounting {
                position,
                total_pnl_cents: total,
                avg_cost_basis_cents: avg,
                total_position_cost: 0,
            };
            fits_i64(settlement_pnl(a, price)) && fits_i64(total + settlement_pnl(a, price))
        }),
{
    let p = position as i128;
    let a = avg as i128;
    let pr = price as i128;
    proof {
        lemma_product_bound(
            (pr - a) as int,
            abs_int(p as int),
            0x8000_0000_0000_00ff,
            0x8000_0000_0000_0000,
        );
    }
    proof {
        lemma_product_bound(
            (a - pr) as int,
            abs_int(p as int),
            0x8000_0000_0000_00ff,
            0x8000_0000_0000_0000,
        );
    }
    let v: i128 = if p > 0 {
        (pr - a) * p
    } else {
        (a - pr) * (-p)
    };
    let lo = i64::MIN as i128;
    let hi = i64::MAX as i128;
    lo <= v && v <= hi && lo <= total as i128 + v && total as i128 + v <= hi
}


/// Parameters for the trailing market making strategy
#[derive(Debug, Clone, Copy, PartialEq, Eq)]
pub struct TrailingMmParams {
    /// Only trail when spread >= this
    pub min_spread_for_trailing: u8,
    /// How many cents outside best bid/ask
    pub trail_distance: u8,
    pub max_position: i64,
    pub quote_quantity: i64,
    /// Lifetime of each quote, in milliseconds.
    pub order_ttl_ms: u64,
    /// Cancel/replace if market moves this much
    pub min_move_for_replace: u8,
}

impl Default for TrailingMmParams {
    fn default() -> (r: Self)
        ensures
            r == (TrailingMmParams {
                min_spread_for_trailing: 3,
                trail_distance: 2,
                max_position: 100,
                quote_quantity: 30,
                order_ttl_ms: 3000,
                min_move_for_replace: 1,
            }),
    {
        TrailingMmParams {
            min_spread_for_trailing: 3,
            trail_distance: 2,
            max_position: 100,
            // Smaller default size for this riskier strategy
            quote_quantity: 30,
            // Shorter TTL for quicker reactions
            order_ttl_ms: 3000,
            // Replace if bid/ask moves 1 cent
            min_move_for_replace: 1,
        }
    }
}

/// `a + b`, or 255 when the sum does not fit a `u8`.
pub open spec fn sat_add(a: u8, b: u8) -> u8 {
    if a + b <= 255 {
        (a + b) as u8
    } else {
        255
    }
}

/// The distance between two prices.
pub open spec fn abs_diff(a: u8, b: u8) -> u8 {
    if a >= b {
        (a - b) as u8
    } else {
        (b - a) as u8
    }
}

/// Quotes `trail_distance` cents outside the market, or none when the market is
/// uninitialized, narrower than the trailing threshold, or when the quotes would sit at
/// an extreme (bid at most 1, ask at least 99) or fail to lie strictly outside the market.
pub open spec fn trailing_quotes(params: TrailingMmParams, bid: u8, ask: u8) -> Option<(u8, u8)> {
    let spread = sat_sub(ask, bid);
    let our_bid = sat_sub(bid, params.trail_distance);
    let our_ask = sat_add(ask, params.trail_distance);
    if bid == 0 || ask == 100 {
        None
    } else if spread < params.min_spread_for_trailing {
        None
    } else if our_bid <= 1 || our_ask >= 99 {
        None
    } else if our_bid >= bid {
        None
    } else if our_ask <= ask {
        None
    } else {
        Some((our_bid, our_ask))
    }
}

/// The smallest worthwhile quote: 5% of the base quantity (rounded toward zero), and at
/// least 5.
pub open spec fn min_quote_quantity(base: i64) -> int {
    max_int(trunc_div(base as int, 20), 5)
}

/// The trailing quote size: the capped size, or 0 when below the smallest worthwhile quote.
pub open spec fn trailing_quantity(position: i64, max_position: i64, base: i64, side: Side) -> int {
    let qty = capped_quantity(position, max_position, base, side);
    if qty < min_quote_quantity(base) {
        0
    } else {
        qty
    }
}

/// The own identifier of the first waiting quote placed as instruction `idx`.
pub open spec fn quote_at(pending: Seq<(usize, OrderId)>, idx: usize) -> Option<OrderId>
    decreases pending.len(),
{
    if pending.len() == 0 {
        None
    } else if pending[0].0 == idx {
        Some(pending[0].1)
    } else {
        quote_at(pending.drop_first(), idx)
    }
}

/// The abstract state of a trailing market maker.
pub struct TrailingMmView {
    pub params: TrailingMmParams,
    pub accounting: Accounting,
    pub active_orders: Seq<OrderId>,
    pub last_ticker: Option<Seq<char>>,
    pub order_id_counter: u64,
    pub last_bid: Option<u8>,
    pub last_ask: Option<u8>,
    pub last_bid_order_price: Option<u8>,
    pub last_ask_order_price: Option<u8>,
    pub pending_quotes: Seq<(usize, OrderId)>,
    pub order_side_map: Map<OrderId, Side>,
}

impl TrailingMmView {
    /// A strategy with no orders, no market history and no profit, holding `position`.
    pub open spec fn fresh(params: TrailingMmParams, position: i64) -> TrailingMmView {
        TrailingMmView {
            params,
            accounting: Accounting {
                position,
                total_pnl_cents: 0,
                avg_cost_basis_cents: 0,
                total_position_cost: 0,
            },
            active_orders: Seq::empty(),
            last_ticker: None,
            order_id_counter: 0,
            last_bid: None,
            last_ask: None,
            last_bid_order_price: None,
            last_ask_order_price: None,
            pending_quotes: Seq::empty(),
            order_side_map: Map::empty(),
        }
    }

    /// The state after cancelling every tracked order.
    pub open spec fn cleared(self) -> TrailingMmView {
        TrailingMmView {
            active_orders: Seq::empty(),
            order_side_map: Map::empty(),
            pending_quotes: Seq::empty(),
            last_bid_order_price: None,
            last_ask_order_price: None,
            ..self
        }
    }

    /// Whether the market moved enough since the last update to replace the quotes.
    pub open spec fn should_replace(self, bid: u8, ask: u8) -> bool {
        match (self.last_bid, self.last_ask) {
            (Some(lb), Some(la)) => abs_diff(bid, lb) >= self.params.min_move_for_replace
                || abs_diff(ask, la) >= self.params.min_move_for_replace,
            _ => true,
        }
    }

    /// The quote on one side at `price`, if the position limit allows a worthwhile size.
    pub open spec fn side_quote(self, side: Side, price: u8) -> Option<OrderInstr> {
        let qty = trailing_quantity(
            self.accounting.position,
            self.params.max_position,
            self.params.quote_quantity,
            side,
        );
        if may_quote(self.accounting.position, self.params.max_position, side) && qty > 0 {
            Some(OrderInstr::Limit { side, price, qty: qty as i64, ttl_ms: self.params.order_ttl_ms })
        } else {
            None
        }
    }

    /// The state after placing a quote on `side` at `price` as instruction `idx`: it is
    /// tracked under the next own identifier until the engine reports its identifier.
    pub open spec fn with_quote(self, side: Side, price: u8, idx: usize) -> TrailingMmView {
        let id = next_counter(self.order_id_counter);
        let v = TrailingMmView {
            order_id_counter: id,
            active_orders: self.active_orders.push(id),
            order_side_map: self.order_side_map.insert(id, side),
            pending_quotes: self.pending_quotes.push((idx, id)),
            ..self
        };
        match side {
            Side::Yes => TrailingMmView { last_bid_order_price: Some(price), ..v },
            Side::No => TrailingMmView { last_ask_order_price: Some(price), ..v },
        }
    }

    /// The state and instructions of one book update: a new ticker cancels every tracked
    /// order; a market move that calls for replacement cancels them too; without trailing
    /// quotes every tracked order is cancelled; otherwise a side is quoted when its quote
    /// price changed or nothing is tracked, and the position limit allows it.
    pub open spec fn on_book(self, md: MarketData) -> (TrailingMmView, Seq<OrderInstr>) {
        let ticker_changed = self.last_ticker != Some(md.ticker@);
        let v1 = if ticker_changed {
            TrailingMmView { last_ticker: Some(md.ticker@), ..self.cleared() }
        } else {
            self
        };
        let i1 = if ticker_changed {
            cancels(self.active_orders)
        } else {
            Seq::empty()
        };
        let replace = v1.should_replace(md.bid, md.ask) && v1.active_orders.len() > 0;
        let v2 = if replace {
            v1.cleared()
        } else {
            v1
        };
        let i2 = if replace {
            i1 + cancels(v1.active_orders)
        } else {
            i1
        };
        match trailing_quotes(self.params, md.bid, md.ask) {
            None => (
                TrailingMmView { last_bid: Some(md.bid), last_ask: Some(md.ask), ..v2.cleared() },
                i2 + cancels(v2.active_orders),
            ),
            Some((our_bid, our_ask)) => {
                let nothing_tracked = v2.active_orders.len() == 0;
                let bid_changed = v2.last_bid_order_price != Some(our_bid);
                let ask_changed = v2.last_ask_order_price != Some(our_ask);
                let (v3, i3) = match v2.side_quote(Side::Yes, our_bid) {
                    Some(o) => if bid_changed || nothing_tracked {
                        (v2.with_quote(Side::Yes, our_bid, i2.len() as usize), i2.push(o))
                    } else {
                        (v2, i2)
                    },
                    None => (v2, i2),
                };
                let (v4, i4) = match v3.side_quote(Side::No, our_ask) {
                    Some(o) => if ask_changed || nothing_tracked {
                        (v3.with_quote(Side::No, our_ask, i3.len() as usize), i3.push(o))
                    } else {
                        (v3, i3)
                    },
                    None => (v3, i3),
                };
                (TrailingMmView { last_bid: Some(md.bid), last_ask: Some(md.ask), ..v4 }, i4)
            },
        }
    }

    /// The state after the engine reports identifiers: each `(index, id)` whose index is
    /// the instruction index of a waiting quote tracks that quote under `id` in place of its
    /// own identifier; then nothing waits.
    pub open spec fn orders_created(self, mappings: Seq<(usize, OrderId)>) -> TrailingMmView {
        TrailingMmView { pending_quotes: Seq::empty(), ..self.track_created(mappings) }
    }

    /// The state with order `from` tracked as order `to`, on the same side.
    pub open spec fn renamed(self, from: OrderId, to: OrderId) -> TrailingMmView {
        TrailingMmView {
            active_orders: self.active_orders.map_values(|x: OrderId| if x == from { to } else { x }),
            order_side_map: if self.order_side_map.contains_key(from) {
                self.order_side_map.remove(from).insert(to, self.order_side_map[from])
            } else {
                self.order_side_map
            },
            ..self
        }
    }

    /// Track the quotes the mappings name under their engine identifiers.
    pub open spec fn track_created(self, mappings: Seq<(usize, OrderId)>) -> TrailingMmView
        decreases mappings.len(),
    {
        if mappings.len() == 0 {
            self
        } else {
            let v = self.track_created(mappings.drop_last());
            let (idx, id) = mappings.last();
            match quote_at(self.pending_quotes, idx) {
                Some(own) => v.renamed(own, id),
                None => v,
            }
        }
    }

    /// The state after a fill: the order stops being tracked, and the fill is booked with
    /// the side the order was placed on.
    pub open spec fn on_fill(self, fill: Fill) -> TrailingMmView {
        let side = if self.order_side_map.contains_key(fill.id) {
            Some(self.order_side_map[fill.id])
        } else {
            None
        };
        TrailingMmView {
            active_orders: self.active_orders.filter(|id: OrderId| id != fill.id),
            order_side_map: self.order_side_map.remove(fill.id),
            accounting: book_fill(self.accounting, fill_position_delta(side, fill), fill.price),
            ..self
        }
    }

    /// The state after settling the position at a resolution price.
    pub open spec fn settled(self, resolved_price: u8) -> TrailingMmView {
        if self.accounting.position == 0 {
            self
        } else {
            TrailingMmView {
                accounting: Accounting {
                    position: 0,
                    total_pnl_cents: (self.accounting.total_pnl_cents + settlement_pnl(
                        self.accounting,
                        resolved_price,
                    )) as i64,
                    avg_cost_basis_cents: 0,
                    total_position_cost: 0,
                },
                ..self
            }
        }
    }
}

/// The own identifier of the first waiting quote placed as instruction `idx`.
fn find_quote(pending: &Vec<(usize, OrderId)>, idx: usize) -> (r: Option<OrderId>)
    ensures
        r == quote_at(pending@, idx),
{
    let n = pending.len();
    let mut i: usize = 0;
    proof {
        assert(pending@.skip(0) =~= pending@);
    }
    while i < n
        invariant
            0 <= i <= n,
            n == pending@.len(),
            quote_at(pending@, idx) == quote_at(pending@.skip(i as int), idx),
        decreases n - i,
    {
        proof {
            assert(pending@.skip(i as int)[0] == pending@[i as int]);
            assert(pending@.skip(i as int).drop_first() =~= pending@.skip(i + 1));
        }
        if pending[i].0 == idx {
            return Some(pending[i].1);
        }
        i = i + 1;
    }
    None
}

/// A trailing market making strategy that places orders outside the spread
/// to capture brief mispricings during volatile periods
#[derive(Debug)]
pub struct TrailingMmStrategy {
    params: TrailingMmParams,
    position: i64,
    active_orders: Vec<OrderId>,
    last_ticker: Option<String>,
    order_id_counter: u64,
    // Track last market state for order replacement decisions
    last_bid: Option<u8>,
    last_ask: Option<u8>,
    last_bid_order_price: Option<u8>,
    last_ask_order_price: Option<u8>,
    /// Instruction index and own identifier of the quotes waiting for engine identifiers
    pending_quotes: Vec<(usize, OrderId)>,
    total_pnl_cents: i64,
    order_side_map: HashMap<OrderId, Side>,
    avg_cost_basis_cents: i64,
    total_position_cost: i64,
}

impl View for TrailingMmStrategy {
    type V = TrailingMmView;

    closed spec fn view(&self) -> TrailingMmView {
        TrailingMmView {
            params: self.params,
            accounting: Accounting {
                position: self.position,
                total_pnl_cents: self.total_pnl_cents,
                avg_cost_basis_cents: self.avg_cost_basis_cents,
                total_position_cost: self.total_position_cost,
            },
            active_orders: self.active_orders@,
            last_ticker: ticker_view(self.last_ticker),
            order_id_counter: self.order_id_counter,
            last_bid: self.last_bid,
            last_ask: self.last_ask,
            last_bid_order_price: self.last_bid_order_price,
            last_ask_order_price: self.last_ask_order_price,
            pending_quotes: self.pending_quotes@,
            order_side_map: self.order_side_map@,
        }
    }
}

/// The trailing quotes, computed as `trailing_quotes` states.
fn trailing_quotes_exec(params: &TrailingMmParams, market_bid: u8, market_ask: u8) -> (r: Option<
    (u8, u8),
>)
    ensures
        r == trailing_quotes(*params, market_bid, market_ask),
{
    // Don't trail in uninitialized/fake conditions
    if market_bid == 0 || market_ask == 100 {
        return None;
    }
    let spread = if market_ask >= market_bid {
        market_ask - market_bid
    } else {
        0
    };
    // Only trail when spread is large enough
    if spread < params.min_spread_for_trailing {
        return None;
    }
    // Calculate our trailing prices outside the spread
    let our_bid = if market_bid >= params.trail_distance {
        market_bid - params.trail_distance
    } else {
        0
    };
    let our_ask = if market_ask as u16 + params.trail_distance as u16 <= 255 {
        market_ask + params.trail_distance
    } else {
        255
    };
    // Safety checks - don't place orders at extreme prices
    if our_bid <= 1 || our_ask >= 99 {
        return None;
    }
    // Make sure our bid is significantly below market bid
    if our_bid >= market_bid {
        return None;
    }
    // Make sure our ask is significantly above market ask
    if our_ask <= market_ask {
        return None;
    }
    Some((our_bid, our_ask))
}

impl TrailingMmStrategy {
    pub fn new(params: TrailingMmParams) -> (r: Self)
        ensures
            r@ == TrailingMmView::fresh(params, 0),
    {
        TrailingMmStrategy {
            params,
            position: 0,
            active_orders: Vec::new(),
            last_ticker: None,
            order_id_counter: 0,
            last_bid: None,
            last_ask: None,
            last_bid_order_price: None,
            last_ask_order_price: None,
            pending_quotes: Vec::new(),
            total_pnl_cents: 0,
            order_side_map: HashMap::new(),
            avg_cost_basis_cents: 0,
            total_position_cost: 0,
        }
    }

    /// A trailing strategy holding `position` contracts, otherwise fresh.
    pub fn with_position(params: TrailingMmParams, position: i64) -> (r: Self)
        ensures
            r@ == TrailingMmView::fresh(params, position),
    {
        let mut r = Self::new(params);
        r.position = position;
        r
    }

    fn next_order_id(&mut self) -> (r: OrderId)
        ensures
            r == next_counter(old(self)@.order_id_counter),
            final(self)@ == (TrailingMmView { order_id_counter: r, ..old(self)@ }),
    {
        self.order_id_counter = if self.order_id_counter == u64::MAX {
            0
        } else {
            self.order_id_counter + 1
        };
        self.order_id_counter
    }

    /// Track order `from` as order `to`, on the same side.
    fn rename_order(&mut self, from: OrderId, to: OrderId)
        ensures
            final(self)@ == old(self)@.renamed(from, to),
    {
        let ghost a0 = self.active_orders@;
        let ghost f = |x: OrderId| if x == from { to } else { x };
        let mut out: Vec<OrderId> = Vec::new();
        let n = self.active_orders.len();
        let mut i: usize = 0;
        while i < n
            invariant
                0 <= i <= n,
                n == a0.len(),
                a0 == self.active_orders@,
                f == (|x: OrderId| if x == from { to } else { x }),
                out@ == a0.take(i as int).map_values(f),
            decreases n - i,
        {
            let x = self.active_orders[i];
            out.push(if x == from { to } else { x });
            proof {
                assert(a0.take(i + 1).map_values(f) =~= a0.take(i as int).map_values(f).push(f(x)));
            }
            i = i + 1;
        }
        proof {
            assert(a0.take(n as int) =~= a0);
        }
        self.active_orders = out;
        proof {
            assert(self.active_orders@ =~= a0.map_values(
                |x: OrderId|
                    if x == from {
                        to
                    } else {
                        x
                    },
            ));
        }
        let ghost m0 = self.order_side_map@;
        match self.order_side_map.remove(&from) {
            Some(side) => {
                self.order_side_map.insert(to, side);
                proof {
                    assert(m0.contains_key(from) && m0[from] == side);
                    assert(self.order_side_map@ =~= m0.remove(from).insert(to, m0[from]));
                }
            },
            None => {
                proof {
                    assert(!m0.contains_key(from));
                    assert(self.order_side_map@ =~= m0);
                }
            },
        }
        proof {
            let w = old(self)@.renamed(from, to);
            assert(self@.active_orders == w.active_orders);
            assert(self@.order_side_map == w.order_side_map);
            assert(self@.accounting == w.accounting);
            assert(self@.pending_quotes == w.pending_quotes);
            assert(self@.last_ticker == w.last_ticker);
        }
    }

    /// Cancel all active orders
    fn cancel_all_orders(&mut self) -> (r: Vec<OrderInstr>)
        ensures
            r@ == cancels(old(self)@.active_orders),
            final(self)@ == old(self)@.cleared(),
    {
        let cancel_orders = cancel_instructions(&self.active_orders);
        self.active_orders.clear();
        self.order_side_map.clear();
        self.pending_quotes.clear();
        self.last_bid_order_price = None;
        self.last_ask_order_price = None;
        cancel_orders
    }

    /// Check if market has moved enough to warrant order replacement
    fn should_replace_orders(&self, market_bid: u8, market_ask: u8) -> (r: bool)
        ensures
            r == self@.should_replace(market_bid, market_ask),
    {
        match (self.last_bid, self.last_ask) {
            (Some(last_bid), Some(last_ask)) => {
                let bid_moved = if market_bid >= last_bid {
                    market_bid - last_bid
                } else {
                    last_bid - market_bid
                };
                let ask_moved = if market_ask >= last_ask {
                    market_ask - last_ask
                } else {
                    last_ask - market_ask
                };
                bid_moved >= self.params.min_move_for_replace || ask_moved
                    >= self.params.min_move_for_replace
            },
            _ => true,
        }
    }

    /// Calculate quote quantity based on current position
    fn calculate_quote_quantity(&self, side: Side) -> (r: i64)
        ensures
            r == trailing_quantity(
                self.position,
                self.params.max_position,
                self.params.quote_quantity,
                side,
            ),
    {
        let base_qty = self.params.quote_quantity;
        let qty = capped_quantity_exec(self.position, self.params.max_position, base_qty, side);
        // Don't place orders that are too small to be efficient: at least 5% of the base
        // quantity, and at least 5
        let twentieth: i64 = if base_qty >= 0 {
            base_qty / 20
        } else {
            -((-(base_qty as i128)) / 20) as i64
        };
        let min_qty = if twentieth >= 5 {
            twentieth
        } else {
            5
        };
        if qty < min_qty {
            0
        } else {
            qty
        }
    }

    /// Place a quote on `side` at `price` when allowed.
    fn quote_side(&mut self, side: Side, price: u8, instructions: &mut Vec<OrderInstr>)
        ensures
            match old(self)@.side_quote(side, price) {
                Some(o) => final(self)@ == old(self)@.with_quote(side, price, old(instructions)@.len() as usize)
                    && final(instructions)@ == old(instructions)@.push(o),
                None => final(self)@ == old(self)@ && final(instructions)@ == old(instructions)@,
            },
    {
        if may_quote_exec(self.position, self.params.max_position, side) {
            let qty = self.calculate_quote_quantity(side);
            if qty > 0 {
                let order_id = self.next_order_id();
                self.active_orders.push(order_id);
                self.order_side_map.insert(order_id, side);
                self.pending_quotes.push((instructions.len(), order_id));
                match side {
                    Side::Yes => self.last_bid_order_price = Some(price),
                    Side::No => self.last_ask_order_price = Some(price),
                }
                instructions.push(
                    OrderInstr::Limit { side, price, qty, ttl_ms: self.params.order_ttl_ms },
                );
            }
        }
    }

    /// Get the current PnL including unrealized PnL at given market price
    pub fn get_total_pnl_cents(&self, current_market_price: Option<u8>) -> (r: i64)
        requires
            fits_i64(total_pnl_at(self@.accounting, current_market_price)),
        ensures
            r == total_pnl_at(self@.accounting, current_market_price),
    {
        pnl_with_unrealized(
            self.total_pnl_cents,
            self.position,
            self.avg_cost_basis_cents,
            current_market_price,
        )
    }

    /// Settle final position based on market resolution
    pub fn settle_final_position(&mut self, market_resolved_price: u8) -> (r: i64)
        requires
            fits_i64(settlement_pnl(old(self)@.accounting, market_resolved_price)),
            fits_i64(old(self)@.accounting.total_pnl_cents + settlement_pnl(
                old(self)@.accounting,
                market_resolved_price,
            )),
        ensures
            r == settlement_pnl(old(self)@.accounting, market_resolved_price),
            final(self)@ == old(self)@.settled(market_resolved_price),
    {
        if self.position == 0 {
            return 0;
        }
        let pnl = settlement_of(self.position, self.avg_cost_basis_cents, market_resolved_price);
        self.total_pnl_cents = self.total_pnl_cents + pnl;
        self.position = 0;
        self.avg_cost_basis_cents = 0;
        self.total_position_cost = 0;
        pnl
    }
}

impl KalshiStrategy for TrailingMmStrategy {
    /// The trailing market maker quotes outside the market, tracks its order identifiers,
    /// books its fills and keeps no settlement account.
    open spec fn answers(&self, call: StrategyCall, next: &Self) -> bool {
        match call {
            StrategyCall::Book { md, reply } => (next@, reply) == self@.on_book(md),
            StrategyCall::Fill { fill } => next@ == self@.on_fill(fill),
            StrategyCall::OrdersCreated { mappings } => next@ == self@.orders_created(mappings),
            StrategyCall::Settle { reported, .. } => reported is None && next@ == self@,
        }
    }

    fn settle_final_positions(&mut self, resolved_prices: &Vec<u8>) -> (r: Option<i64>)
        ensures
            r is None,
            final(self)@ == old(self)@,
    {
        None
    }

    fn on_book(&mut self, md: &MarketData) -> (r: Vec<OrderInstr>)
        ensures
            (final(self)@, r@) == old(self)@.on_book(*md),
    {
        let mut instructions: Vec<OrderInstr> = Vec::new();
        // Cancel existing orders if ticker changed
        if ticker_differs(&self.last_ticker, &md.ticker) {
            let mut c = self.cancel_all_orders();
            instructions.append(&mut c);
            self.last_ticker = Some(md.ticker.clone());
        }
        // Check if we should replace orders due to market movement
        let should_replace = self.should_replace_orders(md.bid, md.ask);
        if should_replace && self.active_orders.len() > 0 {
            let mut c = self.cancel_all_orders();
            instructions.append(&mut c);
        }
        // Calculate trailing quotes
        let quotes = match trailing_quotes_exec(&self.params, md.bid, md.ask) {
            Some(quotes) => quotes,
            None => {
                // Cancel all orders if we can't trail profitably
                let mut c = self.cancel_all_orders();
                instructions.append(&mut c);
                self.last_bid = Some(md.bid);
                self.last_ask = Some(md.ask);
                return instructions;
            },
        };
        let (our_bid, our_ask) = quotes;
        // Only place new orders if we don't already have orders at these prices
        let nothing_tracked = self.active_orders.len() == 0;
        let bid_price_changed = self.last_bid_order_price != Some(our_bid);
        let ask_price_changed = self.last_ask_order_price != Some(our_ask);
        // Place trailing bid order (buying YES at discount to market)
        if bid_price_changed || nothing_tracked {
            self.quote_side(Side::Yes, our_bid, &mut instructions);
        }
        // Place trailing ask order (buying NO, i.e., selling YES at premium)
        if ask_price_changed || nothing_tracked {
            self.quote_side(Side::No, our_ask, &mut instructions);
        }
        // Update last market state
        self.last_bid = Some(md.bid);
        self.last_ask = Some(md.ask);
        instructions
    }

    fn on_orders_created(&mut self, order_mappings: Vec<(usize, OrderId)>)
        ensures
            final(self)@ == old(self)@.orders_created(order_mappings@),
    {
        let ghost v0 = self@;
        let mut i: usize = 0;
        while i < order_mappings.len()
            invariant
                0 <= i <= order_mappings.len(),
                self.pending_quotes@ == v0.pending_quotes,
                self@ == v0.track_created(order_mappings@.take(i as int)),
            decreases order_mappings.len() - i,
        {
            let (instruction_index, order_id) = order_mappings[i];
            proof {
                assert(order_mappings@.take(i + 1).drop_last() =~= order_mappings@.take(i as int));
            }
            match find_quote(&self.pending_quotes, instruction_index) {
                Some(own) => {
                    self.rename_order(own, order_id);
                },
                None => {},
            }
            i = i + 1;
        }
        assert(order_mappings@.take(order_mappings.len() as int) =~= order_mappings@);
        // Nothing waits once the identifiers are known
        self.pending_quotes.clear();
    }

    fn on_fill(&mut self, fill: &Fill)
        ensures
            final(self)@ == old(self)@.on_fill(*fill),
    {
        // Remove filled order from active orders
        self.active_orders = without_id(&self.active_orders, fill.id);
        // Get the side this order was on
        let order_side = self.order_side_map.remove(&fill.id);
        let qty = fill.qty as i128;
        let delta: i128 = match order_side {
            Some(Side::Yes) => qty,
            Some(Side::No) => -qty,
            None => if fill.price < 50 {
                qty
            } else {
                -qty
            },
        };
        apply_accounting(
            &mut self.position,
            &mut self.total_pnl_cents,
            &mut self.avg_cost_basis_cents,
            &mut self.total_position_cost,
            delta,
            fill.price,
        );
    }
}


/// Law: spread quotes sit strictly inside the market, one cent from each side, with our
/// bid below our ask; the bid is never at an extreme price (1 cent or below, 99 cents or
/// above) and the ask never at 1 cent or below.
pub proof fn lemma_spread_quotes_inside_market(params: SpreadMmParams, bid: u8, ask: u8)
    requires
        spread_quotes(params, bid, ask) is Some,
    ensures
        ({
            let (our_bid, our_ask) = spread_quotes(params, bid, ask).unwrap();
            &&& bid < our_bid && our_bid == bid + 1
            &&& our_ask < ask && our_ask == ask - 1
            &&& our_bid < our_ask
            &&& 1 < our_bid < 99
            &&& 1 < our_ask
        }),
{
}

/// Law: trailing quotes sit strictly outside the market, and never at an extreme price.
pub proof fn lemma_trailing_quotes_outside_market(params: TrailingMmParams, bid: u8, ask: u8)
    requires
        trailing_quotes(params, bid, ask) is Some,
    ensures
        ({
            let (our_bid, our_ask) = trailing_quotes(params, bid, ask).unwrap();
            &&& our_bid < bid
            &&& ask < our_ask
            &&& 1 < our_bid
            &&& our_ask < 99
        }),
{
}

/// Law: a quote never takes the position past the position limit on its side: a YES
/// quote keeps it at or below the maximum, a NO quote at or above its negative, and no
/// quote is negative.
pub proof fn lemma_quote_respects_position_limit(
    position: i64,
    max_position: i64,
    base: i64,
    side: Side,
)
    requires
        may_quote(position, max_position, side),
    ensures
        0 <= capped_quantity(position, max_position, base, side),
        0 <= trailing_quantity(position, max_position, base, side) <= capped_quantity(
            position,
            max_position,
            base,
            side,
        ),
        side == Side::Yes ==> position + capped_quantity(position, max_position, base, side)
            <= max_position,
        side == Side::No ==> position - capped_quantity(position, max_position, base, side)
            >= -max_position,
        capped_quantity(position, max_position, base, side) <= max_int(base as int, 0),
{
}

/// Law: from a flat position, buying `qty` contracts at `buy` and then selling them at
/// `sell` realizes `(sell - buy) * qty` and leaves the position flat with no cost.
pub proof fn lemma_round_trip_pnl(a: Accounting, qty: i64, buy: u8, sell: u8)
    requires
        a.position == 0,
        a.avg_cost_basis_cents == 0,
        a.total_position_cost == 0,
        0 < qty,
        qty * 255 <= i64::MAX,
        fits_i64(a.total_pnl_cents + (sell - buy) * qty),
    ensures
        book_fill(book_fill(a, qty as int, buy), -qty, sell) == (Accounting {
            position: 0,
            total_pnl_cents: (a.total_pnl_cents + (sell - buy) * qty) as i64,
            avg_cost_basis_cents: 0,
            total_position_cost: 0,
        }),
{
    assert(0 <= buy * qty <= 255 * qty) by (nonlinear_arith)
        requires
            0 <= buy <= 255,
            0 < qty,
    ;
    assert((buy * qty) / (qty as int) == buy) by (nonlinear_arith)
        requires
            0 < qty,
            0 <= buy,
    ;
    assert(trunc_div(buy * qty, abs_int(qty as int)) == buy);
    let b = book_fill(a, qty as int, buy);
    assert(accounting_fits(a, qty as int, buy));
    assert(b.position == qty);
    assert(b.avg_cost_basis_cents == buy);
    assert(b.total_position_cost == buy * qty);
    assert(b.total_pnl_cents == a.total_pnl_cents);
    assert((qty as int) * (-qty as int) < 0) by (nonlinear_arith)
        requires
            0 < qty,
    ;
    assert(accounting_fits(b, -qty as int, sell));
}

/// Law: settling closes the position: the total profit grows by exactly the settlement,
/// no longer depends on a market price, and settling again pays nothing and changes
/// nothing.
pub proof fn lemma_settlement_closes(s: SpreadMmView, price: u8, again: u8, market: u8)
    requires
        fits_i64(s.accounting.total_pnl_cents + settlement_pnl(s.accounting, price)),
    ensures
        total_pnl_at(s.settled(price).accounting, None) == total_pnl_at(s.accounting, None)
            + settlement_pnl(s.accounting, price),
        total_pnl_at(s.settled(price).accounting, Some(market)) == total_pnl_at(
            s.settled(price).accounting,
            None,
        ),
        settlement_pnl(s.settled(price).accounting, again) == 0,
        s.settled(price).settled(again) == s.settled(price),
{
}

/// Law: settling a position at price `p` realizes `(p - average cost) * position`: a long
/// position gains when the market resolves above its average cost, and a short one when
/// it resolves below.
pub proof fn lemma_settlement_formula(a: Accounting, p: u8)
    ensures
        settlement_pnl(a, p) == (p - a.avg_cost_basis_cents) * a.position,
        a.position > 0 && p > a.avg_cost_basis_cents ==> settlement_pnl(a, p) > 0,
        a.position < 0 && p < a.avg_cost_basis_cents ==> settlement_pnl(a, p) > 0,
        a.position > 0 && p < a.avg_cost_basis_cents ==> settlement_pnl(a, p) < 0,
        a.position < 0 && p > a.avg_cost_basis_cents ==> settlement_pnl(a, p) < 0,
{
    let d = p - a.avg_cost_basis_cents;
    let q = a.position as int;
    if q < 0 {
        assert(abs_int(q) == -q);
        assert(a.avg_cost_basis_cents - p == -d);
        assert((-d) * (-q) == d * q) by (nonlinear_arith);
        assert(settlement_pnl(a, p) == (-d) * (-q));
    } else if q == 0 {
        assert(d * q == 0) by (nonlinear_arith)
            requires
                q == 0,
        ;
    } else {
        assert(settlement_pnl(a, p) == d * q);
    }
    assert(d > 0 && q > 0 ==> d * q > 0) by (nonlinear_arith);
    assert(d < 0 && q < 0 ==> d * q > 0) by (nonlinear_arith);
    assert(d < 0 && q > 0 ==> d * q < 0) by (nonlinear_arith);
    assert(d > 0 && q < 0 ==> d * q < 0) by (nonlinear_arith);
}

/// Law: an order of the directional strategy never takes the position past its target: it
/// buys the target side, at least one and at most 10 contracts, and either 10 or exactly
/// what reaches the target (a YES target at a position of `target_quantity`, a NO target at
/// `-target_quantity`); it pays the ask for YES or the bid for NO, capped at the maximum
/// price, and never an extreme price (1 or below, 99 or above).
pub proof fn lemma_directional_order_within_target(v: DirectionalView, md: MarketData, i: int)
    requires
        0 <= i < v.orders(md).len(),
    ensures
        (v.orders(md)[i] matches OrderInstr::Limit { side, qty, price, .. } && {
            &&& side == v.target_side
            &&& 0 < qty <= 10
            &&& 1 < price < 99
            &&& price <= v.max_price
            &&& side == Side::Yes ==> price == md.ask || (md.ask > v.max_price && price
                == v.max_price)
            &&& side == Side::No ==> price == md.bid || (md.bid > v.max_price && price
                == v.max_price)
            &&& side == Side::Yes ==> v.current_position + qty <= v.target_quantity && (qty == 10
                || v.current_position + qty == v.target_quantity)
            &&& side == Side::No ==> v.current_position - qty >= -v.target_quantity && (qty == 10
                || v.current_position - qty == -v.target_quantity)
        }),
{
}

/// Law: when the market moved by at least the replacement threshold on either side since
/// the last update of the same ticker, the trailing strategy replaces its quotes: its reply
/// begins by cancelling every order it tracks.
pub proof fn lemma_trailing_replaces_on_move(v: TrailingMmView, md: MarketData, lb: u8, la: u8)
    requires
        v.last_ticker == Some(md.ticker@),
        v.last_bid == Some(lb),
        v.last_ask == Some(la),
        md.bid >= lb + v.params.min_move_for_replace || lb >= md.bid
            + v.params.min_move_for_replace || md.ask >= la + v.params.min_move_for_replace || la
            >= md.ask + v.params.min_move_for_replace,
    ensures
        v.on_book(md).1.len() >= v.active_orders.len(),
        forall|k: int|
            0 <= k < v.active_orders.len() ==> #[trigger] v.on_book(md).1[k]
                == (OrderInstr::Cancel { id: v.active_orders[k] }),
{
    let r = v.on_book(md).1;
    let c = cancels(v.active_orders);
    assert(v.should_replace(md.bid, md.ask));
    if v.active_orders.len() > 0 {
        assert(Seq::<OrderInstr>::empty() + c =~= c);
        assert forall|k: int| 0 <= k < v.active_orders.len() implies #[trigger] r[k]
            == OrderInstr::Cancel { id: v.active_orders[k] } by {
            assert(c[k] == OrderInstr::Cancel { id: v.active_orders[k] });
            assert(r.subrange(0, c.len() as int) =~= c);
            assert(r[k] == r.subrange(0, c.len() as int)[k]);
        }
    }
}

/// Law: when the market moved by less than the replacement threshold on both sides since
/// the last update of the same ticker, and the strategy's tracked quotes already sit at the
/// trailing prices, it keeps them: its reply is empty.
pub proof fn lemma_trailing_keeps_quotes_when_still(
    v: TrailingMmView,
    md: MarketData,
    lb: u8,
    la: u8,
    our_bid: u8,
    our_ask: u8,
)
    requires
        v.last_ticker == Some(md.ticker@),
        v.last_bid == Some(lb),
        v.last_ask == Some(la),
        md.bid < lb + v.params.min_move_for_replace,
        lb < md.bid + v.params.min_move_for_replace,
        md.ask < la + v.params.min_move_for_replace,
        la < md.ask + v.params.min_move_for_replace,
        v.active_orders.len() > 0,
        trailing_quotes(v.params, md.bid, md.ask) == Some((our_bid, our_ask)),
        v.last_bid_order_price == Some(our_bid),
        v.last_ask_order_price == Some(our_ask),
    ensures
        v.on_book(md).1.len() == 0,
{
    assert(!v.should_replace(md.bid, md.ask));
}

/// A strategy named on the command line, with its parameters.
#[derive(Debug, Clone, Copy, PartialEq, Eq)]
pub enum StrategyChoice {
    SpreadMm(SpreadMmParams),
    TrailingMm(TrailingMmParams),
    Directional { target_side: Side, target_quantity: i64, max_price: u8 },
}

/// The strategy a name stands for: `spread_mm` quotes with 5 s quotes; `trailing_spread_mm`
/// trails 2 cents outside spreads of at least `min_spread` (and at least 3) with 3 s
/// quotes, replacing them on a 1-cent move; `directional_yes` buys YES up to 60 cents and
/// `directional_no` buys NO up to 40 cents. Any other name stands for none.
pub open spec fn strategy_choice(name: Seq<char>, min_spread: u8, qty: i64, max_pos: i64) -> Option<
    StrategyChoice,
> {
    if name == "spread_mm"@ {
        Some(
            StrategyChoice::SpreadMm(
                SpreadMmParams {
                    min_spread,
                    quote_quantity: qty,
                    max_position: max_pos,
                    order_ttl_ms: 5000,
                },
            ),
        )
    } else if name == "trailing_spread_mm"@ {
        Some(
            StrategyChoice::TrailingMm(
                TrailingMmParams {
                    min_spread_for_trailing: if min_spread < 3 {
                        3
                    } else {
                        min_spread
                    },
                    trail_distance: 2,
                    max_position: max_pos,
                    quote_quantity: qty,
                    order_ttl_ms: 3000,
                    min_move_for_replace: 1,
                },
            ),
        )
    } else if name == "directional_yes"@ {
        Some(StrategyChoice::Directional { target_side: Side::Yes, target_quantity: qty, max_price: 60 })
    } else if name == "directional_no"@ {
        Some(StrategyChoice::Directional { target_side: Side::No, target_quantity: qty, max_price: 40 })
    } else {
        None
    }
}

/// The strategy a name stands for, with the parameters given on the command line.
pub fn choose_strategy(name: &str, min_spread: u8, qty: i64, max_pos: i64) -> (r: Option<
    StrategyChoice,
>)
    ensures
        r == strategy_choice(name@, min_spread, qty, max_pos),
{
    let n = name.to_owned();
    if n == "spread_mm".to_owned() {
        Some(
            StrategyChoice::SpreadMm(
                SpreadMmParams {
                    min_spread,
                    quote_quantity: qty,
                    max_position: max_pos,
                    order_ttl_ms: 5000,
                },
            ),
        )
    } else if n == "trailing_spread_mm".to_owned() {
        Some(
            StrategyChoice::TrailingMm(
                TrailingMmParams {
                    min_spread_for_trailing: if min_spread < 3 {
                        3
                    } else {
                        min_spread
                    },
                    trail_distance: 2,
                    max_position: max_pos,
                    quote_quantity: qty,
                    order_ttl_ms: 3000,
                    min_move_for_replace: 1,
                },
            ),
        )
    } else if n == "directional_yes".to_owned() {
        Some(StrategyChoice::Directional { target_side: Side::Yes, target_quantity: qty, max_price: 60 })
    } else if n == "directional_no".to_owned() {
        Some(StrategyChoice::Directional { target_side: Side::No, target_quantity: qty, max_price: 40 })
    } else {
        None
    }
}

} // verus!
