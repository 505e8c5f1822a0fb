use crate::kalshi_types::{Event, Side};
use std::collections::BTreeMap;
use vstd::prelude::*;

verus! {

/// Quantity resting at `price` in a level map, 0 when the level is absent.
pub open spec fn level_qty(m: Map<u8, i64>, price: u8) -> i64 {
    if m.contains_key(price) {
        m[price]
    } else {
        0
    }
}

/// Every level of the map holds a positive quantity.
pub open spec fn levels_positive(m: Map<u8, i64>) -> bool {
    forall|p: u8| #[trigger] m.contains_key(p) ==> m[p] > 0
}

/// The highest price of a non-empty level map.
pub open spec fn top_price(m: Map<u8, i64>) -> u8
    recommends
        !m.dom().is_empty(),
{
    choose|p: u8| m.contains_key(p) && forall|k: u8| #[trigger] m.contains_key(k) ==> k <= p
}

/// The lowest price of a non-empty level map.
pub open spec fn bottom_price(m: Map<u8, i64>) -> u8
    recommends
        !m.dom().is_empty(),
{
    choose|p: u8| m.contains_key(p) && forall|k: u8| #[trigger] m.contains_key(k) ==> p <= k
}

/// The map built from `(price, quantity)` pairs applied in order, where a pair with a
/// positive quantity sets its level and any other pair is ignored.
pub open spec fn snapshot_levels(s: Seq<(u8, i64)>) -> Map<u8, i64>
    decreases s.len(),
{
    if s.len() == 0 {
        Map::empty()
    } else {
        let m = snapshot_levels(s.drop_last());
        let (p, q) = s.last();
        if q > 0 {
            m.insert(p, q)
        } else {
            m
        }
    }
}

/// The sum of the quantities of all levels with a price below `n`.
pub open spec fn levels_sum_below(m: Map<u8, i64>, n: nat) -> int
    decreases n,
{
    if n == 0 {
        0
    } else {
        levels_sum_below(m, (n - 1) as nat) + level_qty(m, (n - 1) as u8)
    }
}

/// The sum of the quantities of all levels.
pub open spec fn levels_sum(m: Map<u8, i64>) -> int {
    levels_sum_below(m, 256)
}

/// The levels of a map with price below `n`, highest price first.
pub open spec fn levels_desc_below(m: Map<u8, i64>, n: nat) -> Seq<(u8, i64)>
    decreases n,
{
    if n == 0 {
        Seq::empty()
    } else {
        let p = (n - 1) as u8;
        let rest = levels_desc_below(m, (n - 1) as nat);
        if m.contains_key(p) {
            seq![(p, m[p])] + rest
        } else {
            rest
        }
    }
}

/// The levels of a map with price at least `n`, highest price first.
pub open spec fn levels_desc_from(m: Map<u8, i64>, n: nat) -> Seq<(u8, i64)>
    decreases 256 - n,
{
    if n >= 256 {
        Seq::empty()
    } else {
        let rest = levels_desc_from(m, n + 1);
        if m.contains_key(n as u8) {
            rest.push((n as u8, m[n as u8]))
        } else {
            rest
        }
    }
}

/// All levels of a map, highest price first.
pub open spec fn levels_desc(m: Map<u8, i64>) -> Seq<(u8, i64)> {
    levels_desc_from(m, 0)
}

/// The levels of a map with price below `n`, lowest price first.
pub open spec fn levels_asc_below(m: Map<u8, i64>, n: nat) -> Seq<(u8, i64)>
    decreases n,
{
    if n == 0 {
        Seq::empty()
    } else {
        let p = (n - 1) as u8;
        let rest = levels_asc_below(m, (n - 1) as nat);
        if m.contains_key(p) {
            rest.push((p, m[p]))
        } else {
            rest
        }
    }
}

/// All levels of a map, lowest price first.
pub open spec fn levels_asc(m: Map<u8, i64>) -> Seq<(u8, i64)> {
    levels_asc_below(m, 256)
}

/// The number of levels with price below `n`.
pub open spec fn level_count_below(m: Map<u8, i64>, n: nat) -> nat
    decreases n,
{
    if n == 0 {
        0
    } else {
        level_count_below(m, (n - 1) as nat) + if m.contains_key((n - 1) as u8) {
            1nat
        } else {
            0nat
        }
    }
}


/// What taking up to `remaining` contracts from levels in order costs: the total price
/// paid and the number of contracts taken, each level giving at most its quantity.
pub open spec fn sweep(levels: Seq<(u8, i64)>, remaining: int) -> (int, int)
    decreases levels.len(),
{
    if levels.len() == 0 || remaining <= 0 {
        (0, 0)
    } else {
        let (price, qty) = levels[0];
        let take = if remaining <= qty {
            remaining
        } else {
            qty as int
        };
        let rest = sweep(levels.drop_first(), remaining - take);
        (price * take + rest.0, take + rest.1)
    }
}

/// A sweep of levels with positive quantities takes between nothing and what was asked,
/// and pays at most 255 per contract.
proof fn lemma_sweep_bounds(levels: Seq<(u8, i64)>, remaining: int)
    requires
        forall|i: int| 0 <= i < levels.len() ==> #[trigger] levels[i].1 > 0,
    ensures
        0 <= sweep(levels, remaining).1 <= (if remaining > 0 {
            remaining
        } else {
            0
        }),
        0 <= sweep(levels, remaining).0 <= 255 * sweep(levels, remaining).1,
    decreases levels.len(),
{
    if levels.len() > 0 && remaining > 0 {
        let rest = levels.drop_first();
        assert forall|i: int| 0 <= i < rest.len() implies #[trigger] rest[i].1 > 0 by {
            assert(rest[i] == levels[i + 1]);
        }
        let take = if remaining <= levels[0].1 {
            remaining
        } else {
            levels[0].1 as int
        };
        lemma_sweep_bounds(rest, remaining - take);
        assert(0 <= levels[0].0 * take <= 255 * take) by (nonlinear_arith)
            requires
                0 <= levels[0].0 <= 255,
                0 <= take,
        ;
    }
}

/// The levels listed from price `n` up are levels of the map, highest price first, all
/// at or above `n`.
proof fn lemma_desc_from(m: Map<u8, i64>, n: nat)
    ensures
        forall|i: int|
            0 <= i < levels_desc_from(m, n).len() ==> {
                let (p, q) = #[trigger] levels_desc_from(m, n)[i];
                &&& m.contains_key(p)
                &&& q == m[p]
                &&& p >= n
            },
        forall|i: int, j: int|
            0 <= i < j < levels_desc_from(m, n).len() ==> #[trigger] levels_desc_from(m, n)[i].0
                > #[trigger] levels_desc_from(m, n)[j].0,
        forall|p: u8|
            p >= n && #[trigger] m.contains_key(p) ==> exists|i: int|
                0 <= i < levels_desc_from(m, n).len() && #[trigger] levels_desc_from(m, n)[i].0 == p,
    decreases 256 - n,
{
    if n < 256 {
        lemma_desc_from(m, n + 1);
        let rest0 = levels_desc_from(m, n + 1);
        let r0 = levels_desc_from(m, n);
        assert forall|p: u8| p >= n && #[trigger] m.contains_key(p) implies exists|i: int|
            0 <= i < r0.len() && #[trigger] r0[i].0 == p by {
            if p == n {
                assert(r0[r0.len() - 1].0 == p);
            } else {
                let i = choose|i: int| 0 <= i < rest0.len() && #[trigger] rest0[i].0 == p;
                assert(r0[i] == rest0[i]);
            }
        }
        let rest = levels_desc_from(m, n + 1);
        let r = levels_desc_from(m, n);
        assert forall|i: int| 0 <= i < r.len() implies {
            let (p, q) = #[trigger] r[i];
            &&& m.contains_key(p)
            &&& q == m[p]
            &&& p >= n
        } by {
            if i < rest.len() {
                assert(r[i] == rest[i]);
            }
        }
        assert forall|i: int, j: int| 0 <= i < j < r.len() implies #[trigger] r[i].0
            > #[trigger] r[j].0 by {
            assert(r[i] == rest[i]);
            if j < rest.len() {
                assert(r[j] == rest[j]);
            }
        }
    }
}

/// The levels listed below price `n` are levels of the map, lowest price first, all
/// below `n`.
proof fn lemma_asc_below(m: Map<u8, i64>, n: nat)
    requires
        n <= 256,
    ensures
        forall|i: int|
            0 <= i < levels_asc_below(m, n).len() ==> {
                let (p, q) = #[trigger] levels_asc_below(m, n)[i];
                &&& m.contains_key(p)
                &&& q == m[p]
                &&& p < n
            },
        forall|i: int, j: int|
            0 <= i < j < levels_asc_below(m, n).len() ==> #[trigger] levels_asc_below(m, n)[i].0
                < #[trigger] levels_asc_below(m, n)[j].0,
        forall|p: u8|
            p < n && #[trigger] m.contains_key(p) ==> exists|i: int|
                0 <= i < levels_asc_below(m, n).len() && #[trigger] levels_asc_below(m, n)[i].0 == p,
    decreases n,
{
    if n > 0 {
        lemma_asc_below(m, (n - 1) as nat);
        let rest0 = levels_asc_below(m, (n - 1) as nat);
        let r0 = levels_asc_below(m, n);
        assert forall|p: u8| p < n && #[trigger] m.contains_key(p) implies exists|i: int|
            0 <= i < r0.len() && #[trigger] r0[i].0 == p by {
            if p == n - 1 {
                assert(r0[r0.len() - 1].0 == p);
            } else {
                let i = choose|i: int| 0 <= i < rest0.len() && #[trigger] rest0[i].0 == p;
                assert(r0[i] == rest0[i]);
            }
        }
        let rest = levels_asc_below(m, (n - 1) as nat);
        let r = levels_asc_below(m, n);
        assert forall|i: int| 0 <= i < r.len() implies {
            let (p, q) = #[trigger] r[i];
            &&& m.contains_key(p)
            &&& q == m[p]
            &&& p < n
        } by {
            if i < rest.len() {
                assert(r[i] == rest[i]);
            }
        }
        assert forall|i: int, j: int| 0 <= i < j < r.len() implies #[trigger] r[i].0
            < #[trigger] r[j].0 by {
            assert(r[i] == rest[i]);
            if j < rest.len() {
                assert(r[j] == rest[j]);
            }
        }
    }
}

/// Law: the YES levels are listed highest price first and the NO levels lowest price
/// first, each entry being a level of the book with its quantity, every level of the book
/// is listed, and the first entry listed is the best bid (best ask) of the book.
pub proof fn lemma_levels_listed_in_order(b: BookView)
    ensures
        forall|i: int, j: int|
            0 <= i < j < levels_desc(b.yes).len() ==> #[trigger] levels_desc(b.yes)[i].0
                > #[trigger] levels_desc(b.yes)[j].0,
        forall|i: int, j: int|
            0 <= i < j < levels_asc(b.no).len() ==> #[trigger] levels_asc(b.no)[i].0
                < #[trigger] levels_asc(b.no)[j].0,
        forall|i: int|
            0 <= i < levels_desc(b.yes).len() ==> b.yes.contains_key(
                #[trigger] levels_desc(b.yes)[i].0,
            ) && levels_desc(b.yes)[i].1 == b.yes[levels_desc(b.yes)[i].0],
        forall|i: int|
            0 <= i < levels_asc(b.no).len() ==> b.no.contains_key(
                #[trigger] levels_asc(b.no)[i].0,
            ) && levels_asc(b.no)[i].1 == b.no[levels_asc(b.no)[i].0],
        forall|p: u8|
            #[trigger] b.yes.contains_key(p) ==> exists|i: int|
                0 <= i < levels_desc(b.yes).len() && #[trigger] levels_desc(b.yes)[i].0 == p,
        forall|p: u8|
            #[trigger] b.no.contains_key(p) ==> exists|i: int|
                0 <= i < levels_asc(b.no).len() && #[trigger] levels_asc(b.no)[i].0 == p,
        !b.yes.dom().is_empty() ==> levels_desc(b.yes).len() > 0 && levels_desc(b.yes)[0].0
            == b.best_bid_price(),
        !b.no.dom().is_empty() ==> levels_asc(b.no).len() > 0 && levels_asc(b.no)[0].0
            == b.best_ask_price(),
{
    lemma_desc_from(b.yes, 0);
    lemma_asc_below(b.no, 256);
    let d = levels_desc(b.yes);
    let a = levels_asc(b.no);
    if !b.yes.dom().is_empty() {
        let p = b.yes.dom().choose();
        assert(b.yes.contains_key(p));
        let i = choose|i: int| 0 <= i < d.len() && #[trigger] d[i].0 == p;
        let top = d[0].0;
        assert(b.yes.contains_key(top));
        assert forall|k: u8| #[trigger] b.yes.contains_key(k) implies k <= top by {
            let j = choose|j: int| 0 <= j < d.len() && #[trigger] d[j].0 == k;
            if j > 0 {
                assert(d[0].0 > d[j].0);
            }
        }
        let t = top_price(b.yes);
        assert(b.yes.contains_key(t) && forall|k: u8| #[trigger] b.yes.contains_key(k) ==> k <= t);
        assert(t <= top && top <= t);
    }
    if !b.no.dom().is_empty() {
        let p = b.no.dom().choose();
        assert(b.no.contains_key(p));
        let i = choose|i: int| 0 <= i < a.len() && #[trigger] a[i].0 == p;
        let bot = a[0].0;
        assert(b.no.contains_key(bot));
        assert forall|k: u8| #[trigger] b.no.contains_key(k) implies bot <= k by {
            let j = choose|j: int| 0 <= j < a.len() && #[trigger] a[j].0 == k;
            if j > 0 {
                assert(a[0].0 < a[j].0);
            }
        }
        let t = bottom_price(b.no);
        assert(b.no.contains_key(t) && forall|k: u8| #[trigger] b.no.contains_key(k) ==> t <= k);
        assert(t <= bot && bot <= t);
    }
}

/// The prices of a list of levels.
pub open spec fn level_prices(l: Seq<(u8, i64)>) -> Seq<u8> {
    l.map_values(|x: (u8, i64)| x.0)
}

/// Law: each side lists exactly its levels, one entry per price: the sides' price sets are
/// finite, the listings hold as many entries as the sides hold levels, and a side is empty
/// exactly when its listing is.
pub proof fn lemma_levels_listed_count(b: BookView)
    ensures
        b.yes.dom().finite(),
        b.no.dom().finite(),
        levels_desc(b.yes).len() == b.yes.dom().len(),
        levels_asc(b.no).len() == b.no.dom().len(),
        b.yes.dom().is_empty() <==> levels_desc(b.yes).len() == 0,
        b.no.dom().is_empty() <==> levels_asc(b.no).len() == 0,
{
    lemma_levels_listed_in_order(b);
    lemma_listing_covers(b.yes, levels_desc(b.yes), true);
    lemma_listing_covers(b.no, levels_asc(b.no), false);
}

/// A strictly ordered listing of a map's levels that covers every level has one entry per
/// level.
proof fn lemma_listing_covers(m: Map<u8, i64>, l: Seq<(u8, i64)>, desc: bool)
    requires
        forall|i: int, j: int|
            0 <= i < j < l.len() ==> (if desc {
                #[trigger] l[i].0 > #[trigger] l[j].0
            } else {
                l[i].0 < l[j].0
            }),
        forall|i: int| 0 <= i < l.len() ==> m.contains_key(#[trigger] l[i].0),
        forall|p: u8| #[trigger] m.contains_key(p) ==> exists|i: int| 0 <= i < l.len() && #[trigger] l[i].0 == p,
    ensures
        m.dom().finite(),
        l.len() == m.dom().len(),
        m.dom().is_empty() <==> l.len() == 0,
{
    let ps = level_prices(l);
    assert forall|i: int, j: int| 0 <= i < ps.len() && 0 <= j < ps.len() && i != j implies ps[i]
        != ps[j] by {
        if i < j {
            assert(l[i].0 != l[j].0);
        } else {
            assert(l[j].0 != l[i].0);
        }
    }
    assert(ps.no_duplicates());
    ps.unique_seq_to_set();
    assert forall|p: u8| ps.to_set().contains(p) <==> m.dom().contains(p) by {
        if m.dom().contains(p) {
            let i = choose|i: int| 0 <= i < l.len() && #[trigger] l[i].0 == p;
            assert(ps[i] == p);
        }
        if ps.to_set().contains(p) {
            let i = choose|i: int| 0 <= i < ps.len() && ps[i] == p;
            assert(l[i].0 == p);
        }
    }
    assert(ps.to_set() =~= m.dom());
    vstd::seq_lib::seq_to_set_is_finite(ps);
    if m.dom().is_empty() {
        assert(m.dom() =~= Set::empty());
    }
    if l.len() > 0 {
        assert(m.dom().contains(l[0].0));
    }
}

/// The total quantity of a list of levels.
pub open spec fn listed_total(l: Seq<(u8, i64)>) -> int
    decreases l.len(),
{
    if l.len() == 0 {
        0
    } else {
        listed_total(l.drop_last()) + l.last().1
    }
}

/// The levels listed from price `n` up hold the quantity of the prices from `n` up.
proof fn lemma_desc_from_total(m: Map<u8, i64>, n: nat)
    requires
        n <= 256,
    ensures
        listed_total(levels_desc_from(m, n)) == levels_sum(m) - levels_sum_below(m, n),
    decreases 256 - n,
{
    if n < 256 {
        lemma_desc_from_total(m, n + 1);
        let rest = levels_desc_from(m, n + 1);
        if m.contains_key(n as u8) {
            assert(rest.push((n as u8, m[n as u8])).drop_last() =~= rest);
        }
        assert(levels_sum_below(m, n + 1) == levels_sum_below(m, n) + level_qty(m, n as u8));
    }
}

/// The levels listed below price `n` hold the quantity of the prices below `n`.
proof fn lemma_asc_below_total(m: Map<u8, i64>, n: nat)
    ensures
        listed_total(levels_asc_below(m, n)) == levels_sum_below(m, n),
    decreases n,
{
    if n > 0 {
        lemma_asc_below_total(m, (n - 1) as nat);
        let p = (n - 1) as u8;
        let rest = levels_asc_below(m, (n - 1) as nat);
        if m.contains_key(p) {
            assert(rest.push((p, m[p])).drop_last() =~= rest);
        }
    }
}

/// Law: the quantities a side lists add up to the side's total quantity.
pub proof fn lemma_levels_listed_total(b: BookView)
    ensures
        listed_total(levels_desc(b.yes)) == levels_sum(b.yes),
        listed_total(levels_asc(b.no)) == levels_sum(b.no),
{
    lemma_desc_from_total(b.yes, 0);
    lemma_asc_below_total(b.no, 256);
}

/// The levels of one side in the order they are taken: YES levels from the highest
/// price, NO levels from the lowest.
pub open spec fn listed_levels(b: BookView, side: Side) -> Seq<(u8, i64)> {
    match side {
        Side::Yes => levels_desc(b.yes),
        Side::No => levels_asc(b.no),
    }
}

/// The listed levels of a book with positive levels have positive quantities.
proof fn lemma_levels_listed_positive(b: BookView, side: Side)
    requires
        levels_positive(b.yes),
        levels_positive(b.no),
    ensures
        forall|k: int|
            0 <= k < listed_levels(b, side).len() ==> #[trigger] listed_levels(b, side)[k].1 > 0,
{
    lemma_levels_listed_in_order(b);
    assert forall|k: int| 0 <= k < listed_levels(b, side).len() implies #[trigger] listed_levels(
        b,
        side,
    )[k].1 > 0 by {
        match side {
            Side::Yes => assert(b.yes.contains_key(levels_desc(b.yes)[k].0)),
            Side::No => assert(b.no.contains_key(levels_asc(b.no)[k].0)),
        }
    }
}

/// The abstract state of an order book.
pub struct BookView {
    /// YES levels (bids): price -> quantity
    pub yes: Map<u8, i64>,
    /// NO levels (asks): price -> quantity
    pub no: Map<u8, i64>,
    pub last_update_ts: u64,
}

impl BookView {
    /// The best bid: the highest YES price, 0 when there is none.
    pub open spec fn best_bid_price(self) -> u8 {
        if self.yes.dom().is_empty() {
            0
        } else {
            top_price(self.yes)
        }
    }

    /// The best ask: the lowest NO price, 100 when there is none.
    pub open spec fn best_ask_price(self) -> u8 {
        if self.no.dom().is_empty() {
            100
        } else {
            bottom_price(self.no)
        }
    }

    /// Quantity on a side at a price.
    pub open spec fn qty(self, side: Side, price: u8) -> i64 {
        match side {
            Side::Yes => level_qty(self.yes, price),
            Side::No => level_qty(self.no, price),
        }
    }

    /// The book after a delta of `delta` at `price` on `side`, at time `ts`.
    pub open spec fn after_delta(self, side: Side, price: u8, delta: i64, ts: u64) -> BookView {
        let new_qty = self.qty(side, price) + delta;
        let update = |m: Map<u8, i64>|
            if new_qty <= 0 {
                m.remove(price)
            } else {
                m.insert(price, new_qty as i64)
            };
        match side {
            Side::Yes => BookView { yes: update(self.yes), no: self.no, last_update_ts: ts },
            Side::No => BookView { yes: self.yes, no: update(self.no), last_update_ts: ts },
        }
    }

    /// Whether an event can be applied without leaving the quantity range.
    pub open spec fn accepts(self, e: Event) -> bool {
        match e {
            Event::Delta { side, price, delta, .. } => i64::MIN <= self.qty(side, price) + delta
                <= i64::MAX,
            _ => true,
        }
    }

    /// The book after an event: a snapshot resets both sides, a delta changes one
    /// level, and a trade leaves the book as it was.
    pub open spec fn after_event(self, e: Event) -> BookView {
        match e {
            Event::Snapshot { ts, yes_levels, no_levels, .. } => BookView {
                yes: snapshot_levels(yes_levels@),
                no: snapshot_levels(no_levels@),
                last_update_ts: ts,
            },
            Event::Delta { ts, side, price, delta, .. } => self.after_delta(side, price, delta, ts),
            Event::Trade { .. } => self,
        }
    }

    /// The spread between best ask and best bid, 0 when the market is locked or crossed.
    pub open spec fn spread(self) -> u8 {
        if self.best_ask_price() > self.best_bid_price() {
            (self.best_ask_price() - self.best_bid_price()) as u8
        } else {
            0
        }
    }
}

/// L2 order book for Kalshi YES/NO contracts
/// YES levels are bids (best bid = highest YES price), NO levels are asks
/// (best ask = lowest NO price)
#[derive(Debug, Clone)]
pub struct OrderBook {
    /// YES side levels (bids) - price -> quantity, sorted ascending
    yes_levels: BTreeMap<u8, i64>,
    /// NO side levels (asks) - price -> quantity, sorted ascending
    no_levels: BTreeMap<u8, i64>,
    /// Last update timestamp
    last_update_ts: u64,
}

impl View for OrderBook {
    type V = BookView;

    closed spec fn view(&self) -> BookView {
        BookView { yes: self.yes_levels@, no: self.no_levels@, last_update_ts: self.last_update_ts }
    }
}

impl OrderBook {
    /// The book's invariant: every stored level holds a positive quantity.
    pub open spec fn wf(&self) -> bool {
        levels_positive(self@.yes) && levels_positive(self@.no)
    }

    /// Create a new empty orderbook
    pub fn new() -> (r: Self)
        ensures
            r.wf(),
            r@.yes == Map::<u8, i64>::empty(),
            r@.no == Map::<u8, i64>::empty(),
            r@.last_update_ts == 0,
    {
        let r = OrderBook { yes_levels: BTreeMap::new(), no_levels: BTreeMap::new(), last_update_ts: 0 };
        proof {
            assert(r@.yes == Map::<u8, i64>::empty());
        }
        r
    }
}


/// The highest level of a level map, if any.
fn top_level(m: &BTreeMap<u8, i64>) -> (r: Option<(u8, i64)>)
    ensures
        match r {
            Some((p, q)) => {
                &&& m@.contains_key(p)
                &&& m@[p] == q
                &&& p == top_price(m@)
                &&& forall|k: u8| #[trigger] m@.contains_key(k) ==> k <= p
            },
            None => m@.dom().is_empty(),
        },
{
    let mut p: u16 = 256;
    while p > 0
        invariant
            p <= 256,
            forall|k: u8| #[trigger] m@.contains_key(k) ==> k < p,
        decreases p,
    {
        p = p - 1;
        let k = p as u8;
        match m.get(&k) {
            Some(q) => {
                proof {
                    assert(m@.contains_key(k) && forall|j: u8| #[trigger] m@.contains_key(j) ==> j
                        <= k);
                    let c = top_price(m@);
                    assert(m@.contains_key(c) && forall|j: u8| #[trigger] m@.contains_key(j) ==> j
                        <= c);
                    assert(c <= k && k <= c);
                }
                return Some((k, *q));
            },
            None => {},
        }
    }
    assert(m@.dom() =~= Set::<u8>::empty());
    None
}

/// Reset a level map from snapshot pairs.
fn fill_levels(m: &mut BTreeMap<u8, i64>, levels: &Vec<(u8, i64)>)
    ensures
        final(m)@ == snapshot_levels(levels@),
{
    m.clear();
    let mut i: usize = 0;
    while i < levels.len()
        invariant
            0 <= i <= levels.len(),
            m@ == snapshot_levels(levels@.take(i as int)),
        decreases levels.len() - i,
    {
        let (p, q) = levels[i];
        if q > 0 {
            m.insert(p, q);
        }
        assert(levels@.take(i + 1).drop_last() =~= levels@.take(i as int));
        i = i + 1;
    }
    assert(levels@.take(levels.len() as int) =~= levels@);
}

/// Snapshot maps only hold positive quantities.
proof fn lemma_snapshot_levels_positive(s: Seq<(u8, i64)>)
    ensures
        levels_positive(snapshot_levels(s)),
    decreases s.len(),
{
    if s.len() > 0 {
        lemma_snapshot_levels_positive(s.drop_last());
    }
}

/// Apply a quantity change to one level map.
fn apply_level_delta(m: &mut BTreeMap<u8, i64>, price: u8, delta: i64)
    requires
        i64::MIN <= level_qty(old(m)@, price) + delta <= i64::MAX,
    ensures
        final(m)@ == (if level_qty(old(m)@, price) + delta <= 0 {
            old(m)@.remove(price)
        } else {
            old(m)@.insert(price, (level_qty(old(m)@, price) + delta) as i64)
        }),
{
    let current_qty = match m.get(&price) {
        Some(q) => *q,
        None => 0,
    };
    let new_qty = current_qty + delta;
    if new_qty <= 0 {
        m.remove(&price);
    } else {
        m.insert(price, new_qty);
    }
}

/// The levels of a map, highest price first.
fn levels_from_top(m: &BTreeMap<u8, i64>) -> (r: Vec<(u8, i64)>)
    ensures
        r@ == levels_desc(m@),
{
    let mut r: Vec<(u8, i64)> = Vec::new();
    let mut p: u16 = 256;
    while p > 0
        invariant
            p <= 256,
            r@ == levels_desc_from(m@, p as nat),
        decreases p,
    {
        p = p - 1;
        let k = p as u8;
        match m.get(&k) {
            Some(q) => {
                r.push((k, *q));
            },
            None => {},
        }
    }
    r
}

/// The levels of a map, lowest price first.
fn levels_from_bottom(m: &BTreeMap<u8, i64>) -> (r: Vec<(u8, i64)>)
    ensures
        r@ == levels_asc(m@),
{
    let mut r: Vec<(u8, i64)> = Vec::new();
    let mut p: u16 = 0;
    while p < 256
        invariant
            p <= 256,
            r@ == levels_asc_below(m@, p as nat),
        decreases 256 - p,
    {
        let k = p as u8;
        match m.get(&k) {
            Some(q) => {
                r.push((k, *q));
            },
            None => {},
        }
        p = p + 1;
    }
    r
}

/// The lowest level of a level map, if any.
fn bottom_level(m: &BTreeMap<u8, i64>) -> (r: Option<(u8, i64)>)
    ensures
        match r {
            Some((p, q)) => {
                &&& m@.contains_key(p)
                &&& m@[p] == q
                &&& p == bottom_price(m@)
                &&& forall|k: u8| #[trigger] m@.contains_key(k) ==> p <= k
            },
            None => m@.dom().is_empty(),
        },
{
    let mut p: u16 = 0;
    while p < 256
        invariant
            p <= 256,
            forall|k: u8| #[trigger] m@.contains_key(k) ==> p <= k,
        decreases 256 - p,
    {
        let k = p as u8;
        match m.get(&k) {
            Some(q) => {
                proof {
                    assert(m@.contains_key(k) && forall|j: u8| #[trigger] m@.contains_key(j) ==> k
                        <= j);
                    let c = bottom_price(m@);
                    assert(m@.contains_key(c) && forall|j: u8| #[trigger] m@.contains_key(j) ==> c
                        <= j);
                    assert(c <= k && k <= c);
                }
                return Some((k, *q));
            },
            None => {},
        }
        p = p + 1;
    }
    assert(m@.dom() =~= Set::<u8>::empty());
    None
}

/// The sum of all quantities of a level map.
fn levels_total(m: &BTreeMap<u8, i64>) -> (r: i64)
    requires
        levels_positive(m@),
        levels_sum(m@) <= i64::MAX,
    ensures
        r == levels_sum(m@),
{
    let mut total: i64 = 0;
    let mut p: u16 = 0;
    while p < 256
        invariant
            p <= 256,
            levels_positive(m@),
            levels_sum(m@) <= i64::MAX,
            total == levels_sum_below(m@, p as nat),
        decreases 256 - p,
    {
        proof {
            lemma_levels_sum_monotone(m@, (p + 1) as nat, 256);
        }
        match m.get(&(p as u8)) {
            Some(q) => {
                total = total + *q;
            },
            None => {},
        }
        p = p + 1;
    }
    total
}

/// Partial sums of positive levels grow with the price bound.
proof fn lemma_levels_sum_monotone(m: Map<u8, i64>, a: nat, b: nat)
    requires
        levels_positive(m),
        a <= b,
    ensures
        levels_sum_below(m, a) <= levels_sum_below(m, b),
        levels_sum_below(m, a) >= 0,
    decreases b,
{
    if a < b {
        lemma_levels_sum_monotone(m, a, (b - 1) as nat);
    } else if a > 0 {
        lemma_levels_sum_monotone(m, (a - 1) as nat, (a - 1) as nat);
    }
}

/// A copy of a vector of levels.
fn copy_levels(v: &Vec<(u8, i64)>) -> (r: Vec<(u8, i64)>)
    ensures
        r@ == v@,
{
    let mut r: Vec<(u8, i64)> = Vec::new();
    let mut i: usize = 0;
    while i < v.len()
        invariant
            0 <= i <= v.len(),
            r@ == v@.take(i as int),
        decreases v.len() - i,
    {
        r.push(v[i]);
        assert(r@ =~= v@.take(i + 1));
        i = i + 1;
    }
    assert(v@.take(v.len() as int) =~= v@);
    r
}

impl OrderBook {
    /// Apply a snapshot event to reset the orderbook
    pub fn apply_snapshot(&mut self, yes_levels: Vec<(u8, i64)>, no_levels: Vec<(u8, i64)>, ts: u64)
        ensures
            final(self).wf(),
            final(self)@.yes == snapshot_levels(yes_levels@),
            final(self)@.no == snapshot_levels(no_levels@),
            final(self)@.last_update_ts == ts,
    {
        fill_levels(&mut self.yes_levels, &yes_levels);
        fill_levels(&mut self.no_levels, &no_levels);
        self.last_update_ts = ts;
        proof {
            lemma_snapshot_levels_positive(yes_levels@);
            lemma_snapshot_levels_positive(no_levels@);
        }
    }

    /// Apply a delta event to update a single price level: the level's quantity
    /// changes by `delta`, and the level is removed when it drops to zero or below.
    pub fn apply_delta(&mut self, side: Side, price: u8, delta: i64, ts: u64)
        requires
            old(self).wf(),
            i64::MIN <= old(self)@.qty(side, price) + delta <= i64::MAX,
        ensures
            final(self).wf(),
            final(self)@ == old(self)@.after_delta(side, price, delta, ts),
    {
        match side {
            Side::Yes => apply_level_delta(&mut self.yes_levels, price, delta),
            Side::No => apply_level_delta(&mut self.no_levels, price, delta),
        }
        self.last_update_ts = ts;
    }

    /// Get the best bid and ask prices in cents
    /// Returns (bid_price, ask_price) where:
    /// - bid_price is the highest YES price (best bid), 0 without bids
    /// - ask_price is the lowest NO price (best ask), 100 without asks
    pub fn best_bid_ask(&self) -> (r: (u8, u8))
        ensures
            r == (self@.best_bid_price(), self@.best_ask_price()),
    {
        let best_bid = match top_level(&self.yes_levels) {
            Some((p, _)) => p,
            None => 0,
        };
        let best_ask = match bottom_level(&self.no_levels) {
            Some((p, _)) => p,
            None => 100,
        };
        (best_bid, best_ask)
    }

    /// Get the best bid price and quantity
    pub fn best_bid(&self) -> (r: Option<(u8, i64)>)
        ensures
            match r {
                Some((p, q)) => !self@.yes.dom().is_empty() && p == top_price(self@.yes) && q
                    == self@.yes[p],
                None => self@.yes.dom().is_empty(),
            },
    {
        top_level(&self.yes_levels)
    }

    /// Get the best ask price and quantity
    pub fn best_ask(&self) -> (r: Option<(u8, i64)>)
        ensures
            match r {
                Some((p, q)) => !self@.no.dom().is_empty() && p == bottom_price(self@.no) && q
                    == self@.no[p],
                None => self@.no.dom().is_empty(),
            },
    {
        bottom_level(&self.no_levels)
    }

    /// Get quantity available at a specific price and side
    pub fn get_quantity(&self, side: Side, price: u8) -> (r: i64)
        ensures
            r == self@.qty(side, price),
    {
        let m = match side {
            Side::Yes => &self.yes_levels,
            Side::No => &self.no_levels,
        };
        match m.get(&price) {
            Some(q) => *q,
            None => 0,
        }
    }

    /// Get all YES levels (bids) as a vector sorted by price descending
    pub fn get_yes_levels(&self) -> (r: Vec<(u8, i64)>)
        ensures
            r@ == levels_desc(self@.yes),
    {
        levels_from_top(&self.yes_levels)
    }

    /// Get all NO levels (asks) as a vector sorted by price ascending (best ask first)
    pub fn get_no_levels(&self) -> (r: Vec<(u8, i64)>)
        ensures
            r@ == levels_asc(self@.no),
    {
        levels_from_bottom(&self.no_levels)
    }

    /// Get the spread in cents
    pub fn spread(&self) -> (r: u8)
        ensures
            r == self@.spread(),
    {
        let (bid, ask) = self.best_bid_ask();
        if ask > bid {
            ask - bid
        } else {
            0
        }
    }

    /// Get the timestamp of the last update
    pub fn last_update_ts(&self) -> (r: u64)
        ensures
            r == self@.last_update_ts,
    {
        self.last_update_ts
    }

    /// Check if the book is empty
    pub fn is_empty(&self) -> (r: bool)
        ensures
            r == (self@.yes.dom().is_empty() && self@.no.dom().is_empty()),
    {
        self.yes_levels.is_empty() && self.no_levels.is_empty()
    }

    /// Get the total quantity on the YES side
    pub fn total_yes_quantity(&self) -> (r: i64)
        requires
            self.wf(),
            levels_sum(self@.yes) <= i64::MAX,
        ensures
            r == levels_sum(self@.yes),
    {
        levels_total(&self.yes_levels)
    }

    /// Get the total quantity on the NO side
    pub fn total_no_quantity(&self) -> (r: i64)
        requires
            self.wf(),
            levels_sum(self@.no) <= i64::MAX,
        ensures
            r == levels_sum(self@.no),
    {
        levels_total(&self.no_levels)
    }

    /// What taking up to `quantity` contracts from the best levels of a side costs: the
    /// total price paid and the number of contracts taken (YES levels from the highest
    /// price, NO levels from the lowest).
    pub fn sweep_cost(&self, side: Side, quantity: i64) -> (r: (i128, i64))
        requires
            self.wf(),
        ensures
            r.0 == sweep(listed_levels(self@, side), quantity as int).0,
            r.1 == sweep(listed_levels(self@, side), quantity as int).1,
    {
        let levels = match side {
            Side::Yes => self.get_yes_levels(),
            Side::No => self.get_no_levels(),
        };
        let ghost ls = levels@;
        proof {
            assert(ls == listed_levels(self@, side));
            lemma_levels_listed_positive(self@, side);
            assert(ls.skip(0) =~= ls);
        }
        let n = levels.len();
        let mut cost: i128 = 0;
        let mut taken: i64 = 0;
        let mut remaining: i64 = quantity;
        let mut i: usize = 0;
        while i < n
            invariant
                0 <= i <= n,
                n == ls.len(),
                ls == levels@,
                forall|k: int| 0 <= k < ls.len() ==> #[trigger] ls[k].1 > 0,
                sweep(ls, quantity as int) == (cost + sweep(ls.skip(i as int), remaining as int).0,
                taken + sweep(ls.skip(i as int), remaining as int).1),
                0 <= taken,
                remaining > 0 ==> taken + remaining == quantity,
                remaining <= 0 ==> (remaining == quantity || remaining == 0),
                0 <= cost <= 255 * taken,
                taken <= (if quantity > 0 {
                    quantity as int
                } else {
                    0
                }),
            decreases n - i,
        {
            if remaining <= 0 {
                proof {
                    assert(sweep(ls.skip(i as int), remaining as int) == (0int, 0int));
                    assert(sweep(ls.skip(n as int), remaining as int) == (0int, 0int));
                }
                i = n;
            } else {
                let (price, qty) = levels[i];
                let take: i64 = if remaining <= qty {
                    remaining
                } else {
                    qty
                };
                proof {
                    let t = ls.skip(i as int);
                    assert(t[0] == ls[i as int]);
                    assert(t.drop_first() =~= ls.skip(i + 1));
                    assert(0 <= price * take <= 255 * take) by (nonlinear_arith)
                        requires
                            0 <= price <= 255,
                            0 <= take,
                    ;
                }
                cost = cost + price as i128 * take as i128;
                taken = taken + take;
                remaining = remaining - take;
                i = i + 1;
            }
        }
        proof {
            assert(ls.skip(n as int) =~= Seq::<(u8, i64)>::empty());
        }
        (cost, taken)
    }

    /// Get the number of YES levels (bids)
    pub fn yes_level_count(&self) -> (r: usize)
        ensures
            r == self@.yes.dom().len(),
    {
        self.yes_levels.len()
    }

    /// Get the number of NO levels (asks)
    pub fn no_level_count(&self) -> (r: usize)
        ensures
            r == self@.no.dom().len(),
    {
        self.no_levels.len()
    }
}

/// Update an orderbook with an event (snapshot, delta, or trade)
pub fn update_book_with_event(book: &mut OrderBook, event: &Event)
    requires
        old(book).wf(),
        old(book)@.accepts(*event),
    ensures
        final(book).wf(),
        final(book)@ == old(book)@.after_event(*event),
{
    match event {
        Event::Snapshot { yes_levels, no_levels, ts, .. } => {
            book.apply_snapshot(copy_levels(yes_levels), copy_levels(no_levels), *ts);
        },
        Event::Delta { side, price, delta, ts, .. } => {
            book.apply_delta(*side, *price, *delta, *ts);
        },
        Event::Trade { .. } => {
            // Trades don't update the orderbook directly
        },
    }
}

impl Default for OrderBook {
    fn default() -> (r: Self)
        ensures
            r.wf(),
            r@.yes == Map::<u8, i64>::empty(),
            r@.no == Map::<u8, i64>::empty(),
            r@.last_update_ts == 0,
    {
        Self::new()
    }
}


/// The listed entries of a book with positive levels are its positive levels, each price
/// once, and every positive level is listed.
proof fn lemma_listed_entries(b: BookView)
    requires
        levels_positive(b.yes),
        levels_positive(b.no),
    ensures
        forall|i: int|
            0 <= i < levels_desc(b.yes).len() ==> #[trigger] levels_desc(b.yes)[i].1 > 0
                && b.qty(Side::Yes, levels_desc(b.yes)[i].0) == levels_desc(b.yes)[i].1,
        forall|i: int|
            0 <= i < levels_asc(b.no).len() ==> #[trigger] levels_asc(b.no)[i].1 > 0 && b.qty(
                Side::No,
                levels_asc(b.no)[i].0,
            ) == levels_asc(b.no)[i].1,
        forall|p: u8|
            #[trigger] b.qty(Side::Yes, p) > 0 ==> exists|i: int|
                0 <= i < levels_desc(b.yes).len() && #[trigger] levels_desc(b.yes)[i].0 == p,
        forall|p: u8|
            #[trigger] b.qty(Side::No, p) > 0 ==> exists|i: int|
                0 <= i < levels_asc(b.no).len() && #[trigger] levels_asc(b.no)[i].0 == p,
{
    lemma_levels_listed_in_order(b);
    let d = levels_desc(b.yes);
    let a = levels_asc(b.no);
    assert forall|i: int| 0 <= i < d.len() implies #[trigger] d[i].1 > 0 && b.qty(
        Side::Yes,
        d[i].0,
    ) == d[i].1 by {
        assert(b.yes.contains_key(d[i].0));
    }
    assert forall|i: int| 0 <= i < a.len() implies #[trigger] a[i].1 > 0 && b.qty(
        Side::No,
        a[i].0,
    ) == a[i].1 by {
        assert(b.no.contains_key(a[i].0));
    }
    assert forall|p: u8| #[trigger] b.qty(Side::Yes, p) > 0 implies exists|i: int|
        0 <= i < d.len() && #[trigger] d[i].0 == p by {
        assert(b.yes.contains_key(p));
    }
    assert forall|p: u8| #[trigger] b.qty(Side::No, p) > 0 implies exists|i: int|
        0 <= i < a.len() && #[trigger] a[i].0 == p by {
        assert(b.no.contains_key(p));
    }
}

/// The first listed levels are the best bid and ask, with their quantities.
proof fn lemma_listed_best(b: BookView)
    ensures
        b.best_bid_price() == (if levels_desc(b.yes).len() > 0 {
            levels_desc(b.yes)[0].0
        } else {
            0
        }),
        b.best_ask_price() == (if levels_asc(b.no).len() > 0 {
            levels_asc(b.no)[0].0
        } else {
            100
        }),
        levels_desc(b.yes).len() > 0 ==> levels_desc(b.yes)[0] == (
            top_price(b.yes),
            b.yes[top_price(b.yes)],
        ),
        levels_asc(b.no).len() > 0 ==> levels_asc(b.no)[0] == (
            bottom_price(b.no),
            b.no[bottom_price(b.no)],
        ),
{
    lemma_levels_listed_in_order(b);
    lemma_levels_listed_count(b);
}

/// Law: a book with positive levels (every book this library makes or updates keeps them
/// positive) lists its levels as its accessors state them: the YES levels once each,
/// highest price first, and the NO levels once each, lowest price first; every listed
/// quantity is positive and is the book's quantity at that price; every price with a
/// positive quantity is listed; each listing holds as many entries as its side has levels
/// and adds up to the side's total; the book is empty exactly when both sides count no
/// level; and the best bid and ask are the prices first listed, with their quantities
/// (0 and 100 for an empty side).
pub proof fn lemma_book_listings(b: BookView)
    requires
        levels_positive(b.yes),
        levels_positive(b.no),
    ensures
        forall|i: int, j: int|
            0 <= i < j < levels_desc(b.yes).len() ==> #[trigger] levels_desc(b.yes)[i].0
                > #[trigger] levels_desc(b.yes)[j].0,
        forall|i: int, j: int|
            0 <= i < j < levels_asc(b.no).len() ==> #[trigger] levels_asc(b.no)[i].0
                < #[trigger] levels_asc(b.no)[j].0,
        forall|i: int|
            0 <= i < levels_desc(b.yes).len() ==> #[trigger] levels_desc(b.yes)[i].1 > 0
                && b.qty(Side::Yes, levels_desc(b.yes)[i].0) == levels_desc(b.yes)[i].1,
        forall|i: int|
            0 <= i < levels_asc(b.no).len() ==> #[trigger] levels_asc(b.no)[i].1 > 0 && b.qty(
                Side::No,
                levels_asc(b.no)[i].0,
            ) == levels_asc(b.no)[i].1,
        forall|p: u8|
            #[trigger] b.qty(Side::Yes, p) > 0 ==> exists|i: int|
                0 <= i < levels_desc(b.yes).len() && #[trigger] levels_desc(b.yes)[i].0 == p,
        forall|p: u8|
            #[trigger] b.qty(Side::No, p) > 0 ==> exists|i: int|
                0 <= i < levels_asc(b.no).len() && #[trigger] levels_asc(b.no)[i].0 == p,
        levels_desc(b.yes).len() == b.yes.dom().len(),
        levels_asc(b.no).len() == b.no.dom().len(),
        listed_total(levels_desc(b.yes)) == levels_sum(b.yes),
        listed_total(levels_asc(b.no)) == levels_sum(b.no),
        (b.yes.dom().is_empty() && b.no.dom().is_empty()) <==> (b.yes.dom().len() == 0
            && b.no.dom().len() == 0),
        b.best_bid_price() == (if levels_desc(b.yes).len() > 0 {
            levels_desc(b.yes)[0].0
        } else {
            0
        }),
        b.best_ask_price() == (if levels_asc(b.no).len() > 0 {
            levels_asc(b.no)[0].0
        } else {
            100
        }),
        levels_desc(b.yes).len() > 0 ==> levels_desc(b.yes)[0] == (
            top_price(b.yes),
            b.yes[top_price(b.yes)],
        ),
        levels_asc(b.no).len() > 0 ==> levels_asc(b.no)[0] == (
            bottom_price(b.no),
            b.no[bottom_price(b.no)],
        ),
{
    lemma_levels_listed_in_order(b);
    lemma_levels_listed_count(b);
    lemma_levels_listed_total(b);
    lemma_listed_entries(b);
    lemma_listed_best(b);
}

/// Law: a snapshot whose prices are distinct sets each listed price to its quantity when
/// that is positive, to nothing otherwise, and every price it does not list to nothing.
pub proof fn lemma_snapshot_lookup(s: Seq<(u8, i64)>, p: u8)
    requires
        forall|i: int, j: int| 0 <= i < j < s.len() ==> #[trigger] s[i].0 != #[trigger] s[j].0,
    ensures
        forall|i: int|
            0 <= i < s.len() && #[trigger] s[i].0 == p ==> level_qty(snapshot_levels(s), p) == (
            if s[i].1 > 0 {
                s[i].1
            } else {
                0
            }),
        (forall|i: int| 0 <= i < s.len() ==> #[trigger] s[i].0 != p) ==> level_qty(
            snapshot_levels(s),
            p,
        ) == 0,
    decreases s.len(),
{
    if s.len() > 0 {
        let t = s.drop_last();
        assert forall|i: int, j: int| 0 <= i < j < t.len() implies #[trigger] t[i].0
            != #[trigger] t[j].0 by {
            assert(t[i] == s[i] && t[j] == s[j]);
        }
        lemma_snapshot_lookup(t, p);
        let n = s.len() - 1;
        assert forall|i: int| 0 <= i < s.len() && #[trigger] s[i].0 == p implies level_qty(
            snapshot_levels(s),
            p,
        ) == (if s[i].1 > 0 {
            s[i].1
        } else {
            0
        }) by {
            if i < n {
                assert(t[i] == s[i]);
                assert(s[i].0 != s[n].0);
            } else {
                assert forall|k: int| 0 <= k < t.len() implies #[trigger] t[k].0 != p by {
                    assert(t[k] == s[k]);
                    assert(s[k].0 != s[n].0);
                }
            }
        }
        if forall|i: int| 0 <= i < s.len() ==> #[trigger] s[i].0 != p {
            assert forall|k: int| 0 <= k < t.len() implies #[trigger] t[k].0 != p by {
                assert(t[k] == s[k]);
            }
            assert(s[n].0 != p);
        }
    }
}

/// Law: an event updates a book as the matching operation does: a snapshot as
/// `apply_snapshot` with its levels and time, a delta as `apply_delta` with its side,
/// price, change and time, and a trade not at all.
pub proof fn lemma_event_as_operation(b: BookView, e: Event)
    ensures
        match e {
            Event::Snapshot { yes_levels, no_levels, ts, .. } => b.after_event(e) == (BookView {
                yes: snapshot_levels(yes_levels@),
                no: snapshot_levels(no_levels@),
                last_update_ts: ts,
            }),
            Event::Delta { side, price, delta, ts, .. } => b.after_event(e) == b.after_delta(
                side,
                price,
                delta,
                ts,
            ),
            Event::Trade { .. } => b.after_event(e) == b,
        },
{
}

/// Law: a snapshot replaces the whole book: two books given the same snapshot are equal,
/// whatever they held before.
pub proof fn lemma_snapshot_determines_book(b1: BookView, b2: BookView, e: Event)
    requires
        e is Snapshot,
    ensures
        b1.after_event(e) == b2.after_event(e),
{
}

/// Law: a trade leaves the book as it was.
pub proof fn lemma_trade_leaves_book(b: BookView, e: Event)
    requires
        e is Trade,
    ensures
        b.after_event(e) == b,
{
}

/// Law: every event that a book accepts keeps its levels positive.
pub proof fn lemma_event_keeps_levels_positive(b: BookView, e: Event)
    requires
        levels_positive(b.yes),
        levels_positive(b.no),
        b.accepts(e),
    ensures
        levels_positive(b.after_event(e).yes),
        levels_positive(b.after_event(e).no),
{
    match e {
        Event::Snapshot { yes_levels, no_levels, .. } => {
            lemma_snapshot_levels_positive(yes_levels@);
            lemma_snapshot_levels_positive(no_levels@);
        },
        Event::Delta { side, price, delta, ts, .. } => {
            let nb = b.after_delta(side, price, delta, ts);
            assert forall|p: u8| #[trigger] nb.yes.contains_key(p) implies nb.yes[p] > 0 by {
                if p != price {
                    assert(b.yes.contains_key(p));
                }
            }
            assert forall|p: u8| #[trigger] nb.no.contains_key(p) implies nb.no[p] > 0 by {
                if p != price {
                    assert(b.no.contains_key(p));
                }
            }
        },
        _ => {},
    }
}

/// Law: a delta followed by the opposite delta at the same level gives back the book's
/// levels, as long as the first one leaves the level standing.
pub proof fn lemma_delta_then_inverse(
    b: BookView,
    side: Side,
    price: u8,
    delta: i64,
    ts1: u64,
    ts2: u64,
)
    requires
        levels_positive(b.yes),
        levels_positive(b.no),
        0 < b.qty(side, price) + delta <= i64::MAX,
        delta > i64::MIN,
    ensures
        b.after_delta(side, price, delta, ts1).after_delta(side, price, -delta as i64, ts2).yes
            == b.yes,
        b.after_delta(side, price, delta, ts1).after_delta(side, price, -delta as i64, ts2).no
            == b.no,
{
    let q = b.qty(side, price);
    let b1 = b.after_delta(side, price, delta, ts1);
    let b2 = b1.after_delta(side, price, -delta as i64, ts2);
    assert(b1.qty(side, price) == q + delta);
    assert(b1.qty(side, price) + (-delta as i64) == q);
    match side {
        Side::Yes => {
            assert(b1.yes == b.yes.insert(price, (q + delta) as i64));
            assert(b2.no == b.no);
            if b.yes.contains_key(price) {
                assert(b2.yes == b1.yes.insert(price, q));
                assert(b2.yes =~= b.yes);
            } else {
                assert(b2.yes == b1.yes.remove(price));
                assert(b2.yes =~= b.yes);
            }
        },
        Side::No => {
            assert(b1.no == b.no.insert(price, (q + delta) as i64));
            assert(b2.yes == b.yes);
            if b.no.contains_key(price) {
                assert(b2.no == b1.no.insert(price, q));
                assert(b2.no =~= b.no);
            } else {
                assert(b2.no == b1.no.remove(price));
                assert(b2.no =~= b.no);
            }
        },
    }
}

} // verus!
