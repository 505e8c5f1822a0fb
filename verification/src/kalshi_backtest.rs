//! A high-level interface for running a backtest over a stream of market events.

use crate::kalshi_exec_sim::{
    fills_from_audit, processed_events, replay_accepts, run_backtest, run_stopped,
    trade_price_valid, traced_report, EngineError,
};
use crate::kalshi_strategy::KalshiStrategy;
use crate::kalshi_types::{Event, Metrics, Report, SimConfig};
use vstd::prelude::*;

verus! {

/// High-level interface for running a Kalshi backtest
pub struct KalshiBacktest {
    config: SimConfig,
}

impl View for KalshiBacktest {
    type V = SimConfig;

    closed spec fn view(&self) -> SimConfig {
        self.config
    }
}

impl KalshiBacktest {
    /// Create a new Kalshi backtest with the given configuration
    pub fn new(config: SimConfig) -> (r: Self)
        ensures
            r@ == config,
    {
        Self { config }
    }

    /// Run a backtest with pre-loaded events. Whatever the strategy does, the run's books
    /// are those replayed from the processed events, and it fails on a book overflow only
    /// when that replay overflows.
    pub fn run_with_events<S: KalshiStrategy>(
        &self,
        events: Vec<Event>,
        strategy: &mut S,
    ) -> (r: Result<Report, EngineError>)
        requires
            forall|i: int| 0 <= i < events@.len() ==> trade_price_valid(#[trigger] events@[i]),
        ensures
            r is Ok ==> replay_accepts(Map::empty(), processed_events(events@, self@)),
            r == Err::<Report, EngineError>(EngineError::BookOverflow) ==> !replay_accepts(
                Map::empty(),
                processed_events(events@, self@),
            ),
            r matches Ok(report) ==> report.fills@ == fills_from_audit(report.orders@)
                && report.metrics.total_orders == report.orders@.len(),
            r matches Ok(report) ==> traced_report(
                self@,
                events@,
                report,
                *old(strategy),
                *final(strategy),
            ),
            events@.len() == 0 ==> r is Ok,
            processed_events(events@, self@).len() == 0 ==> r is Ok,
            r is Err && r != Err::<Report, EngineError>(EngineError::BookOverflow) ==> run_stopped(
                self@,
                events@,
                *old(strategy),
            ),
    {
        run_backtest(self.config, strategy, events)
    }
}

/// Totals over the backtests of several markets.
#[derive(Debug, Clone, Copy, PartialEq, Eq)]
pub struct MarketTotals {
    pub total_markets: usize,
    /// Markets with a positive gross profit.
    pub profitable_markets: usize,
    pub total_gross_pnl_cents: i64,
    pub total_volume: i64,
    pub total_fills: usize,
    pub total_orders: usize,
    pub total_cancelled: usize,
    pub total_expired: usize,
    /// The first market with the highest gross profit.
    pub best_market: Option<usize>,
    /// The first market with the lowest gross profit.
    pub worst_market: Option<usize>,
}

/// The sum of a quantity over the metrics of several markets.
pub open spec fn sum_of(ms: Seq<Metrics>, f: spec_fn(Metrics) -> int) -> int
    decreases ms.len(),
{
    if ms.len() == 0 {
        0
    } else {
        sum_of(ms.drop_last(), f) + f(ms.last())
    }
}

/// The number of markets with a positive gross profit.
pub open spec fn profitable_count(ms: Seq<Metrics>) -> int
    decreases ms.len(),
{
    if ms.len() == 0 {
        0
    } else {
        profitable_count(ms.drop_last()) + if ms.last().gross_pnl_cents > 0 {
            1int
        } else {
            0
        }
    }
}

/// Law: the profitable markets are exactly those with a strictly positive gross profit; a
/// market that breaks even or loses is not counted.
pub proof fn lemma_profitable_markets(ms: Seq<Metrics>)
    ensures
        profitable_count(ms) == ms.filter(|m: Metrics| m.gross_pnl_cents > 0).len(),
    decreases ms.len(),
{
    if ms.len() > 0 {
        let p = |m: Metrics| m.gross_pnl_cents > 0;
        lemma_profitable_markets(ms.drop_last());
        ms.drop_last().lemma_filter_push(ms.last(), p);
        assert(ms.drop_last().push(ms.last()) =~= ms);
    }
}

/// The position of the first market with the highest (when `highest`) or lowest gross
/// profit, or -1 when there is none.
pub open spec fn extreme_index(ms: Seq<Metrics>, highest: bool) -> int
    decreases ms.len(),
{
    if ms.len() == 0 {
        -1
    } else {
        let k = extreme_index(ms.drop_last(), highest);
        let p = ms.last().gross_pnl_cents;
        if k < 0 || (highest && p > ms[k].gross_pnl_cents) || (!highest && p
            < ms[k].gross_pnl_cents) {
            ms.len() - 1
        } else {
            k
        }
    }
}

/// The market `extreme_index` picks is a first one with the highest (lowest) gross profit.
proof fn lemma_extreme_index(ms: Seq<Metrics>, highest: bool)
    ensures
        ms.len() == 0 ==> extreme_index(ms, highest) == -1,
        ms.len() > 0 ==> 0 <= extreme_index(ms, highest) < ms.len(),
        ms.len() > 0 ==> forall|j: int|
            0 <= j < ms.len() ==> if highest {
                #[trigger] ms[j].gross_pnl_cents <= ms[extreme_index(ms, highest)].gross_pnl_cents
            } else {
                ms[j].gross_pnl_cents >= ms[extreme_index(ms, highest)].gross_pnl_cents
            },
        ms.len() > 0 ==> forall|j: int|
            0 <= j < extreme_index(ms, highest) ==> if highest {
                #[trigger] ms[j].gross_pnl_cents < ms[extreme_index(ms, highest)].gross_pnl_cents
            } else {
                ms[j].gross_pnl_cents > ms[extreme_index(ms, highest)].gross_pnl_cents
            },
    decreases ms.len(),
{
    if ms.len() > 0 {
        let t = ms.drop_last();
        lemma_extreme_index(t, highest);
        assert forall|j: int| 0 <= j < t.len() implies t[j] == ms[j] by {}
    }
}

/// Law: the best market is the first one with the highest gross profit and the worst the
/// first one with the lowest: there is one exactly when there is a market, no market does
/// better (worse), and every market before it does strictly worse (better).
pub proof fn lemma_best_and_worst_markets(ms: Seq<Metrics>)
    ensures
        (extreme_index(ms, true) >= 0) == (ms.len() > 0),
        (extreme_index(ms, false) >= 0) == (ms.len() > 0),
        ms.len() > 0 ==> extreme_index(ms, true) < ms.len() && extreme_index(ms, false) < ms.len(),
        forall|j: int|
            0 <= j < ms.len() ==> #[trigger] ms[j].gross_pnl_cents <= ms[extreme_index(
                ms,
                true,
            )].gross_pnl_cents && ms[j].gross_pnl_cents >= ms[extreme_index(
                ms,
                false,
            )].gross_pnl_cents,
        forall|j: int|
            0 <= j < extreme_index(ms, true) ==> #[trigger] ms[j].gross_pnl_cents < ms[extreme_index(
                ms,
                true,
            )].gross_pnl_cents,
        forall|j: int|
            0 <= j < extreme_index(ms, false) ==> #[trigger] ms[j].gross_pnl_cents > ms[extreme_index(
                ms,
                false,
            )].gross_pnl_cents,
{
    lemma_extreme_index(ms, true);
    lemma_extreme_index(ms, false);
}

/// The totals of several markets' metrics, when they fit their types.
pub open spec fn market_totals(ms: Seq<Metrics>) -> Option<MarketTotals> {
    let pnl = sum_of(ms, |m: Metrics| m.gross_pnl_cents as int);
    let volume = sum_of(ms, |m: Metrics| m.volume_traded as int);
    let fills = sum_of(ms, |m: Metrics| m.total_fills as int);
    let orders = sum_of(ms, |m: Metrics| m.total_orders as int);
    let cancelled = sum_of(ms, |m: Metrics| m.cancelled_orders as int);
    let expired = sum_of(ms, |m: Metrics| m.expired_orders as int);
    if i64::MIN <= pnl <= i64::MAX && i64::MIN <= volume <= i64::MAX && fills <= usize::MAX
        && orders <= usize::MAX && cancelled <= usize::MAX && expired <= usize::MAX {
        let best = extreme_index(ms, true);
        let worst = extreme_index(ms, false);
        Some(
            MarketTotals {
                total_markets: ms.len() as usize,
                profitable_markets: profitable_count(ms) as usize,
                total_gross_pnl_cents: pnl as i64,
                total_volume: volume as i64,
                total_fills: fills as usize,
                total_orders: orders as usize,
                total_cancelled: cancelled as usize,
                total_expired: expired as usize,
                best_market: if best < 0 {
                    None
                } else {
                    Some(best as usize)
                },
                worst_market: if worst < 0 {
                    None
                } else {
                    Some(worst as usize)
                },
            },
        )
    } else {
        None
    }
}

/// The profitable markets are at most all of them.
proof fn lemma_profitable_count_bounds(ms: Seq<Metrics>)
    ensures
        0 <= profitable_count(ms) <= ms.len(),
    decreases ms.len(),
{
    if ms.len() > 0 {
        lemma_profitable_count_bounds(ms.drop_last());
    }
}

/// The extreme market lies among the markets.
proof fn lemma_extreme_index_bounds(ms: Seq<Metrics>, highest: bool)
    ensures
        -1 <= extreme_index(ms, highest) < ms.len(),
        ms.len() > 0 ==> extreme_index(ms, highest) >= 0,
    decreases ms.len(),
{
    if ms.len() > 0 {
        lemma_extreme_index_bounds(ms.drop_last(), highest);
    }
}

/// Aggregate the metrics of several markets' backtests: totals, the number of profitable
/// markets, and the first markets with the highest and lowest gross profit. `None` when a
/// total does not fit its type.
pub fn aggregate_metrics(ms: &Vec<Metrics>) -> (r: Option<MarketTotals>)
    ensures
        r == market_totals(ms@),
{
    let ghost s = ms@;
    let mut pnl: i128 = 0;
    let mut volume: i128 = 0;
    let mut fills: u128 = 0;
    let mut orders: u128 = 0;
    let mut cancelled: u128 = 0;
    let mut expired: u128 = 0;
    let mut profitable: usize = 0;
    let mut best: Option<usize> = None;
    let mut worst: Option<usize> = None;
    let n = ms.len();
    let mut i: usize = 0;
    while i < n
        invariant
            0 <= i <= n,
            n == s.len(),
            s == ms@,
            pnl == sum_of(s.take(i as int), |m: Metrics| m.gross_pnl_cents as int),
            volume == sum_of(s.take(i as int), |m: Metrics| m.volume_traded as int),
            fills == sum_of(s.take(i as int), |m: Metrics| m.total_fills as int),
            orders == sum_of(s.take(i as int), |m: Metrics| m.total_orders as int),
            cancelled == sum_of(s.take(i as int), |m: Metrics| m.cancelled_orders as int),
            expired == sum_of(s.take(i as int), |m: Metrics| m.expired_orders as int),
            -0x8000_0000_0000_0000 * i <= pnl <= 0x8000_0000_0000_0000 * i,
            -0x8000_0000_0000_0000 * i <= volume <= 0x8000_0000_0000_0000 * i,
            fills <= 0x1_0000_0000_0000_0000 * i,
            orders <= 0x1_0000_0000_0000_0000 * i,
            cancelled <= 0x1_0000_0000_0000_0000 * i,
            expired <= 0x1_0000_0000_0000_0000 * i,
            i <= usize::MAX,
            profitable == profitable_count(s.take(i as int)),
            best == (if extreme_index(s.take(i as int), true) < 0 {
                None
            } else {
                Some(extreme_index(s.take(i as int), true) as usize)
            }),
            worst == (if extreme_index(s.take(i as int), false) < 0 {
                None
            } else {
                Some(extreme_index(s.take(i as int), false) as usize)
            }),
        decreases n - i,
    {
        let m = ms[i];
        proof {
            assert(s.take(i + 1).drop_last() =~= s.take(i as int));
            assert(s.take(i + 1).last() == m);
            lemma_profitable_count_bounds(s.take(i as int));
            lemma_extreme_index_bounds(s.take(i as int), true);
            lemma_extreme_index_bounds(s.take(i as int), false);
            assert(i < 0x1_0000_0000_0000_0000);
        }
        pnl = pnl + m.gross_pnl_cents as i128;
        volume = volume + m.volume_traded as i128;
        fills = fills + m.total_fills as u128;
        orders = orders + m.total_orders as u128;
        cancelled = cancelled + m.cancelled_orders as u128;
        expired = expired + m.expired_orders as u128;
        if m.gross_pnl_cents > 0 {
            profitable = profitable + 1;
        }
        best = match best {
            None => Some(i),
            Some(k) => if m.gross_pnl_cents > ms[k].gross_pnl_cents {
                Some(i)
            } else {
                Some(k)
            },
        };
        worst = match worst {
            None => Some(i),
            Some(k) => if m.gross_pnl_cents < ms[k].gross_pnl_cents {
                Some(i)
            } else {
                Some(k)
            },
        };
        i = i + 1;
    }
    proof {
        assert(s.take(n as int) =~= s);
        lemma_profitable_count_bounds(s);
    }
    if pnl < i64::MIN as i128 || pnl > i64::MAX as i128 || volume < i64::MIN as i128 || volume
        > i64::MAX as i128 || fills > usize::MAX as u128 || orders > usize::MAX as u128
        || cancelled > usize::MAX as u128 || expired > usize::MAX as u128 {
        return None;
    }
    Some(
        MarketTotals {
            total_markets: n,
            profitable_markets: profitable,
            total_gross_pnl_cents: pnl as i64,
            total_volume: volume as i64,
            total_fills: fills as usize,
            total_orders: orders as usize,
            total_cancelled: cancelled as usize,
            total_expired: expired as usize,
            best_market: best,
            worst_market: worst,
        },
    )
}

/// Whether market `a` ranks before market `b`: the higher gross profit first, markets
/// with equal profit in their given order.
pub open spec fn ranks_before(ms: Seq<Metrics>, a: int, b: int) -> bool {
    ms[a].gross_pnl_cents > ms[b].gross_pnl_cents || (ms[a].gross_pnl_cents
        == ms[b].gross_pnl_cents && a < b)
}

/// The markets in rank order: every index once, the most profitable first, equally
/// profitable markets in their given order.
pub fn rank_by_pnl(ms: &Vec<Metrics>) -> (r: Vec<usize>)
    ensures
        r@.len() == ms@.len(),
        forall|i: int| 0 <= i < r@.len() ==> #[trigger] r@[i] < ms@.len(),
        forall|i: int, j: int|
            #![trigger r@[i], r@[j]]
            0 <= i < j < r@.len() ==> ranks_before(ms@, r@[i] as int, r@[j] as int),
        forall|i: int, j: int| #![trigger r@[i], r@[j]] 0 <= i < j < r@.len() ==> r@[i] != r@[j],
{
    let mut r: Vec<usize> = Vec::new();
    let n = ms.len();
    let mut k: usize = 0;
    while k < n
        invariant
            0 <= k <= n,
            n == ms@.len(),
            r@.len() == k,
            forall|i: int| 0 <= i < r@.len() ==> #[trigger] r@[i] < k,
            forall|i: int, j: int|
                #![trigger r@[i], r@[j]]
                0 <= i < j < r@.len() ==> ranks_before(ms@, r@[i] as int, r@[j] as int),
        decreases n - k,
    {
        let pk = ms[k].gross_pnl_cents;
        let mut p: usize = 0;
        while p < r.len() && !(pk > ms[r[p]].gross_pnl_cents)
            invariant
                0 <= p <= r@.len(),
                r@.len() == k,
                k < n,
                n == ms@.len(),
                pk == ms@[k as int].gross_pnl_cents,
                forall|i: int| 0 <= i < r@.len() ==> #[trigger] r@[i] < k,
                forall|q: int| 0 <= q < p ==> ms@[#[trigger] r@[q] as int].gross_pnl_cents >= pk,
            decreases r@.len() - p,
        {
            p = p + 1;
        }
        let ghost old_r = r@;
        proof {
            assert forall|q: int| p <= q < old_r.len() implies ms@[#[trigger] old_r[q] as int].gross_pnl_cents
                < pk by {
                if q > p {
                    assert(ranks_before(ms@, old_r[p as int] as int, old_r[q] as int));
                }
            }
        }
        r.insert(p, k);
        proof {
            assert(r@ == old_r.insert(p as int, k));
            assert forall|i: int, j: int|
                #![trigger r@[i], r@[j]]
                0 <= i < j < r@.len() implies ranks_before(ms@, r@[i] as int, r@[j] as int) by {
                if j < p {
                    assert(r@[i] == old_r[i] && r@[j] == old_r[j]);
                } else if j == p {
                    assert(r@[i] == old_r[i]);
                    assert(ms@[old_r[i] as int].gross_pnl_cents >= pk);
                } else if i < p {
                    assert(r@[i] == old_r[i] && r@[j] == old_r[j - 1]);
                } else if i == p {
                    assert(r@[j] == old_r[j - 1]);
                    assert(ms@[old_r[j - 1] as int].gross_pnl_cents < pk);
                } else {
                    assert(r@[i] == old_r[i - 1] && r@[j] == old_r[j - 1]);
                }
            }
        }
        k = k + 1;
    }
    r
}

} // verus!
