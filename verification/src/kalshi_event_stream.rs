use crate::kalshi_types::{Event, EventView, RawObRow, RawTradeRow, Side};
use vstd::prelude::*;

verus! {

/// Why an event stream was refused.
#[derive(Debug, Clone, Copy, PartialEq, Eq, Structural)]
pub enum StreamError {
    /// The orderbook row at `index` is neither a snapshot nor a delta.
    UnknownMessageType { index: usize },
    /// The event at `index` has a lower sequence number than the one before it.
    SequenceRegression { index: usize, seq: u64, prev_seq: u64 },
}

/// `x` inserted into `s` after the trailing elements that `le` does not put at or
/// before `x` (an insertion step that keeps equal elements in arrival order).
pub open spec fn insert_sorted<A>(s: Seq<A>, x: A, le: spec_fn(A, A) -> bool) -> Seq<A>
    decreases s.len(),
{
    if s.len() == 0 || le(s.last(), x) {
        s.push(x)
    } else {
        insert_sorted(s.drop_last(), x, le).push(s.last())
    }
}

/// The stable insertion sort of `s` by `le`.
pub open spec fn insertion_sort<A>(s: Seq<A>, le: spec_fn(A, A) -> bool) -> Seq<A>
    decreases s.len(),
{
    if s.len() == 0 {
        s
    } else {
        insert_sorted(insertion_sort(s.drop_last(), le), s.last(), le)
    }
}

/// `le` is a total preorder.
pub open spec fn total_preorder<A>(le: spec_fn(A, A) -> bool) -> bool {
    &&& forall|a: A, b: A| #[trigger] le(a, b) || #[trigger] le(b, a)
    &&& forall|a: A, b: A, c: A| #[trigger] le(a, b) && #[trigger] le(b, c) ==> le(a, c)
}

/// `s` is ordered by `le`.
pub open spec fn sorted_by<A>(s: Seq<A>, le: spec_fn(A, A) -> bool) -> bool {
    forall|i: int, j: int| 0 <= i < j < s.len() ==> le(#[trigger] s[i], #[trigger] s[j])
}

/// Levels ordered by price.
pub open spec fn price_le() -> spec_fn((u8, i64), (u8, i64)) -> bool {
    |a: (u8, i64), b: (u8, i64)| a.0 <= b.0
}

/// Events ordered by sequence number, then by timestamp.
pub open spec fn event_le() -> spec_fn(EventView, EventView) -> bool {
    |a: EventView, b: EventView| a.seq() < b.seq() || (a.seq() == b.seq() && a.ts() <= b.ts())
}

/// Inserting into a sorted sequence keeps it sorted and adds the element.
proof fn lemma_insert_sorted<A>(s: Seq<A>, x: A, le: spec_fn(A, A) -> bool)
    requires
        total_preorder(le),
        sorted_by(s, le),
    ensures
        sorted_by(insert_sorted(s, x, le), le),
        insert_sorted(s, x, le).to_multiset() == s.to_multiset().insert(x),
        insert_sorted(s, x, le).len() == s.len() + 1,
        forall|k: int|
            0 <= k < insert_sorted(s, x, le).len() ==> #[trigger] insert_sorted(s, x, le)[k] == x
                || s.contains(insert_sorted(s, x, le)[k]),
    decreases s.len(),
{
    broadcast use vstd::seq_lib::group_to_multiset_ensures;

    let r = insert_sorted(s, x, le);
    if s.len() == 0 || le(s.last(), x) {
        assert forall|i: int, j: int| 0 <= i < j < r.len() implies le(#[trigger] r[i], #[trigger] r[j]) by {
            if j == s.len() {
                if i < s.len() - 1 {
                    assert(le(s[i], s.last()));
                }
            }
        }
        assert forall|k: int| 0 <= k < r.len() implies #[trigger] r[k] == x || s.contains(r[k]) by {
            if k < s.len() {
                assert(s[k] == r[k]);
            }
        }
    } else {
        let t = s.drop_last();
        assert forall|i: int, j: int| 0 <= i < j < t.len() implies le(#[trigger] t[i], #[trigger] t[j]) by {
            assert(t[i] == s[i] && t[j] == s[j]);
        }
        lemma_insert_sorted(t, x, le);
        let u = insert_sorted(t, x, le);
        assert(r == u.push(s.last()));
        assert forall|k: int| 0 <= k < u.len() implies le(#[trigger] u[k], s.last()) by {
            if u[k] == x {
                assert(!le(s.last(), x));
            } else {
                assert(t.contains(u[k]));
                let m = choose|m: int| 0 <= m < t.len() && t[m] == u[k];
                assert(s[m] == t[m]);
            }
        }
        assert forall|i: int, j: int| 0 <= i < j < r.len() implies le(#[trigger] r[i], #[trigger] r[j]) by {
            if j == u.len() {
                assert(r[i] == u[i]);
            } else {
                assert(r[i] == u[i] && r[j] == u[j]);
            }
        }
        assert forall|k: int| 0 <= k < r.len() implies #[trigger] r[k] == x || s.contains(r[k]) by {
            if k < u.len() {
                assert(r[k] == u[k]);
                if u[k] != x {
                    assert(t.contains(u[k]));
                    let m = choose|m: int| 0 <= m < t.len() && t[m] == u[k];
                    assert(s[m] == t[m]);
                }
            } else {
                assert(s[s.len() - 1] == r[k]);
            }
        }
        assert(s == t.push(s.last()));
    }
}

/// Law: the insertion sort of any sequence by a total preorder is ordered by it and holds
/// the same elements.
pub proof fn lemma_insertion_sort<A>(s: Seq<A>, le: spec_fn(A, A) -> bool)
    requires
        total_preorder(le),
    ensures
        sorted_by(insertion_sort(s, le), le),
        insertion_sort(s, le).to_multiset() == s.to_multiset(),
    decreases s.len(),
{
    broadcast use vstd::seq_lib::group_to_multiset_ensures;

    if s.len() > 0 {
        lemma_insertion_sort(s.drop_last(), le);
        lemma_insert_sorted(insertion_sort(s.drop_last(), le), s.last(), le);
        assert(s == s.drop_last().push(s.last()));
    }
}

/// `x` inserted at the position found by scanning back from the end.
proof fn lemma_insert_sorted_at<A>(s: Seq<A>, x: A, le: spec_fn(A, A) -> bool, p: int)
    requires
        0 <= p <= s.len(),
        forall|k: int| p <= k < s.len() ==> !le(#[trigger] s[k], x),
        p == 0 || le(s[p - 1], x),
    ensures
        insert_sorted(s, x, le) == s.insert(p, x),
    decreases s.len(),
{
    if s.len() == 0 {
        assert(s.insert(p, x) =~= s.push(x));
    } else if p == s.len() {
        assert(s.insert(p, x) =~= s.push(x));
    } else {
        let t = s.drop_last();
        assert(!le(s[s.len() - 1], x));
        assert forall|k: int| p <= k < t.len() implies !le(#[trigger] t[k], x) by {
            assert(t[k] == s[k]);
        }
        if p > 0 {
            assert(t[p - 1] == s[p - 1]);
        }
        lemma_insert_sorted_at(t, x, le, p);
        assert(t.insert(p, x).push(s.last()) =~= s.insert(p, x));
    }
}

/// Insert a level into levels kept in insertion order by price.
fn insert_level(v: &mut Vec<(u8, i64)>, x: (u8, i64))
    ensures
        final(v)@ == insert_sorted(old(v)@, x, price_le()),
{
    let mut p = v.len();
    while p > 0 && v[p - 1].0 > x.0
        invariant
            0 <= p <= v@.len(),
            v@ == old(v)@,
            forall|k: int| p <= k < v@.len() ==> !(price_le())(#[trigger] v@[k], x),
        decreases p,
    {
        p = p - 1;
    }
    proof {
        lemma_insert_sorted_at(v@, x, price_le(), p as int);
    }
    v.insert(p, x);
}

/// Insert an event into events kept in insertion order by sequence number and timestamp.
fn insert_event(v: &mut Vec<Event>, x: Event)
    ensures
        events_view(final(v)@) == insert_sorted(events_view(old(v)@), x@, event_le()),
{
    let ghost vs = events_view(v@);
    let xs = x.seq();
    let xt = x.ts();
    let mut p = v.len();
    while p > 0 && (v[p - 1].seq() > xs || (v[p - 1].seq() == xs && v[p - 1].ts() > xt))
        invariant
            0 <= p <= v@.len(),
            v@ == old(v)@,
            vs == events_view(v@),
            xs == x@.seq(),
            xt == x@.ts(),
            forall|k: int| p <= k < vs.len() ==> !(event_le())(#[trigger] vs[k], x@),
        decreases p,
    {
        assert(vs[p - 1] == v@[p - 1]@);
        p = p - 1;
    }
    proof {
        if p > 0 {
            assert(vs[p - 1] == v@[p - 1]@);
        }
        lemma_insert_sorted_at(vs, x@, event_le(), p as int);
    }
    let ghost xv = x@;
    v.insert(p, x);
    proof {
        assert(events_view(v@) =~= vs.insert(p as int, xv));
    }
}

/// An orderbook row of a snapshot.
pub open spec fn is_snapshot_row(r: RawObRow) -> bool {
    r.msg_type@ == "snapshot"@
}

/// An orderbook row of a delta.
pub open spec fn is_delta_row(r: RawObRow) -> bool {
    r.msg_type@ == "delta"@
}

/// An orderbook row of a known message type.
pub open spec fn known_row(r: RawObRow) -> bool {
    is_snapshot_row(r) || is_delta_row(r)
}

/// A delta row carries its side, price and quantity.
pub open spec fn delta_complete(r: RawObRow) -> bool {
    is_delta_row(r) ==> r.side is Some && r.price is Some && r.quantity is Some
}

/// Whether a row gives a level on `side`: its side, price and quantity are present and
/// the quantity is positive.
pub open spec fn gives_level(r: RawObRow, side: Side) -> bool {
    r.side == Some(side) && r.price is Some && r.quantity is Some && r.quantity.unwrap() > 0
}

/// The levels of a list with a positive quantity, in order.
pub open spec fn positive_levels(l: Seq<(u8, i64)>) -> Seq<(u8, i64)>
    decreases l.len(),
{
    if l.len() == 0 {
        Seq::empty()
    } else if l.last().1 > 0 {
        positive_levels(l.drop_last()).push(l.last())
    } else {
        positive_levels(l.drop_last())
    }
}

/// The level list a row carries for `side`, if any.
pub open spec fn listed_side(r: RawObRow, side: Side) -> Seq<(u8, i64)> {
    match (side, r.yes_levels, r.no_levels) {
        (Side::Yes, Some(l), _) => l@,
        (Side::No, _, Some(l)) => l@,
        _ => Seq::empty(),
    }
}

/// The levels a row gives on `side`: its own level, when it gives one, then the levels
/// with a positive quantity of the level list it carries for that side.
pub open spec fn row_levels(r: RawObRow, side: Side) -> Seq<(u8, i64)> {
    let own = if gives_level(r, side) {
        seq![(r.price.unwrap(), r.quantity.unwrap())]
    } else {
        Seq::empty()
    };
    own + positive_levels(listed_side(r, side))
}

/// The levels that rows give on `side`, in row order.
pub open spec fn side_levels(rows: Seq<RawObRow>, side: Side) -> Seq<(u8, i64)>
    decreases rows.len(),
{
    if rows.len() == 0 {
        Seq::empty()
    } else {
        side_levels(rows.drop_last(), side) + row_levels(rows.last(), side)
    }
}

/// The snapshot event of a group of snapshot rows: the first row's sequence number,
/// timestamp and ticker, and each side's levels (one per row that gives one, and those of
/// the rows' level lists) sorted by price (stably).
pub open spec fn snapshot_view(group: Seq<RawObRow>) -> EventView {
    EventView::Snapshot {
        seq: group[0].seq,
        ts: group[0].ts,
        ticker: group[0].ticker@,
        yes_levels: insertion_sort(side_levels(group, Side::Yes), price_le()),
        no_levels: insertion_sort(side_levels(group, Side::No), price_le()),
    }
}

/// The delta event of a delta row.
pub open spec fn delta_view(r: RawObRow) -> EventView {
    EventView::Delta {
        seq: r.seq,
        ts: r.ts,
        ticker: r.ticker@,
        side: r.side.unwrap(),
        price: r.price.unwrap(),
        delta: r.quantity.unwrap(),
    }
}

/// The trade event of a trade row.
pub open spec fn trade_view(t: RawTradeRow) -> EventView {
    EventView::Trade {
        seq: t.seq,
        ts: t.ts,
        ticker: t.ticker@,
        yes_price: t.yes_price,
        no_price: t.no_price,
        qty: t.qty,
        taker: t.taker,
    }
}

/// Whether a snapshot row belongs to a group: same sequence number and ticker.
pub open spec fn same_group(g: Seq<RawObRow>, r: RawObRow) -> bool {
    g.len() > 0 && g[0].seq == r.seq && g[0].ticker@ == r.ticker@
}

/// The position of the first group a snapshot row belongs to, or -1.
pub open spec fn group_index(groups: Seq<Seq<RawObRow>>, r: RawObRow) -> int
    decreases groups.len(),
{
    if groups.len() == 0 {
        -1
    } else {
        let k = group_index(groups.drop_last(), r);
        if k >= 0 {
            k
        } else if same_group(groups.last(), r) {
            groups.len() - 1
        } else {
            -1
        }
    }
}

/// The groups after a snapshot row joins its group, or opens a new one.
pub open spec fn add_to_groups(groups: Seq<Seq<RawObRow>>, r: RawObRow) -> Seq<Seq<RawObRow>> {
    let k = group_index(groups, r);
    if k >= 0 {
        groups.update(k, groups[k].push(r))
    } else {
        groups.push(seq![r])
    }
}

/// The snapshot events of groups, in group order.
pub open spec fn snapshots_of(groups: Seq<Seq<RawObRow>>) -> Seq<EventView> {
    groups.map_values(|g: Seq<RawObRow>| snapshot_view(g))
}

/// The events emitted and the snapshot groups still buffered after orderbook rows: a
/// snapshot row is buffered with its group; a delta row first emits every buffered
/// group's snapshot, in group order, then its own delta.
pub open spec fn rows_state(rows: Seq<RawObRow>) -> (Seq<EventView>, Seq<Seq<RawObRow>>)
    decreases rows.len(),
{
    if rows.len() == 0 {
        (Seq::empty(), Seq::empty())
    } else {
        let (evs, groups) = rows_state(rows.drop_last());
        let r = rows.last();
        if is_snapshot_row(r) {
            (evs, add_to_groups(groups, r))
        } else if is_delta_row(r) {
            (evs + snapshots_of(groups) + seq![delta_view(r)], Seq::empty())
        } else {
            (evs, groups)
        }
    }
}

/// The trade events of trade rows.
pub open spec fn trades_of(trades: Seq<RawTradeRow>) -> Seq<EventView> {
    trades.map_values(|t: RawTradeRow| trade_view(t))
}

/// The events of orderbook and trade rows before ordering: those of the orderbook rows
/// with the snapshot groups left at the end flushed, then the trades.
pub open spec fn unordered_events(ob: Seq<RawObRow>, trades: Seq<RawTradeRow>) -> Seq<EventView> {
    rows_state(ob).0 + snapshots_of(rows_state(ob).1) + trades_of(trades)
}

/// The merged event stream: the events ordered by sequence number, then timestamp,
/// equal events keeping their order.
pub open spec fn merged_events(ob: Seq<RawObRow>, trades: Seq<RawTradeRow>) -> Seq<EventView> {
    insertion_sort(unordered_events(ob, trades), event_le())
}

/// The rows of a group of row positions.
pub open spec fn group_rows(g: Seq<usize>, rows: Seq<RawObRow>) -> Seq<RawObRow> {
    g.map_values(|i: usize| rows[i as int])
}

/// The rows of groups of row positions.
pub open spec fn groups_rows(gs: Seq<Vec<usize>>, rows: Seq<RawObRow>) -> Seq<Seq<RawObRow>> {
    gs.map_values(|g: Vec<usize>| group_rows(g@, rows))
}

/// Every group is non-empty and refers to rows before `bound`.
pub open spec fn groups_valid(gs: Seq<Vec<usize>>, bound: int) -> bool {
    forall|k: int|
        0 <= k < gs.len() ==> #[trigger] gs[k]@.len() > 0 && forall|j: int|
            0 <= j < gs[k]@.len() ==> gs[k]@[j] < bound
}

/// Insert the levels with a positive quantity of a list, in order.
fn insert_positive(v: &mut Vec<(u8, i64)>, l: &Vec<(u8, i64)>)
    ensures
        forall|base: Seq<(u8, i64)>|
            old(v)@ == insertion_sort(base, price_le()) ==> #[trigger] insertion_sort(
                base + positive_levels(l@),
                price_le(),
            ) == final(v)@,
{
    let ghost v0 = v@;
    let n = l.len();
    let mut k: usize = 0;
    while k < n
        invariant
            0 <= k <= n,
            n == l@.len(),
            forall|base: Seq<(u8, i64)>|
                v0 == insertion_sort(base, price_le()) ==> #[trigger] insertion_sort(
                    base + positive_levels(l@.take(k as int)),
                    price_le(),
                ) == v@,
        decreases n - k,
    {
        let x = l[k];
        proof {
            assert(l@.take(k + 1).drop_last() =~= l@.take(k as int));
            assert(l@.take(k + 1).last() == x);
        }
        let ghost before = v@;
        if x.1 > 0 {
            insert_level(v, x);
            proof {
                assert forall|base: Seq<(u8, i64)>|
                    v0 == insertion_sort(base, price_le()) implies #[trigger] insertion_sort(
                        base + positive_levels(l@.take(k + 1)),
                        price_le(),
                    ) == v@ by {
                    let pk = positive_levels(l@.take(k as int));
                    assert((base + pk).push(x) =~= base + pk.push(x));
                    assert((base + pk.push(x)).drop_last() =~= base + pk);
                    assert(insertion_sort(base + pk, price_le()) == before);
                }
            }
        }
        k = k + 1;
    }
    proof {
        assert(l@.take(n as int) =~= l@);
        assert forall|base: Seq<(u8, i64)>|
            v0 == insertion_sort(base, price_le()) implies #[trigger] insertion_sort(
                base + positive_levels(l@),
                price_le(),
            ) == v@ by {
            assert(insertion_sort(base + positive_levels(l@.take(n as int)), price_le()) == v@);
        }
    }
}

/// The snapshot event of a group of rows.
fn snapshot_event(rows: &Vec<RawObRow>, g: &Vec<usize>) -> (e: Event)
    requires
        g@.len() > 0,
        forall|j: int| 0 <= j < g@.len() ==> g@[j] < rows@.len(),
    ensures
        e@ == snapshot_view(group_rows(g@, rows@)),
{
    let ghost grp = group_rows(g@, rows@);
    let mut yes: Vec<(u8, i64)> = Vec::new();
    let mut no: Vec<(u8, i64)> = Vec::new();
    let n = g.len();
    let mut j: usize = 0;
    proof {
        assert(grp.take(0) =~= Seq::<RawObRow>::empty());
    }
    while j < n
        invariant
            0 <= j <= n,
            n == g@.len(),
            grp == group_rows(g@, rows@),
            forall|k: int| 0 <= k < g@.len() ==> g@[k] < rows@.len(),
            yes@ == insertion_sort(side_levels(grp.take(j as int), Side::Yes), price_le()),
            no@ == insertion_sort(side_levels(grp.take(j as int), Side::No), price_le()),
        decreases n - j,
    {
        let row = &rows[g[j]];
        let ghost ys = side_levels(grp.take(j as int), Side::Yes);
        let ghost ns = side_levels(grp.take(j as int), Side::No);
        proof {
            assert(grp[j as int] == *row);
            assert(grp.take(j + 1).drop_last() =~= grp.take(j as int));
            assert(grp.take(j + 1).last() == *row);
        }
        let ghost own_y: Seq<(u8, i64)> = if gives_level(*row, Side::Yes) {
            seq![(row.price.unwrap(), row.quantity.unwrap())]
        } else {
            Seq::empty()
        };
        let ghost own_n: Seq<(u8, i64)> = if gives_level(*row, Side::No) {
            seq![(row.price.unwrap(), row.quantity.unwrap())]
        } else {
            Seq::empty()
        };
        match (row.side, row.price, row.quantity) {
            (Some(side), Some(price), Some(q)) => {
                if q > 0 {
                    match side {
                        Side::Yes => insert_level(&mut yes, (price, q)),
                        Side::No => insert_level(&mut no, (price, q)),
                    }
                }
            },
            _ => {},
        }
        proof {
            assert((ys + own_y) =~= (if gives_level(*row, Side::Yes) { ys.push((row.price.unwrap(), row.quantity.unwrap())) } else { ys }));
            assert((ns + own_n) =~= (if gives_level(*row, Side::No) { ns.push((row.price.unwrap(), row.quantity.unwrap())) } else { ns }));
            if gives_level(*row, Side::Yes) {
                assert(ys.push((row.price.unwrap(), row.quantity.unwrap())).drop_last() =~= ys);
            }
            if gives_level(*row, Side::No) {
                assert(ns.push((row.price.unwrap(), row.quantity.unwrap())).drop_last() =~= ns);
            }
            assert(yes@ == insertion_sort(ys + own_y, price_le()));
            assert(no@ == insertion_sort(ns + own_n, price_le()));
        }
        match &row.yes_levels {
            Some(l) => {
                insert_positive(&mut yes, l);
            },
            None => {},
        }
        match &row.no_levels {
            Some(l) => {
                insert_positive(&mut no, l);
            },
            None => {},
        }
        proof {
            assert(ys + own_y + positive_levels(listed_side(*row, Side::Yes)) =~= ys + row_levels(*row, Side::Yes));
            assert(ns + own_n + positive_levels(listed_side(*row, Side::No)) =~= ns + row_levels(*row, Side::No));
            if row.yes_levels is None {
                assert(ys + own_y + positive_levels(listed_side(*row, Side::Yes)) =~= ys + own_y);
            }
            if row.no_levels is None {
                assert(ns + own_n + positive_levels(listed_side(*row, Side::No)) =~= ns + own_n);
            }
        }
        j = j + 1;
    }
    proof {
        assert(grp.take(n as int) =~= grp);
    }
    let first = &rows[g[0]];
    Event::Snapshot {
        seq: first.seq,
        ts: first.ts,
        ticker: first.ticker.clone(),
        yes_levels: yes,
        no_levels: no,
    }
}

/// The position of the first group a snapshot row belongs to.
fn find_group(rows: &Vec<RawObRow>, groups: &Vec<Vec<usize>>, r: &RawObRow) -> (k: Option<usize>)
    requires
        groups_valid(groups@, rows@.len() as int),
    ensures
        match k {
            Some(k) => k < groups@.len() && group_index(groups_rows(groups@, rows@), *r) == k,
            None => group_index(groups_rows(groups@, rows@), *r) == -1,
        },
{
    let ghost gr = groups_rows(groups@, rows@);
    let n = groups.len();
    let mut k: usize = 0;
    while k < n
        invariant
            0 <= k <= n,
            n == groups@.len(),
            gr == groups_rows(groups@, rows@),
            groups_valid(groups@, rows@.len() as int),
            group_index(gr.take(k as int), *r) == -1,
        decreases n - k,
    {
        assert(groups@[k as int]@.len() > 0);
        let first = &rows[groups[k][0]];
        proof {
            assert(gr.take(k + 1).drop_last() =~= gr.take(k as int));
            assert(gr.take(k + 1).last() == gr[k as int]);
            assert(gr[k as int][0] == *first);
        }
        if first.seq == r.seq && first.ticker == r.ticker {
            proof {
                lemma_group_index_prefix(gr, *r, k + 1);
            }
            return Some(k);
        }
        k = k + 1;
    }
    proof {
        assert(gr.take(n as int) =~= gr);
    }
    None
}

/// The first group found in a prefix is the first group of the whole list.
proof fn lemma_group_index_prefix(groups: Seq<Seq<RawObRow>>, r: RawObRow, k: int)
    requires
        0 <= k <= groups.len(),
        group_index(groups.take(k), r) >= 0,
    ensures
        group_index(groups, r) == group_index(groups.take(k), r),
    decreases groups.len() - k,
{
    if k == groups.len() {
        assert(groups.take(k) =~= groups);
    } else {
        assert(groups.take(k + 1).drop_last() =~= groups.take(k));
        lemma_group_index_prefix(groups, r, k + 1);
    }
}

/// The view of a list of events.
pub open spec fn events_view(v: Seq<Event>) -> Seq<EventView> {
    v.map_values(|e: Event| e@)
}

/// Insert the snapshot event of each group, in group order.
fn flush_groups(
    rows: &Vec<RawObRow>,
    groups: &Vec<Vec<usize>>,
    out: &mut Vec<Event>,
    Ghost(created): Ghost<Seq<EventView>>,
)
    requires
        groups_valid(groups@, rows@.len() as int),
        events_view(old(out)@) == insertion_sort(created, event_le()),
    ensures
        events_view(final(out)@) == insertion_sort(
            created + snapshots_of(groups_rows(groups@, rows@)),
            event_le(),
        ),
{
    let ghost gr = groups_rows(groups@, rows@);
    let n = groups.len();
    let mut k: usize = 0;
    while k < n
        invariant
            0 <= k <= n,
            n == groups@.len(),
            gr == groups_rows(groups@, rows@),
            groups_valid(groups@, rows@.len() as int),
            events_view(out@) == insertion_sort(created + snapshots_of(gr.take(k as int)), event_le()),
        decreases n - k,
    {
        assert(groups@[k as int]@.len() > 0);
        let e = snapshot_event(rows, &groups[k]);
        proof {
            let before = created + snapshots_of(gr.take(k as int));
            assert(created + snapshots_of(gr.take(k + 1)) =~= before.push(e@));
            assert(before.push(e@).drop_last() =~= before);
        }
        insert_event(out, e);
        k = k + 1;
    }
    proof {
        assert(gr.take(n as int) =~= gr);
    }
}

/// Merge orderbook and trade rows into one event stream.
///
/// Snapshot rows with the same sequence number and ticker form one snapshot event,
/// emitted before the next delta row or at the end; every delta row gives a delta event
/// and every trade row a trade event. The events come out ordered by sequence number,
/// then timestamp. A row of any other message type is refused.
pub fn merge(orderbook_rows: &Vec<RawObRow>, trade_rows: &Vec<RawTradeRow>) -> (r: Result<
    Vec<Event>,
    StreamError,
>)
    requires
        forall|i: int| 0 <= i < orderbook_rows@.len() ==> delta_complete(#[trigger] orderbook_rows@[i]),
    ensures
        r is Ok <==> forall|i: int| 0 <= i < orderbook_rows@.len() ==> known_row(#[trigger] orderbook_rows@[i]),
        r matches Err(e) ==> e matches StreamError::UnknownMessageType { index } && index
            < orderbook_rows@.len() && !known_row(orderbook_rows@[index as int]) && forall|j: int|
            0 <= j < index ==> known_row(#[trigger] orderbook_rows@[j]),
        r matches Ok(events) ==> {
            &&& events_view(events@) == merged_events(orderbook_rows@, trade_rows@)
            &&& sorted_by(events_view(events@), event_le())
            &&& events_view(events@).to_multiset() == unordered_events(
                orderbook_rows@,
                trade_rows@,
            ).to_multiset()
        },
{
    let ghost ob = orderbook_rows@;
    let snap = "snapshot".to_owned();
    let delta = "delta".to_owned();
    let mut out: Vec<Event> = Vec::new();
    let mut groups: Vec<Vec<usize>> = Vec::new();
    let ghost mut created: Seq<EventView> = Seq::empty();
    proof {
        assert(events_view(out@) =~= Seq::<EventView>::empty());
        assert(groups_rows(groups@, ob) =~= Seq::<Seq<RawObRow>>::empty());
    }
    let n = orderbook_rows.len();
    let mut i: usize = 0;
    while i < n
        invariant
            0 <= i <= n,
            n == ob.len(),
            ob == orderbook_rows@,
            snap@ == "snapshot"@,
            delta@ == "delta"@,
            forall|k: int| 0 <= k < ob.len() ==> delta_complete(#[trigger] ob[k]),
            forall|k: int| 0 <= k < i ==> known_row(#[trigger] ob[k]),
            created == rows_state(ob.take(i as int)).0,
            groups_rows(groups@, ob) == rows_state(ob.take(i as int)).1,
            groups_valid(groups@, i as int),
            events_view(out@) == insertion_sort(created, event_le()),
        decreases n - i,
    {
        let row = &orderbook_rows[i];
        proof {
            assert(ob.take(i + 1).drop_last() =~= ob.take(i as int));
            assert(ob.take(i + 1).last() == *row);
        }
        if row.msg_type == snap {
            let ghost gr = groups_rows(groups@, ob);
            match find_group(orderbook_rows, &groups, row) {
                Some(k) => {
                    let mut g = groups.remove(k);
                    g.push(i);
                    groups.insert(k, g);
                    proof {
                        assert(group_rows(g@, ob) =~= gr[k as int].push(*row));
                        assert(groups_rows(groups@, ob) =~= gr.update(k as int, gr[k as int].push(*row)));
                    }
                },
                None => {
                    let mut g: Vec<usize> = Vec::new();
                    g.push(i);
                    groups.push(g);
                    proof {
                        assert(group_rows(g@, ob) =~= seq![*row]);
                        assert(groups_rows(groups@, ob) =~= gr.push(seq![*row]));
                    }
                },
            }
            proof {
                assert forall|k: int| 0 <= k < groups@.len() implies #[trigger] groups@[k]@.len() > 0
                    && forall|j: int| 0 <= j < groups@[k]@.len() ==> groups@[k]@[j] < i + 1 by {
                }
            }
        } else if row.msg_type == delta {
            flush_groups(orderbook_rows, &groups, &mut out, Ghost(created));
            let e = Event::Delta {
                seq: row.seq,
                ts: row.ts,
                ticker: row.ticker.clone(),
                side: row.side.unwrap(),
                price: row.price.unwrap(),
                delta: row.quantity.unwrap(),
            };
            let ghost flushed = created + snapshots_of(groups_rows(groups@, ob));
            proof {
                assert(flushed.push(e@).drop_last() =~= flushed);
            }
            insert_event(&mut out, e);
            groups = Vec::new();
            proof {
                created = flushed.push(delta_view(*row));
                assert(created =~= rows_state(ob.take(i + 1)).0);
                assert(groups_rows(groups@, ob) =~= Seq::<Seq<RawObRow>>::empty());
            }
        } else {
            return Err(StreamError::UnknownMessageType { index: i });
        }
        i = i + 1;
    }
    proof {
        assert(ob.take(n as int) =~= ob);
    }
    flush_groups(orderbook_rows, &groups, &mut out, Ghost(created));
    let ghost base = created + snapshots_of(groups_rows(groups@, ob));
    let ghost tr = trade_rows@;
    let m = trade_rows.len();
    let mut j: usize = 0;
    while j < m
        invariant
            0 <= j <= m,
            m == tr.len(),
            tr == trade_rows@,
            events_view(out@) == insertion_sort(base + trades_of(tr.take(j as int)), event_le()),
        decreases m - j,
    {
        let t = &trade_rows[j];
        let e = Event::Trade {
            seq: t.seq,
            ts: t.ts,
            ticker: t.ticker.clone(),
            yes_price: t.yes_price,
            no_price: t.no_price,
            qty: t.qty,
            taker: t.taker,
        };
        proof {
            let before = base + trades_of(tr.take(j as int));
            assert(base + trades_of(tr.take(j + 1)) =~= before.push(e@));
            assert(before.push(e@).drop_last() =~= before);
        }
        insert_event(&mut out, e);
        j = j + 1;
    }
    proof {
        assert(tr.take(m as int) =~= tr);
        assert(base + trades_of(tr) =~= unordered_events(ob, tr));
        assert(total_preorder(event_le()));
        lemma_insertion_sort(unordered_events(ob, tr), event_le());
    }
    Ok(out)
}

/// The delta events of orderbook rows: one per delta row, in row order.
pub open spec fn deltas_of(rows: Seq<RawObRow>) -> Seq<EventView>
    decreases rows.len(),
{
    if rows.len() == 0 {
        Seq::empty()
    } else if is_delta_row(rows.last()) {
        deltas_of(rows.drop_last()).push(delta_view(rows.last()))
    } else {
        deltas_of(rows.drop_last())
    }
}

/// Snapshot events hold no trade or delta event.
proof fn lemma_snapshots_only(groups: Seq<Seq<RawObRow>>, x: EventView)
    requires
        !(x is Snapshot),
    ensures
        snapshots_of(groups).to_multiset().count(x) == 0,
{
    broadcast use vstd::seq_lib::group_to_multiset_ensures;

    if snapshots_of(groups).contains(x) {
        let k = choose|k: int| 0 <= k < snapshots_of(groups).len() && snapshots_of(groups)[k] == x;
        assert(snapshots_of(groups)[k] == snapshot_view(groups[k]));
    }
}

/// The events orderbook rows emit hold no trade, and each delta event as often as the
/// rows' delta events do.
proof fn lemma_rows_state_counts(rows: Seq<RawObRow>, x: EventView)
    ensures
        x is Trade ==> rows_state(rows).0.to_multiset().count(x) == 0,
        x is Delta ==> rows_state(rows).0.to_multiset().count(x) == deltas_of(
            rows,
        ).to_multiset().count(x),
    decreases rows.len(),
{
    broadcast use vstd::seq_lib::group_to_multiset_ensures;
    broadcast use vstd::seq_lib::lemma_multiset_commutative;

    broadcast use vstd::multiset::group_multiset_axioms;

    if rows.len() > 0 && !(x is Snapshot) {
        lemma_rows_state_counts(rows.drop_last(), x);
        let (evs, groups) = rows_state(rows.drop_last());
        let r = rows.last();
        reveal_strlit("snapshot");
        reveal_strlit("delta");
        assert("snapshot"@.len() == 8 && "delta"@.len() == 5);
        assert(is_snapshot_row(r) ==> !is_delta_row(r));
        if is_delta_row(r) {
            lemma_snapshots_only(groups, x);
            assert(evs + snapshots_of(groups) + seq![delta_view(r)] =~= (evs + snapshots_of(
                groups,
            )).push(delta_view(r)));
        }
    }
}

/// Law: merging keeps one event per trade row and one per delta row, with the row's
/// fields, and makes no other: each trade event occurs in the merged stream as often as
/// among the trade rows' events, and each delta event as often as among the delta rows'.
pub proof fn lemma_merge_one_event_per_row(
    ob: Seq<RawObRow>,
    trades: Seq<RawTradeRow>,
    x: EventView,
)
    ensures
        x is Trade ==> merged_events(ob, trades).to_multiset().count(x) == trades_of(
            trades,
        ).to_multiset().count(x),
        x is Delta ==> merged_events(ob, trades).to_multiset().count(x) == deltas_of(
            ob,
        ).to_multiset().count(x),
{
    broadcast use vstd::seq_lib::lemma_multiset_commutative;

    assert(total_preorder(event_le()));
    lemma_insertion_sort(unordered_events(ob, trades), event_le());
    lemma_rows_state_counts(ob, x);
    if !(x is Snapshot) {
        lemma_snapshots_only(rows_state(ob).1, x);
    }
    if x is Delta {
        broadcast use vstd::seq_lib::group_to_multiset_ensures;

        if trades_of(trades).contains(x) {
            let k = choose|k: int| 0 <= k < trades_of(trades).len() && trades_of(trades)[k] == x;
            assert(trades_of(trades)[k] == trade_view(trades[k]));
        }
    }
}

/// An event's view carries its sequence number and timestamp.
proof fn lemma_view_keys(e: Event)
    ensures
        e@.seq() == e.spec_seq(),
        e@.ts() == e.spec_ts(),
{
    match e {
        Event::Snapshot { .. } => {},
        Event::Delta { .. } => {},
        Event::Trade { .. } => {},
    }
}

/// Law: events ordered as `merge` orders them come in sequence-number order, and events
/// with the same sequence number in time order.
pub proof fn lemma_ordered_events(events: Seq<Event>)
    requires
        sorted_by(events_view(events), event_le()),
    ensures
        forall|i: int, j: int|
            0 <= i < j < events.len() ==> #[trigger] events[i].spec_seq()
                <= #[trigger] events[j].spec_seq(),
        forall|i: int, j: int|
            0 <= i < j < events.len() && #[trigger] events[i].spec_seq()
                == #[trigger] events[j].spec_seq() ==> events[i].spec_ts() <= events[j].spec_ts(),
{
    let v = events_view(events);
    assert forall|i: int, j: int| 0 <= i < j < events.len() implies #[trigger] events[i].spec_seq()
        <= #[trigger] events[j].spec_seq() && (events[i].spec_seq() == events[j].spec_seq()
        ==> events[i].spec_ts() <= events[j].spec_ts()) by {
        assert(event_le()(v[i], v[j]));
        lemma_view_keys(events[i]);
        lemma_view_keys(events[j]);
    }
}

/// Sequence numbers never decrease among the first `n` events.
pub open spec fn seq_ordered_upto(events: Seq<Event>, n: int) -> bool {
    forall|i: int| 0 < i < n ==> events[i - 1].spec_seq() <= #[trigger] events[i].spec_seq()
}

/// The positions among the first `n` events whose sequence number repeats the one
/// before, in order.
pub open spec fn repeated_positions(events: Seq<Event>, n: int) -> Seq<usize>
    decreases n,
{
    if n <= 1 {
        Seq::empty()
    } else {
        let rest = repeated_positions(events, n - 1);
        if events[n - 1].spec_seq() == events[n - 2].spec_seq() {
            rest.push((n - 1) as usize)
        } else {
            rest
        }
    }
}

/// Check that events are ordered by sequence number.
///
/// Fails at the first event whose sequence number is lower than the one before it;
/// otherwise returns the positions of the events that repeat the sequence number before
/// them, which are allowed.
pub fn validate_sequence_ordering(events: &Vec<Event>) -> (r: Result<Vec<usize>, StreamError>)
    ensures
        r is Ok <==> seq_ordered_upto(events@, events@.len() as int),
        r matches Ok(dups) ==> dups@ == repeated_positions(events@, events@.len() as int),
        r matches Err(e) ==> e matches StreamError::SequenceRegression { index, seq, prev_seq }
            && 0 < index < events@.len() && seq == events@[index as int].spec_seq() && prev_seq
            == events@[index - 1].spec_seq() && seq < prev_seq && seq_ordered_upto(
            events@,
            index as int,
        ),
{
    let mut dups: Vec<usize> = Vec::new();
    let n = events.len();
    if n == 0 {
        return Ok(dups);
    }
    let mut last_seq = events[0].seq();
    let mut i: usize = 1;
    while i < n
        invariant
            1 <= i <= n,
            n == events@.len(),
            last_seq == events@[i - 1].spec_seq(),
            seq_ordered_upto(events@, i as int),
            dups@ == repeated_positions(events@, i as int),
        decreases n - i,
    {
        let seq = events[i].seq();
        if seq < last_seq {
            return Err(StreamError::SequenceRegression { index: i, seq, prev_seq: last_seq });
        }
        if seq == last_seq {
            dups.push(i);
        }
        last_seq = seq;
        i = i + 1;
    }
    Ok(dups)
}

} // verus!
