//! Reading the exchange's market listings: the tickers and paging cursor of a page of
//! markets, whether a listing holds any market, and when paging ends.

use crate::kalshi_json::{
    field, field_node, items_of, json_node_of, read_json, strings_view, text_of, JsonNode,
    JsonNodeView,
};
use vstd::prelude::*;

verus! {

/// The ticker of a listed market, given by its JSON text: the text of its `ticker` member,
/// if it has one.
pub open spec fn market_ticker(item: Seq<char>) -> Option<Seq<char>> {
    match json_node_of(item) {
        Some(n) => text_of(field(n, "ticker"@)),
        None => None,
    }
}

/// The tickers of listed markets, in order, skipping markets without a ticker text.
pub open spec fn page_tickers(items: Seq<Seq<char>>) -> Seq<Seq<char>>
    decreases items.len(),
{
    if items.len() == 0 {
        Seq::empty()
    } else {
        match market_ticker(items.last()) {
            Some(t) => page_tickers(items.drop_last()).push(t),
            None => page_tickers(items.drop_last()),
        }
    }
}

/// A page of markets read as JSON: the tickers of its `markets` array and the text of its
/// `cursor` member; `None` when the body is not JSON or has no `markets` array.
pub open spec fn markets_page(n: Option<JsonNodeView>) -> Option<(Seq<Seq<char>>, Option<Seq<char>>)> {
    match n {
        Some(top) => match items_of(field(top, "markets"@)) {
            Some(items) => Some((page_tickers(items), text_of(field(top, "cursor"@)))),
            None => None,
        },
        None => None,
    }
}

/// The view of a decoded page.
pub open spec fn page_view(r: Option<(Vec<String>, Option<String>)>) -> Option<
    (Seq<Seq<char>>, Option<Seq<char>>),
> {
    match r {
        Some((ts, c)) => Some(
            (
                strings_view(ts@),
                match c {
                    Some(c) => Some(c@),
                    None => None,
                },
            ),
        ),
        None => None,
    }
}

/// The ticker of a listed market.
fn market_ticker_exec(item: &String) -> (r: Option<String>)
    ensures
        match r {
            Some(t) => market_ticker(item@) == Some(t@),
            None => market_ticker(item@) is None,
        },
{
    match read_json(item.as_str()) {
        Some(n) => match field_node(&n, &"ticker".to_owned()) {
            Some(t) => t.text,
            None => None,
        },
        None => None,
    }
}

/// Decode a page of markets from the exchange: the tickers of its markets and its paging
/// cursor; `None` when the body is not JSON or has no `markets` array.
pub fn decode_markets_page(body: &str) -> (r: Option<(Vec<String>, Option<String>)>)
    ensures
        page_view(r) == markets_page(json_node_of(body@)),
{
    let top = match read_json(body) {
        Some(top) => top,
        None => {
            return None;
        },
    };
    let markets = field_node(&top, &"markets".to_owned());
    let items = match &markets {
        Some(m) => match &m.items {
            Some(items) => items,
            None => {
                return None;
            },
        },
        None => {
            return None;
        },
    };
    let ghost its = strings_view(items@);
    let mut tickers: Vec<String> = Vec::new();
    let n = items.len();
    let mut i: usize = 0;
    while i < n
        invariant
            0 <= i <= n,
            n == items@.len(),
            its == strings_view(items@),
            strings_view(tickers@) == page_tickers(its.take(i as int)),
        decreases n - i,
    {
        proof {
            assert(its.take(i + 1).drop_last() =~= its.take(i as int));
            assert(its.take(i + 1).last() == items@[i as int]@);
        }
        let ghost before = tickers@;
        match market_ticker_exec(&items[i]) {
            Some(t) => {
                tickers.push(t);
                proof {
                    assert(strings_view(tickers@) =~= strings_view(before).push(tickers@.last()@));
                }
            },
            None => {},
        }
        i = i + 1;
    }
    proof {
        assert(its.take(n as int) =~= its);
    }
    let cursor = match field_node(&top, &"cursor".to_owned()) {
        Some(c) => c.text,
        None => None,
    };
    Some((tickers, cursor))
}

/// Whether paging ends after a page with this cursor: there is none, or it is empty.
pub fn last_page(cursor: &Option<String>) -> (r: bool)
    ensures
        r == (cursor is None || cursor.unwrap()@.len() == 0),
{
    match cursor {
        Some(c) => c.unicode_len() == 0,
        None => true,
    }
}

/// Whether a listing holds any market: its body is JSON with a non-empty `markets` array.
pub open spec fn listed(n: Option<JsonNodeView>) -> bool {
    match n {
        Some(top) => match items_of(field(top, "markets"@)) {
            Some(items) => items.len() > 0,
            None => false,
        },
        None => false,
    }
}

/// Whether the exchange's listing for a ticker holds any market.
pub fn market_listed(body: &str) -> (r: bool)
    ensures
        r == listed(json_node_of(body@)),
{
    match read_json(body) {
        Some(top) => match field_node(&top, &"markets".to_owned()) {
            Some(m) => match &m.items {
                Some(items) => items.len() > 0,
                None => false,
            },
            None => false,
        },
        None => false,
    }
}

} // verus!
