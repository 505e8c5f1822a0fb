//! Naming of data files and records: the timestamp pattern of a data file's name, a
//! readable form of a timestamp, and the records of one market.

use crate::kalshi_csv_io::{
    column_index, csv_table_of, find_column, read_csv_table, records_view, split, split_text, texts,
    trim, trim_text, CsvError,
};
use vstd::prelude::*;

verus! {

/// The character of a decimal digit.
pub open spec fn digit_char(d: int) -> char {
    (48 + d) as char
}

/// The decimal form of a number.
pub open spec fn decimal(n: nat) -> Seq<char>
    decreases n,
{
    if n < 10 {
        seq![digit_char(n as int)]
    } else {
        decimal(n / 10).push(digit_char((n % 10) as int))
    }
}

/// The text of one decimal digit.
fn digit_text(d: u64) -> (r: &'static str)
    requires
        d < 10,
    ensures
        r@ == seq![digit_char(d as int)],
{
    proof {
        reveal_strlit("0");
        reveal_strlit("1");
        reveal_strlit("2");
        reveal_strlit("3");
        reveal_strlit("4");
        reveal_strlit("5");
        reveal_strlit("6");
        reveal_strlit("7");
        reveal_strlit("8");
        reveal_strlit("9");
    }
    match d {
        0 => "0",
        1 => "1",
        2 => "2",
        3 => "3",
        4 => "4",
        5 => "5",
        6 => "6",
        7 => "7",
        8 => "8",
        _ => "9",
    }
}

/// The decimal form of a number.
fn decimal_text(n: u64) -> (r: String)
    ensures
        r@ == decimal(n as nat),
    decreases n,
{
    if n < 10 {
        digit_text(n).to_owned()
    } else {
        let mut s = decimal_text(n / 10);
        s.append(digit_text(n % 10));
        s
    }
}

/// A timestamp for display: the milliseconds part followed by `ms` for a timestamp in
/// milliseconds (above 10^12), else the number of seconds followed by `s`.
pub open spec fn timestamp_text(ts: u64) -> Seq<char> {
    if ts > 1_000_000_000_000 {
        decimal((ts % 1000) as nat) + seq!['m', 's']
    } else {
        decimal(ts as nat) + seq!['s']
    }
}

/// A timestamp for display.
pub fn format_timestamp(ts: u64) -> (r: String)
    ensures
        r@ == timestamp_text(ts),
{
    proof {
        reveal_strlit("ms");
        reveal_strlit("s");
    }
    if ts > 1_000_000_000_000 {
        let mut s = decimal_text(ts % 1000);
        s.append("ms");
        s
    } else {
        let mut s = decimal_text(ts);
        s.append("s");
        s
    }
}

/// A text with every occurrence of `pat` removed, scanning from the left.
pub open spec fn remove_all(s: Seq<char>, pat: Seq<char>) -> Seq<char>
    recommends
        pat.len() > 0,
    decreases s.len(),
{
    if s.len() == 0 || pat.len() == 0 {
        s
    } else if pat.len() <= s.len() && s.take(pat.len() as int) == pat {
        remove_all(s.skip(pat.len() as int), pat)
    } else {
        seq![s[0]] + remove_all(s.drop_first(), pat)
    }
}

/// The timestamp pattern of a data file's name: its last two `_`-separated parts joined
/// by `_`, without `.csv`, when the name has at least three parts.
pub open spec fn timestamp_pattern(filename: Seq<char>) -> Option<Seq<char>> {
    let parts = split(filename, '_');
    if parts.len() >= 3 {
        Some(
            remove_all(
                parts[parts.len() - 2] + seq!['_'] + parts[parts.len() - 1],
                seq!['.', 'c', 's', 'v'],
            ),
        )
    } else {
        None
    }
}

/// Whether `pat` occurs at position `i` of a text.
fn occurs_at(s: &str, n: usize, i: usize, pat: &[char]) -> (r: bool)
    requires
        n == s@.len(),
        i <= n,
    ensures
        r == (pat@.len() <= n - i && s@.skip(i as int).take(pat@.len() as int) == pat@),
{
    let m = pat.len();
    if m > n - i {
        return false;
    }
    let mut k: usize = 0;
    while k < m
        invariant
            0 <= k <= m,
            m == pat@.len(),
            m <= n - i,
            n == s@.len(),
            forall|j: int| 0 <= j < k ==> s@[i + j] == pat@[j],
        decreases m - k,
    {
        if s.get_char(i + k) != pat[k] {
            assert(s@.skip(i as int).take(m as int)[k as int] != pat@[k as int]);
            return false;
        }
        k = k + 1;
    }
    assert(s@.skip(i as int).take(m as int) =~= pat@);
    true
}

/// The text with every occurrence of `.csv` removed.
fn remove_csv(s: &str) -> (r: String)
    ensures
        r@ == remove_all(s@, seq!['.', 'c', 's', 'v']),
{
    let pat = ['.', 'c', 's', 'v'];
    let ghost p = seq!['.', 'c', 's', 'v'];
    assert(pat@ =~= p);
    let n = s.unicode_len();
    let mut out = String::new();
    let mut i: usize = 0;
    proof {
        assert(s@.skip(0) =~= s@);
        assert(out@ + remove_all(s@, p) =~= remove_all(s@, p));
    }
    while i < n
        invariant
            0 <= i <= n,
            n == s@.len(),
            pat@ == p,
            out@ + remove_all(s@.skip(i as int), p) == remove_all(s@, p),
        decreases n - i,
    {
        let ghost rest = s@.skip(i as int);
        if occurs_at(s, n, i, &pat) {
            proof {
                assert(rest.skip(4) =~= s@.skip(i + 4));
            }
            i = i + 4;
        } else {
            let c = s.substring_char(i, i + 1);
            out.append(c);
            proof {
                assert(c@ =~= seq![rest[0]]);
                assert(rest.drop_first() =~= s@.skip(i + 1));
                assert(seq![rest[0]] + remove_all(rest.drop_first(), p) == remove_all(rest, p));
                assert((out@) + remove_all(s@.skip(i + 1), p) =~= (out@.drop_last()) + (seq![rest[0]] + remove_all(rest.drop_first(), p)));
            }
            i = i + 1;
        }
    }
    proof {
        assert(s@.skip(n as int) =~= Seq::<char>::empty());
        assert(out@ + Seq::<char>::empty() =~= out@);
    }
    out
}

/// Extract the timestamp pattern of a data file's name (such as `20250723_135706` from
/// `orderbook_20250723_135706.csv`).
pub fn extract_timestamp_pattern(filename: &str) -> (r: Option<String>)
    ensures
        match r {
            Some(t) => timestamp_pattern(filename@) == Some(t@),
            None => timestamp_pattern(filename@) is None,
        },
{
    let parts = split_text(filename, '_');
    let n = parts.len();
    if n >= 3 {
        proof {
            reveal_strlit("_");
            assert(texts(parts@)[n - 2] == parts@[n - 2]@);
            assert(texts(parts@)[n - 1] == parts@[n - 1]@);
        }
        let mut joined = parts[n - 2].clone();
        joined.append("_");
        joined.append(parts[n - 1].as_str());
        assert(joined@ =~= parts@[n - 2]@ + seq!['_'] + parts@[n - 1]@);
        let t = remove_csv(joined.as_str());
        assert(split(filename@, '_') == texts(parts@));
        Some(t)
    } else {
        None
    }
}

/// The positions of the records of one market: those whose field under the first
/// `market_ticker` or `ticker` header is the market's ticker.
pub open spec fn market_rows_of(
    headers: Seq<Seq<char>>,
    records: Seq<Seq<Seq<char>>>,
    market: Seq<char>,
) -> Result<Seq<usize>, CsvError> {
    let k = column_index(headers, seq!["market_ticker"@, "ticker"@]);
    if k < 0 {
        Err(CsvError::MissingColumn)
    } else {
        Ok(rows_matching(records, k, market))
    }
}

/// The positions of the records whose field `k` is `market`, in order.
pub open spec fn rows_matching(records: Seq<Seq<Seq<char>>>, k: int, market: Seq<char>) -> Seq<
    usize,
>
    decreases records.len(),
{
    if records.len() == 0 {
        Seq::empty()
    } else {
        let rest = rows_matching(records.drop_last(), k, market);
        let r = records.last();
        if k < r.len() && r[k] == market {
            rest.push((records.len() - 1) as usize)
        } else {
            rest
        }
    }
}

/// The texts of a list of records.
pub open spec fn records_texts(records: Seq<Vec<String>>) -> Seq<Seq<Seq<char>>> {
    records.map_values(|r: Vec<String>| texts(r@))
}

/// The positions of the records of one market.
pub fn market_rows(headers: &Vec<String>, records: &Vec<Vec<String>>, market: &String) -> (r: Result<
    Vec<usize>,
    CsvError,
>)
    ensures
        match r {
            Ok(v) => market_rows_of(texts(headers@), records_texts(records@), market@) == Ok::<
                Seq<usize>,
                CsvError,
            >(v@),
            Err(e) => market_rows_of(texts(headers@), records_texts(records@), market@) == Err::<
                Seq<usize>,
                CsvError,
            >(e),
        },
{
    let mut names: Vec<String> = Vec::new();
    names.push("market_ticker".to_owned());
    names.push("ticker".to_owned());
    assert(texts(names@) =~= seq!["market_ticker"@, "ticker"@]);
    let k = match crate::kalshi_csv_io::find_column(headers, &names) {
        Some(k) => k,
        None => {
            return Err(CsvError::MissingColumn);
        },
    };
    let ghost rs = records_texts(records@);
    let mut rows: Vec<usize> = Vec::new();
    let n = records.len();
    let mut i: usize = 0;
    while i < n
        invariant
            0 <= i <= n,
            n == records@.len(),
            rs == records_texts(records@),
            rows@ == rows_matching(rs.take(i as int), k as int, market@),
        decreases n - i,
    {
        let rec = &records[i];
        proof {
            assert(rs.take(i + 1).drop_last() =~= rs.take(i as int));
            assert(rs.take(i + 1).last() == texts(rec@));
        }
        if k < rec.len() {
            proof {
                assert(texts(rec@)[k as int] == rec@[k as int]@);
            }
            if rec[k] == *market {
                rows.push(i);
            }
        }
        i = i + 1;
    }
    proof {
        assert(rs.take(n as int) =~= rs);
    }
    Ok(rows)
}

/// Whether a line of a market list names a market: not empty and not a `#` comment.
pub open spec fn names_market(line: Seq<char>) -> bool {
    line.len() > 0 && line[0] != '#'
}

/// The markets a market list names: its lines without surrounding white space, skipping
/// empty lines and `#` comments.
pub open spec fn market_list(content: Seq<char>) -> Seq<Seq<char>> {
    market_lines(split(content, '\n'))
}

/// The markets named by lines, in order.
pub open spec fn market_lines(lines: Seq<Seq<char>>) -> Seq<Seq<char>>
    decreases lines.len(),
{
    if lines.len() == 0 {
        Seq::empty()
    } else {
        let rest = market_lines(lines.drop_last());
        let t = trim(lines.last());
        if names_market(t) {
            rest.push(t)
        } else {
            rest
        }
    }
}

/// Read the markets of a market list, one per line.
pub fn parse_market_list(content: &str) -> (r: Vec<String>)
    ensures
        texts(r@) == market_list(content@),
{
    let lines = split_text(content, '\n');
    let ghost ls = texts(lines@);
    let mut out: Vec<String> = Vec::new();
    let n = lines.len();
    let mut i: usize = 0;
    while i < n
        invariant
            0 <= i <= n,
            n == lines@.len(),
            ls == texts(lines@),
            ls == split(content@, '\n'),
            texts(out@) == market_lines(ls.take(i as int)),
        decreases n - i,
    {
        proof {
            assert(ls.take(i + 1).drop_last() =~= ls.take(i as int));
            assert(ls.take(i + 1).last() == lines@[i as int]@);
        }
        let t = trim_text(lines[i].as_str());
        let keep = t.as_str().unicode_len() > 0 && t.as_str().get_char(0) != '#';
        if keep {
            let ghost before = out@;
            out.push(t);
            proof {
                assert(texts(out@) =~= texts(before).push(trim(ls[i as int])));
            }
        }
        i = i + 1;
    }
    proof {
        assert(ls.take(n as int) =~= ls);
    }
    out
}

/// Whether `p` begins `s`.
pub open spec fn starts_with(s: Seq<char>, p: Seq<char>) -> bool {
    p.len() <= s.len() && s.take(p.len() as int) == p
}

/// The markets whose ticker begins with `prefix`, in order.
pub open spec fn with_prefix(markets: Seq<Seq<char>>, prefix: Seq<char>) -> Seq<Seq<char>>
    decreases markets.len(),
{
    if markets.len() == 0 {
        Seq::empty()
    } else {
        let rest = with_prefix(markets.drop_last(), prefix);
        if starts_with(markets.last(), prefix) {
            rest.push(markets.last())
        } else {
            rest
        }
    }
}

/// The markets whose ticker begins with `prefix`.
pub fn markets_with_prefix(markets: &Vec<String>, prefix: &str) -> (r: Vec<String>)
    ensures
        texts(r@) == with_prefix(texts(markets@), prefix@),
{
    let ghost ms = texts(markets@);
    let m = prefix.unicode_len();
    let mut pat: Vec<char> = Vec::new();
    let mut j: usize = 0;
    while j < m
        invariant
            0 <= j <= m,
            m == prefix@.len(),
            pat@ == prefix@.take(j as int),
        decreases m - j,
    {
        pat.push(prefix.get_char(j));
        proof {
            assert(pat@ =~= prefix@.take(j + 1));
        }
        j = j + 1;
    }
    proof {
        assert(prefix@.take(m as int) =~= prefix@);
    }
    let mut out: Vec<String> = Vec::new();
    let n = markets.len();
    let mut i: usize = 0;
    while i < n
        invariant
            0 <= i <= n,
            n == markets@.len(),
            ms == texts(markets@),
            pat@ == prefix@,
            texts(out@) == with_prefix(ms.take(i as int), prefix@),
        decreases n - i,
    {
        proof {
            assert(ms.take(i + 1).drop_last() =~= ms.take(i as int));
            assert(ms.take(i + 1).last() == markets@[i as int]@);
        }
        let name = markets[i].as_str();
        let k = name.unicode_len();
        if occurs_at(name, k, 0, pat.as_slice()) {
            proof {
                assert(name@.skip(0) =~= name@);
            }
            let ghost before = out@;
            out.push(markets[i].clone());
            proof {
                assert(texts(out@) =~= texts(before).push(ms[i as int]));
            }
        } else {
            proof {
                assert(name@.skip(0) =~= name@);
            }
        }
        i = i + 1;
    }
    proof {
        assert(ms.take(n as int) =~= ms);
    }
    out
}

/// The tickers of the first 1000 records of a table, in order, taken under its first
/// `market_ticker` or `ticker` header; none when it has no such header. A record without
/// that field gives no ticker.
pub open spec fn sampled_tickers(h: Seq<Seq<char>>, recs: Seq<Seq<Seq<char>>>) -> Seq<Seq<char>> {
    let k = column_index(h, seq!["market_ticker"@, "ticker"@]);
    if k < 0 {
        Seq::empty()
    } else {
        column_fields(recs.take(if recs.len() < 1000 { recs.len() as int } else { 1000 }), k)
    }
}

/// The fields at position `k` of records, in order, skipping records too short for it.
pub open spec fn column_fields(recs: Seq<Seq<Seq<char>>>, k: int) -> Seq<Seq<char>>
    decreases recs.len(),
{
    if recs.len() == 0 {
        Seq::empty()
    } else if k < recs.last().len() {
        column_fields(recs.drop_last(), k).push(recs.last()[k])
    } else {
        column_fields(recs.drop_last(), k)
    }
}

/// The sampled tickers of a CSV file's bytes; an error when the header row, or one of the
/// first 1000 records, cannot be read.
pub open spec fn file_tickers(bytes: Seq<u8>) -> Result<Seq<Seq<char>>, CsvError> {
    match csv_table_of(bytes) {
        None => Err(CsvError::Malformed),
        Some((h, recs, broken)) => if broken && recs.len() < 1000 {
            Err(CsvError::Malformed)
        } else {
            Ok(sampled_tickers(h, recs))
        },
    }
}

/// The texts of a sequence, each kept at its first occurrence only.
pub open spec fn distinct_texts(s: Seq<Seq<char>>) -> Seq<Seq<char>>
    decreases s.len(),
{
    if s.len() == 0 {
        Seq::empty()
    } else if distinct_texts(s.drop_last()).contains(s.last()) {
        distinct_texts(s.drop_last())
    } else {
        distinct_texts(s.drop_last()).push(s.last())
    }
}

/// The markets named in an orderbook file and a trades file: the tickers of the first 1000
/// records of each, orderbook file first, each once in the order first seen.
pub open spec fn available_markets_of(orderbook: Seq<u8>, trades: Seq<u8>) -> Result<
    Seq<Seq<char>>,
    CsvError,
> {
    match (file_tickers(orderbook), file_tickers(trades)) {
        (Ok(a), Ok(b)) => Ok(distinct_texts(a + b)),
        (Err(e), _) => Err(e),
        (_, Err(e)) => Err(e),
    }
}

/// Whether a list of strings holds a text.
fn holds_text(v: &Vec<String>, t: &String) -> (r: bool)
    ensures
        r == texts(v@).contains(t@),
{
    let n = v.len();
    let mut i: usize = 0;
    while i < n
        invariant
            0 <= i <= n,
            n == v@.len(),
            forall|j: int| 0 <= j < i ==> texts(v@)[j] != t@,
        decreases n - i,
    {
        if v[i] == *t {
            assert(texts(v@)[i as int] == t@);
            return true;
        }
        i = i + 1;
    }
    false
}

/// Append the sampled tickers of a CSV file to `out`, each new one once.
fn add_file_tickers(out: &mut Vec<String>, bytes: &[u8]) -> (r: Result<(), CsvError>)
    ensures
        match r {
            Ok(()) => file_tickers(bytes@) matches Ok(ts) && forall|base: Seq<Seq<char>>|
                texts(old(out)@) == distinct_texts(base) ==> #[trigger] distinct_texts(base + ts)
                    == texts(final(out)@),
            Err(e) => file_tickers(bytes@) == Err::<Seq<Seq<char>>, CsvError>(e),
        },
{
    let (headers, records, broken) = match read_csv_table(bytes) {
        Some(t) => t,
        None => {
            return Err(CsvError::Malformed);
        },
    };
    if broken && records.len() < 1000 {
        return Err(CsvError::Malformed);
    }
    let ghost h = texts(headers@);
    let ghost recs = records_view(records@);
    let mut names: Vec<String> = Vec::new();
    names.push("market_ticker".to_owned());
    names.push("ticker".to_owned());
    assert(texts(names@) =~= seq!["market_ticker"@, "ticker"@]);
    let ghost o0 = texts(out@);
    let col = match find_column(&headers, &names) {
        Some(c) => c,
        None => {
            proof {
                assert forall|base: Seq<Seq<char>>| o0 == distinct_texts(base) implies #[trigger] distinct_texts(
                    base + sampled_tickers(h, recs),
                ) == texts(out@) by {
                    assert(base + Seq::<Seq<char>>::empty() =~= base);
                }
            }
            return Ok(());
        },
    };
    let n = if records.len() < 1000 {
        records.len()
    } else {
        1000
    };
    let mut i: usize = 0;
    proof {
        assert(recs.take(n as int).take(0) =~= Seq::<Seq<Seq<char>>>::empty());
        assert forall|base: Seq<Seq<char>>| o0 == distinct_texts(base) implies #[trigger] distinct_texts(
            base + column_fields(recs.take(n as int).take(0), col as int),
        ) == texts(out@) by {
            assert(base + Seq::<Seq<char>>::empty() =~= base);
        }
    }
    while i < n
        invariant
            0 <= i <= n,
            n <= records@.len(),
            n == (if records@.len() < 1000 { records@.len() } else { 1000 }),
            h == texts(headers@),
            recs == records_view(records@),
            col as int == column_index(h, seq!["market_ticker"@, "ticker"@]),
            forall|base: Seq<Seq<char>>|
                o0 == distinct_texts(base) ==> #[trigger] distinct_texts(
                    base + column_fields(recs.take(n as int).take(i as int), col as int),
                ) == texts(out@),
        decreases n - i,
    {
        let ghost rs = recs.take(n as int);
        let ghost before = texts(out@);
        proof {
            assert(rs.take(i + 1).drop_last() =~= rs.take(i as int));
            assert(rs.take(i + 1).last() == texts(records@[i as int]@));
        }
        if col < records[i].len() {
            let t = records[i][col].clone();
            let seen = holds_text(out, &t);
            if !seen {
                out.push(t);
            }
            proof {
                assert forall|base: Seq<Seq<char>>| o0 == distinct_texts(base) implies #[trigger] distinct_texts(
                    base + column_fields(rs.take(i + 1), col as int),
                ) == texts(out@) by {
                    let cf = column_fields(rs.take(i as int), col as int);
                    assert(column_fields(rs.take(i + 1), col as int) == cf.push(t@));
                    assert((base + cf).push(t@) =~= base + cf.push(t@));
                    assert((base + cf.push(t@)).drop_last() =~= base + cf);
                    assert(distinct_texts(base + cf) == before);
                    if !seen {
                        assert(texts(out@) =~= before.push(t@));
                    }
                }
            }
        } else {
            proof {
                assert forall|base: Seq<Seq<char>>| o0 == distinct_texts(base) implies #[trigger] distinct_texts(
                    base + column_fields(rs.take(i + 1), col as int),
                ) == texts(out@) by {
                    assert(column_fields(rs.take(i + 1), col as int) == column_fields(
                        rs.take(i as int),
                        col as int,
                    ));
                }
            }
        }
        i = i + 1;
    }
    proof {
        assert(recs.take(n as int).take(n as int) =~= recs.take(n as int));
    }
    Ok(())
}

/// The markets named in an orderbook file and a trades file, given by their bytes: the
/// tickers of the first 1000 records of each, each once in the order first seen.
pub fn available_markets(orderbook: &[u8], trades: &[u8]) -> (r: Result<Vec<String>, CsvError>)
    ensures
        match r {
            Ok(v) => available_markets_of(orderbook@, trades@) == Ok::<Seq<Seq<char>>, CsvError>(
                texts(v@),
            ),
            Err(e) => available_markets_of(orderbook@, trades@) == Err::<Seq<Seq<char>>, CsvError>(
                e,
            ),
        },
{
    let mut out: Vec<String> = Vec::new();
    proof {
        assert(texts(out@) =~= distinct_texts(Seq::empty()));
    }
    add_file_tickers(&mut out, orderbook)?;
    let ghost mid = texts(out@);
    add_file_tickers(&mut out, trades)?;
    proof {
        let a = file_tickers(orderbook@).unwrap();
        let b = file_tickers(trades@).unwrap();
        assert(Seq::<Seq<char>>::empty() + a =~= a);
        assert(distinct_texts(Seq::<Seq<char>>::empty() + a) == mid);
        assert(distinct_texts(a + b) == texts(out@));
    }
    Ok(out)
}

} // verus!
