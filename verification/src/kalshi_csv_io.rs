//! Reading orderbook and trade records: a record is the list of its fields, read
//! against the list of header names of its file.

use crate::kalshi_types::{RawObRow, RawObRowView, RawTradeRow, RawTradeRowView, Side};
use crate::kalshi_json::{
    field, field_node, int_of, json_node_of, read_json, strings_view, uint_of, JsonNode, JsonNodeView,
};
use vstd::prelude::*;

verus! {

/// Why a record could not be read.
#[derive(Debug, Clone, Copy, PartialEq, Eq, Structural)]
pub enum CsvError {
    /// None of the accepted names of a column is among the headers.
    MissingColumn,
    /// The record has no field at the column's position.
    MissingField,
    /// A field is not a decimal number of its type.
    InvalidNumber,
    /// A side field is neither `yes` nor `no`, in any case.
    InvalidSide,
    /// The message type is neither `snapshot` nor `delta`.
    UnknownMsgType,
    /// A level object lacks a valid price or quantity.
    InvalidLevel,
    /// The bytes are not a well-formed CSV table.
    Malformed,
}

/// An ASCII decimal digit.
pub open spec fn is_digit(c: char) -> bool {
    '0' <= c <= '9'
}

/// Every character is a decimal digit.
pub open spec fn all_digits(s: Seq<char>) -> bool {
    forall|i: int| 0 <= i < s.len() ==> is_digit(#[trigger] s[i])
}

/// The value of a string of decimal digits.
pub open spec fn digits_value(s: Seq<char>) -> int
    decreases s.len(),
{
    if s.len() == 0 {
        0
    } else {
        digits_value(s.drop_last()) * 10 + (s.last() as int - '0' as int)
    }
}

/// The magnitude of a decimal after at most one leading `+`: one or more digits.
pub open spec fn plus_decimal(s: Seq<char>) -> Option<int> {
    let body = if s.len() > 0 && s[0] == '+' {
        s.drop_first()
    } else {
        s
    };
    if body.len() > 0 && all_digits(body) {
        Some(digits_value(body))
    } else {
        None
    }
}

/// The value of an unsigned decimal text up to `max`, as Rust's `str::parse` reads it.
pub open spec fn unsigned_decimal(s: Seq<char>, max: int) -> Option<int> {
    match plus_decimal(s) {
        Some(v) => if v <= max {
            Some(v)
        } else {
            None
        },
        None => None,
    }
}

/// The value of a signed decimal text within the `i64` range, as Rust's `str::parse`
/// reads it: an optional `-` or `+`, then one or more digits.
pub open spec fn signed_decimal(s: Seq<char>) -> Option<int> {
    if s.len() > 0 && s[0] == '-' {
        let body = s.drop_first();
        if body.len() > 0 && all_digits(body) && digits_value(body) <= 0x8000_0000_0000_0000 {
            Some(-digits_value(body))
        } else {
            None
        }
    } else {
        unsigned_decimal(s, i64::MAX as int)
    }
}

/// Digits never lower the value they extend.
proof fn lemma_digits_value_grows(s: Seq<char>, i: int)
    requires
        0 <= i <= s.len(),
        all_digits(s),
    ensures
        digits_value(s.take(i)) <= digits_value(s),
        0 <= digits_value(s.take(i)),
    decreases s.len() - i,
{
    if i == s.len() {
        assert(s.take(i) =~= s);
        lemma_digits_value_nonneg(s);
    } else {
        lemma_digits_value_grows(s, i + 1);
        assert(s.take(i + 1).drop_last() =~= s.take(i));
        assert(is_digit(s[i]));
        lemma_digits_value_nonneg(s.take(i));
    }
}

/// The value of digits is not negative.
proof fn lemma_digits_value_nonneg(s: Seq<char>)
    requires
        all_digits(s),
    ensures
        0 <= digits_value(s),
    decreases s.len(),
{
    if s.len() > 0 {
        assert(all_digits(s.drop_last())) by {
            assert forall|i: int| 0 <= i < s.drop_last().len() implies is_digit(
                #[trigger] s.drop_last()[i],
            ) by {
                assert(s.drop_last()[i] == s[i]);
            }
        }
        lemma_digits_value_nonneg(s.drop_last());
        assert(is_digit(s.last()));
    }
}

/// The value of the digits of `s` from position `start`, when they are one or more
/// digits with a value at most `max`.
fn digits_from(s: &str, start: usize, max: u64) -> (r: Option<u64>)
    requires
        start <= s@.len(),
    ensures
        ({
            let body = s@.skip(start as int);
            &&& (r is Some <==> body.len() > 0 && all_digits(body) && digits_value(body) <= max)
            &&& (r matches Some(v) ==> v == digits_value(body))
        }),
{
    let ghost body = s@.skip(start as int);
    let n = s.unicode_len();
    if start >= n {
        return None;
    }
    let mut v: u64 = 0;
    let mut i: usize = start;
    while i < n
        invariant
            start <= i <= n,
            n == s@.len(),
            body == s@.skip(start as int),
            all_digits(body.take(i - start)),
            v == digits_value(body.take(i - start)),
            v <= max,
        decreases n - i,
    {
        let c = s.get_char(i);
        proof {
            assert(body[i - start] == c);
            assert(body.take(i - start + 1).drop_last() =~= body.take(i - start));
            assert(body.take(i - start + 1).last() == c);
        }
        if !('0' <= c && c <= '9') {
            proof {
                assert(!all_digits(body)) by {
                    assert(!is_digit(body[i - start]));
                }
            }
            return None;
        }
        let d = (c as u32 - '0' as u32) as u64;
        if d > max || v > (max - d) / 10 {
            proof {
                assert(all_digits(body.take(i - start + 1))) by {
                    assert forall|k: int| 0 <= k < body.take(i - start + 1).len() implies is_digit(
                        #[trigger] body.take(i - start + 1)[k],
                    ) by {
                        if k < i - start {
                            assert(body.take(i - start + 1)[k] == body.take(i - start)[k]);
                        }
                    }
                }
                assert(digits_value(body.take(i - start + 1)) == v * 10 + d);
                if d <= max {
                    assert(v * 10 + d > max) by (nonlinear_arith)
                        requires
                            v > (max - d) / 10,
                            d <= 9,
                            d <= max,
                    ;
                }
                if all_digits(body) {
                    lemma_digits_value_grows(body, i - start + 1);
                }
            }
            return None;
        }
        proof {
            assert(v * 10 + d <= max) by (nonlinear_arith)
                requires
                    v <= (max - d) / 10,
                    d <= max,
            ;
            assert forall|k: int| 0 <= k < body.take(i - start + 1).len() implies is_digit(
                #[trigger] body.take(i - start + 1)[k],
            ) by {
                if k < i - start {
                    assert(body.take(i - start + 1)[k] == body.take(i - start)[k]);
                }
            }
        }
        v = v * 10 + d;
        i = i + 1;
    }
    proof {
        assert(body.take(n - start) =~= body);
    }
    Some(v)
}

/// The unsigned decimal of a text, up to `max`.
fn parse_unsigned(s: &str, max: u64) -> (r: Option<u64>)
    ensures
        r is Some <==> unsigned_decimal(s@, max as int) is Some,
        r matches Some(v) ==> unsigned_decimal(s@, max as int) == Some(v as int),
{
    let n = s.unicode_len();
    let start: usize = if n > 0 && s.get_char(0) == '+' {
        1
    } else {
        0
    };
    proof {
        if start == 1 {
            assert(s@.skip(1) =~= s@.drop_first());
        } else {
            assert(s@.skip(0) =~= s@);
        }
    }
    digits_from(s, start, max)
}

/// Read a `u64` as Rust's `str::parse` does: an optional `+`, then decimal digits.
pub fn parse_u64(s: &str) -> (r: Option<u64>)
    ensures
        r is Some <==> unsigned_decimal(s@, u64::MAX as int) is Some,
        r matches Some(v) ==> unsigned_decimal(s@, u64::MAX as int) == Some(v as int),
{
    parse_unsigned(s, u64::MAX)
}

/// Read a `u8` as Rust's `str::parse` does: an optional `+`, then decimal digits.
pub fn parse_u8(s: &str) -> (r: Option<u8>)
    ensures
        r is Some <==> unsigned_decimal(s@, u8::MAX as int) is Some,
        r matches Some(v) ==> unsigned_decimal(s@, u8::MAX as int) == Some(v as int),
{
    match parse_unsigned(s, u8::MAX as u64) {
        Some(v) => Some(v as u8),
        None => None,
    }
}

/// Read an `i64` as Rust's `str::parse` does: an optional `-` or `+`, then decimal digits.
pub fn parse_i64(s: &str) -> (r: Option<i64>)
    ensures
        r is Some <==> signed_decimal(s@) is Some,
        r matches Some(v) ==> signed_decimal(s@) == Some(v as int),
{
    let n = s.unicode_len();
    if n > 0 && s.get_char(0) == '-' {
        proof {
            assert(s@.skip(1) =~= s@.drop_first());
        }
        match digits_from(s, 1, 0x8000_0000_0000_0000) {
            Some(v) => {
                if v == 0x8000_0000_0000_0000 {
                    Some(i64::MIN)
                } else {
                    Some(-(v as i64))
                }
            },
            None => None,
        }
    } else {
        match parse_unsigned(s, i64::MAX as u64) {
            Some(v) => Some(v as i64),
            None => None,
        }
    }
}

/// Whether a character is `t` up to ASCII case, `t` being a lower-case letter.
pub open spec fn char_matches_lower(c: char, t: char) -> bool {
    c == t || ('A' <= c <= 'Z' && c as u32 + 32 == t as u32)
}

/// Whether a text lower-cases to `t`, a word of lower-case ASCII letters.
pub open spec fn lower_equals(s: Seq<char>, t: Seq<char>) -> bool {
    s.len() == t.len() && forall|i: int| 0 <= i < s.len() ==> char_matches_lower(#[trigger] s[i], t[i])
}

/// The side a text names: `yes` or `no`, in any case.
pub open spec fn side_named(s: Seq<char>) -> Option<Side> {
    if lower_equals(s, seq!['y', 'e', 's']) {
        Some(Side::Yes)
    } else if lower_equals(s, seq!['n', 'o']) {
        Some(Side::No)
    } else {
        None
    }
}

/// Whether a text lower-cases to the word `t`.
fn lower_equals_exec(s: &str, t: &[char]) -> (r: bool)
    ensures
        r == lower_equals(s@, t@),
{
    let n = s.unicode_len();
    if n != t.len() {
        return false;
    }
    let mut i: usize = 0;
    while i < n
        invariant
            0 <= i <= n,
            n == s@.len(),
            n == t@.len(),
            forall|k: int| 0 <= k < i ==> char_matches_lower(#[trigger] s@[k], t@[k]),
        decreases n - i,
    {
        let c = s.get_char(i);
        let tc = t[i];
        let ok = c == tc || ('A' <= c && c <= 'Z' && (c as u32) + 32 == tc as u32);
        assert(t@[i as int] == tc);
        assert(s@[i as int] == c);
        if !ok {
            assert(!char_matches_lower(s@[i as int], t@[i as int]));
            return false;
        }
        assert(char_matches_lower(s@[i as int], t@[i as int]));
        i = i + 1;
    }
    true
}

/// The side a text names, `yes` or `no` in any case.
pub fn parse_side(s: &str) -> (r: Option<Side>)
    ensures
        r == side_named(s@),
{
    let yes = ['y', 'e', 's'];
    let no = ['n', 'o'];
    assert(yes@ =~= seq!['y', 'e', 's']);
    assert(no@ =~= seq!['n', 'o']);
    if lower_equals_exec(s, &yes) {
        Some(Side::Yes)
    } else if lower_equals_exec(s, &no) {
        Some(Side::No)
    } else {
        None
    }
}

/// The texts of a list of strings.
pub open spec fn texts(v: Seq<String>) -> Seq<Seq<char>> {
    v.map_values(|s: String| s@)
}

/// The position of the first header that is one of `names`, or -1.
pub open spec fn column_index(headers: Seq<Seq<char>>, names: Seq<Seq<char>>) -> int
    decreases headers.len(),
{
    if headers.len() == 0 {
        -1
    } else {
        let k = column_index(headers.drop_last(), names);
        if k >= 0 {
            k
        } else if names.contains(headers.last()) {
            headers.len() - 1
        } else {
            -1
        }
    }
}

/// The field of a record under the first header that is one of `names`.
pub open spec fn field_of(headers: Seq<Seq<char>>, record: Seq<Seq<char>>, names: Seq<Seq<char>>) -> Result<
    Seq<char>,
    CsvError,
> {
    let k = column_index(headers, names);
    if k < 0 {
        Err(CsvError::MissingColumn)
    } else if k >= record.len() {
        Err(CsvError::MissingField)
    } else {
        Ok(record[k])
    }
}

/// The first column found in a prefix of the headers is the first of all.
proof fn lemma_column_index_prefix(headers: Seq<Seq<char>>, names: Seq<Seq<char>>, k: int)
    requires
        0 <= k <= headers.len(),
        column_index(headers.take(k), names) >= 0,
    ensures
        column_index(headers, names) == column_index(headers.take(k), names),
    decreases headers.len() - k,
{
    if k == headers.len() {
        assert(headers.take(k) =~= headers);
    } else {
        assert(headers.take(k + 1).drop_last() =~= headers.take(k));
        lemma_column_index_prefix(headers, names, k + 1);
    }
}

/// Whether one of `names` is `h`.
fn name_among(names: &Vec<String>, h: &String) -> (r: bool)
    ensures
        r == texts(names@).contains(h@),
{
    let n = names.len();
    let mut j: usize = 0;
    while j < n
        invariant
            0 <= j <= n,
            n == names@.len(),
            forall|k: int| 0 <= k < j ==> texts(names@)[k] != h@,
        decreases n - j,
    {
        if names[j] == *h {
            assert(texts(names@)[j as int] == h@);
            return true;
        }
        j = j + 1;
    }
    false
}

/// The position of the first header that is one of `names`.
pub fn find_column(headers: &Vec<String>, names: &Vec<String>) -> (r: Option<usize>)
    ensures
        match r {
            Some(k) => k < headers@.len() && column_index(texts(headers@), texts(names@)) == k,
            None => column_index(texts(headers@), texts(names@)) == -1,
        },
{
    let ghost hs = texts(headers@);
    let ghost ns = texts(names@);
    let n = headers.len();
    let mut k: usize = 0;
    while k < n
        invariant
            0 <= k <= n,
            n == headers@.len(),
            hs == texts(headers@),
            ns == texts(names@),
            column_index(hs.take(k as int), ns) == -1,
        decreases n - k,
    {
        proof {
            assert(hs.take(k + 1).drop_last() =~= hs.take(k as int));
            assert(hs.take(k + 1).last() == headers@[k as int]@);
        }
        if name_among(names, &headers[k]) {
            proof {
                lemma_column_index_prefix(hs, ns, k + 1);
            }
            return Some(k);
        }
        k = k + 1;
    }
    proof {
        assert(hs.take(n as int) =~= hs);
    }
    None
}

/// The field of a record under the first header that is one of `names`.
pub fn get_field<'a>(headers: &Vec<String>, record: &'a Vec<String>, names: &Vec<String>) -> (r:
    Result<&'a String, CsvError>)
    ensures
        match r {
            Ok(f) => field_of(texts(headers@), texts(record@), texts(names@)) == Ok::<
                Seq<char>,
                CsvError,
            >(f@),
            Err(e) => field_of(texts(headers@), texts(record@), texts(names@)) == Err::<
                Seq<char>,
                CsvError,
            >(e),
        },
{
    match find_column(headers, names) {
        Some(k) => {
            if k < record.len() {
                assert(texts(record@)[k as int] == record@[k as int]@);
                Ok(&record[k])
            } else {
                Err(CsvError::MissingField)
            }
        },
        None => Err(CsvError::MissingColumn),
    }
}

/// A white-space character, as Rust's `char::is_whitespace` has it.
pub open spec fn is_white(c: char) -> bool {
    ||| '\t' <= c <= '\r'
    ||| c == ' '
    ||| c == '\u{85}'
    ||| c == '\u{a0}'
    ||| c == '\u{1680}'
    ||| '\u{2000}' <= c <= '\u{200a}'
    ||| c == '\u{2028}'
    ||| c == '\u{2029}'
    ||| c == '\u{202f}'
    ||| c == '\u{205f}'
    ||| c == '\u{3000}'
}

/// A text without its leading white space.
pub open spec fn trim_start(s: Seq<char>) -> Seq<char>
    decreases s.len(),
{
    if s.len() > 0 && is_white(s[0]) {
        trim_start(s.drop_first())
    } else {
        s
    }
}

/// A text without its trailing white space.
pub open spec fn trim_end(s: Seq<char>) -> Seq<char>
    decreases s.len(),
{
    if s.len() > 0 && is_white(s.last()) {
        trim_end(s.drop_last())
    } else {
        s
    }
}

/// A text without its leading and trailing white space, as Rust's `str::trim` has it.
pub open spec fn trim(s: Seq<char>) -> Seq<char> {
    trim_end(trim_start(s))
}

/// The pieces of a text between the separators, as Rust's `str::split` gives them.
pub open spec fn split(s: Seq<char>, sep: char) -> Seq<Seq<char>>
    decreases s.len(),
{
    if s.len() == 0 {
        seq![Seq::empty()]
    } else {
        let p = split(s.drop_last(), sep);
        if s.last() == sep {
            p.push(Seq::empty())
        } else {
            p.update(p.len() - 1, p.last().push(s.last()))
        }
    }
}

/// A split has at least one piece.
proof fn lemma_split_nonempty(s: Seq<char>, sep: char)
    ensures
        split(s, sep).len() >= 1,
    decreases s.len(),
{
    if s.len() > 0 {
        lemma_split_nonempty(s.drop_last(), sep);
    }
}

/// Dropping leading white space up to position `a`.
proof fn lemma_trim_start_at(s: Seq<char>, a: int)
    requires
        0 <= a <= s.len(),
        forall|k: int| 0 <= k < a ==> is_white(#[trigger] s[k]),
        a == s.len() || !is_white(s[a]),
    ensures
        trim_start(s) == s.skip(a),
    decreases a,
{
    if a == 0 {
        assert(s.skip(0) =~= s);
    } else {
        let t = s.drop_first();
        assert forall|k: int| 0 <= k < a - 1 implies is_white(#[trigger] t[k]) by {
            assert(t[k] == s[k + 1]);
        }
        if a < s.len() {
            assert(t[a - 1] == s[a]);
        }
        lemma_trim_start_at(t, a - 1);
        assert(t.skip(a - 1) =~= s.skip(a));
    }
}

/// Dropping trailing white space down to position `b`.
proof fn lemma_trim_end_at(s: Seq<char>, b: int)
    requires
        0 <= b <= s.len(),
        forall|k: int| b <= k < s.len() ==> is_white(#[trigger] s[k]),
        b == 0 || !is_white(s[b - 1]),
    ensures
        trim_end(s) == s.take(b),
    decreases s.len() - b,
{
    if b == s.len() {
        assert(s.take(b) =~= s);
    } else {
        let t = s.drop_last();
        assert forall|k: int| b <= k < t.len() implies is_white(#[trigger] t[k]) by {
            assert(t[k] == s[k]);
        }
        if b > 0 {
            assert(t[b - 1] == s[b - 1]);
        }
        lemma_trim_end_at(t, b);
        assert(t.take(b) =~= s.take(b));
    }
}

/// Whether a character is white space.
fn is_white_exec(c: char) -> (r: bool)
    ensures
        r == is_white(c),
{
    ('\t' <= c && c <= '\r') || c == ' ' || c == '\u{85}' || c == '\u{a0}' || c == '\u{1680}' || (
    '\u{2000}' <= c && c <= '\u{200a}') || c == '\u{2028}' || c == '\u{2029}' || c == '\u{202f}'
        || c == '\u{205f}' || c == '\u{3000}'
}

/// The text without leading and trailing white space.
pub(crate) fn trim_text(s: &str) -> (r: String)
    ensures
        r@ == trim(s@),
{
    let n = s.unicode_len();
    let mut a: usize = 0;
    while a < n && is_white_exec(s.get_char(a))
        invariant
            0 <= a <= n,
            n == s@.len(),
            forall|k: int| 0 <= k < a ==> is_white(#[trigger] s@[k]),
        decreases n - a,
    {
        a = a + 1;
    }
    proof {
        lemma_trim_start_at(s@, a as int);
    }
    let ghost t = s@.skip(a as int);
    let mut b: usize = n;
    while b > a && is_white_exec(s.get_char(b - 1))
        invariant
            a <= b <= n,
            n == s@.len(),
            t == s@.skip(a as int),
            forall|k: int| b - a <= k < t.len() ==> is_white(#[trigger] t[k]),
        decreases b,
    {
        assert(t[b - 1 - a] == s@[b - 1]);
        b = b - 1;
    }
    proof {
        if b > a {
            assert(t[b - a - 1] == s@[b - 1]);
        }
        lemma_trim_end_at(t, (b - a) as int);
        assert(t.take((b - a) as int) =~= s@.subrange(a as int, b as int));
    }
    s.substring_char(a, b).to_owned()
}

/// The pieces of a text between the separators.
pub(crate) fn split_text(s: &str, sep: char) -> (r: Vec<String>)
    ensures
        texts(r@) == split(s@, sep),
{
    let n = s.unicode_len();
    let mut pieces: Vec<String> = Vec::new();
    let mut cur: usize = 0;
    let mut i: usize = 0;
    proof {
        assert(texts(pieces@) =~= Seq::<Seq<char>>::empty());
        assert(s@.subrange(0, 0) =~= Seq::<char>::empty());
        assert(s@.take(0) =~= Seq::<char>::empty());
        assert(texts(pieces@).push(Seq::<char>::empty()) =~= seq![Seq::<char>::empty()]);
    }
    while i < n
        invariant
            0 <= cur <= i <= n,
            n == s@.len(),
            texts(pieces@).push(s@.subrange(cur as int, i as int)) == split(s@.take(i as int), sep),
        decreases n - i,
    {
        let c = s.get_char(i);
        proof {
            assert(s@.take(i + 1).drop_last() =~= s@.take(i as int));
            assert(s@.take(i + 1).last() == c);
        }
        if c == sep {
            let ghost before = pieces@;
            let piece = s.substring_char(cur, i).to_owned();
            pieces.push(piece);
            proof {
                assert(texts(pieces@) =~= texts(before).push(s@.subrange(cur as int, i as int)));
            }
            cur = i + 1;
            proof {
                assert(s@.subrange(cur as int, i + 1) =~= Seq::<char>::empty());
            }
        } else {
            proof {
                assert(s@.subrange(cur as int, i + 1) =~= s@.subrange(cur as int, i as int).push(c));
            }
        }
        i = i + 1;
    }
    let piece = s.substring_char(cur, n).to_owned();
    pieces.push(piece);
    proof {
        assert(s@.take(n as int) =~= s@);
    }
    pieces
}

/// The levels of `price:quantity` pairs separated by commas; a piece that is not one
/// pair is ignored, and a pair whose price or quantity is not a number is refused.
pub open spec fn pair_levels(pieces: Seq<Seq<char>>) -> Result<Seq<(u8, i64)>, CsvError>
    decreases pieces.len(),
{
    if pieces.len() == 0 {
        Ok(Seq::empty())
    } else {
        match pair_levels(pieces.drop_last()) {
            Err(e) => Err(e),
            Ok(ls) => {
                let parts = split(pieces.last(), ':');
                if parts.len() == 2 {
                    match (unsigned_decimal(trim(parts[0]), u8::MAX as int), signed_decimal(
                        trim(parts[1]),
                    )) {
                        (Some(p), Some(q)) => Ok(ls.push((p as u8, q as i64))),
                        _ => Err(CsvError::InvalidNumber),
                    }
                } else {
                    Ok(ls)
                }
            },
        }
    }
}

/// What one element of a JSON array of levels gives: nothing when it is no object; the
/// level of its `price` (as a `u64`, cut to its low byte) and `quantity` (as an `i64`)
/// members; an error when either is missing or not such an integer.
pub open spec fn item_level(t: Seq<char>) -> Option<Result<(u8, i64), CsvError>> {
    match json_node_of(t) {
        Some(n) => node_level(n),
        None => None,
    }
}

/// What one read JSON value of a levels array gives: nothing when it is no object; the
/// level of its `price` (as a `u64`, cut to its low byte) and `quantity` (as an `i64`)
/// members; an error when either is missing or not such an integer.
pub open spec fn node_level(n: JsonNodeView) -> Option<Result<(u8, i64), CsvError>> {
    match n.fields {
        Some(_) => match (uint_of(field(n, "price"@)), int_of(field(n, "quantity"@))) {
            (Some(p), Some(q)) => Some(Ok((p as u8, q))),
            _ => Some(Err(CsvError::InvalidLevel)),
        },
        None => None,
    }
}

/// The levels of the objects of a JSON array, given by the texts of its elements, in
/// order; the first element that is refused refuses them all.
pub open spec fn json_item_levels(items: Seq<Seq<char>>) -> Result<Seq<(u8, i64)>, CsvError>
    decreases items.len(),
{
    if items.len() == 0 {
        Ok(Seq::empty())
    } else {
        match json_item_levels(items.drop_last()) {
            Err(e) => Err(e),
            Ok(ls) => match item_level(items.last()) {
                Some(Ok(l)) => Ok(ls.push(l)),
                Some(Err(e)) => Err(e),
                None => Ok(ls),
            },
        }
    }
}

/// The levels a levels field gives: none when it is empty; when it is JSON, those of its
/// array (none for any other JSON value); otherwise those of its `price:quantity` pairs.
pub open spec fn levels_of(text: Seq<char>) -> Result<Seq<(u8, i64)>, CsvError> {
    if text.len() == 0 {
        Ok(Seq::empty())
    } else {
        match json_node_of(text) {
            Some(n) => match n.items {
                Some(items) => json_item_levels(items),
                None => Ok(Seq::empty()),
            },
            None => pair_levels(split(text, ',')),
        }
    }
}

/// What one element of a JSON array of levels gives.
fn item_level_exec(t: &String) -> (r: Option<Result<(u8, i64), CsvError>>)
    ensures
        r == item_level(t@),
{
    match read_json(t.as_str()) {
        Some(n) => level_of_node(&n),
        None => None,
    }
}

/// What one read JSON value of a levels array gives.
pub fn level_of_node(n: &JsonNode) -> (r: Option<Result<(u8, i64), CsvError>>)
    ensures
        r == node_level(n@),
{
    if n.fields.is_some() {
        let price = field_node(n, &"price".to_owned());
        let quantity = field_node(n, &"quantity".to_owned());
        let p = match price {
            Some(x) => x.uint,
            None => None,
        };
        let q = match quantity {
            Some(x) => x.int,
            None => None,
        };
        match (p, q) {
            (Some(p), Some(q)) => Some(Ok((p as u8, q))),
            _ => Some(Err(CsvError::InvalidLevel)),
        }
    } else {
        None
    }
}

/// The levels of the objects of a JSON array, given by the texts of its elements.
pub fn json_array_levels(items: &Vec<String>) -> (r: Result<Vec<(u8, i64)>, CsvError>)
    ensures
        match r {
            Ok(v) => json_item_levels(strings_view(items@)) == Ok::<Seq<(u8, i64)>, CsvError>(v@),
            Err(e) => json_item_levels(strings_view(items@)) == Err::<Seq<(u8, i64)>, CsvError>(e),
        },
{
    let ghost ts = strings_view(items@);
    let mut levels: Vec<(u8, i64)> = Vec::new();
    let n = items.len();
    let mut i: usize = 0;
    while i < n
        invariant
            0 <= i <= n,
            n == items@.len(),
            ts == strings_view(items@),
            json_item_levels(ts.take(i as int)) == Ok::<Seq<(u8, i64)>, CsvError>(levels@),
        decreases n - i,
    {
        proof {
            assert(ts.take(i + 1).drop_last() =~= ts.take(i as int));
            assert(ts.take(i + 1).last() == items@[i as int]@);
        }
        match item_level_exec(&items[i]) {
            Some(Ok(l)) => {
                levels.push(l);
            },
            Some(Err(e)) => {
                proof {
                    lemma_json_item_levels_fails(ts, i as int + 1);
                }
                return Err(e);
            },
            None => {},
        }
        i = i + 1;
    }
    proof {
        assert(ts.take(n as int) =~= ts);
    }
    Ok(levels)
}

/// Once a prefix of the JSON elements is refused, all of them are.
proof fn lemma_json_item_levels_fails(items: Seq<Seq<char>>, k: int)
    requires
        0 <= k <= items.len(),
        json_item_levels(items.take(k)) is Err,
    ensures
        json_item_levels(items) == json_item_levels(items.take(k)),
    decreases items.len() - k,
{
    if k == items.len() {
        assert(items.take(k) =~= items);
    } else {
        assert(items.take(k + 1).drop_last() =~= items.take(k));
        lemma_json_item_levels_fails(items, k + 1);
    }
}

/// Once a prefix of the pairs is refused, all of them are.
proof fn lemma_pair_levels_fails(pieces: Seq<Seq<char>>, k: int)
    requires
        0 <= k <= pieces.len(),
        pair_levels(pieces.take(k)) is Err,
    ensures
        pair_levels(pieces) == pair_levels(pieces.take(k)),
    decreases pieces.len() - k,
{
    if k == pieces.len() {
        assert(pieces.take(k) =~= pieces);
    } else {
        assert(pieces.take(k + 1).drop_last() =~= pieces.take(k));
        lemma_pair_levels_fails(pieces, k + 1);
    }
}

/// The levels of comma-separated `price:quantity` pairs.
fn pair_levels_exec(text: &str) -> (r: Result<Vec<(u8, i64)>, CsvError>)
    ensures
        match r {
            Ok(v) => pair_levels(split(text@, ',')) == Ok::<Seq<(u8, i64)>, CsvError>(v@),
            Err(e) => pair_levels(split(text@, ',')) == Err::<Seq<(u8, i64)>, CsvError>(e),
        },
{
    let pieces = split_text(text, ',');
    let ghost ps = texts(pieces@);
    let mut levels: Vec<(u8, i64)> = Vec::new();
    let n = pieces.len();
    let mut i: usize = 0;
    while i < n
        invariant
            0 <= i <= n,
            n == pieces@.len(),
            ps == texts(pieces@),
            ps == split(text@, ','),
            pair_levels(ps.take(i as int)) == Ok::<Seq<(u8, i64)>, CsvError>(levels@),
        decreases n - i,
    {
        proof {
            assert(ps.take(i + 1).drop_last() =~= ps.take(i as int));
            assert(ps.take(i + 1).last() == pieces@[i as int]@);
        }
        let parts = split_text(pieces[i].as_str(), ':');
        if parts.len() == 2 {
            let price_text = trim_text(parts[0].as_str());
            let qty_text = trim_text(parts[1].as_str());
            proof {
                assert(texts(parts@)[0] == parts@[0]@);
                assert(texts(parts@)[1] == parts@[1]@);
            }
            let price = parse_u8(price_text.as_str());
            let qty = parse_i64(qty_text.as_str());
            match (price, qty) {
                (Some(p), Some(q)) => {
                    levels.push((p, q));
                },
                _ => {
                    proof {
                        lemma_pair_levels_fails(ps, i as int + 1);
                    }
                    return Err(CsvError::InvalidNumber);
                },
            }
        }
        i = i + 1;
    }
    proof {
        assert(ps.take(n as int) =~= ps);
    }
    Ok(levels)
}

/// The levels a levels field gives.
pub fn parse_levels_text(text: &str) -> (r: Result<Vec<(u8, i64)>, CsvError>)
    ensures
        match r {
            Ok(v) => levels_of(text@) == Ok::<Seq<(u8, i64)>, CsvError>(v@),
            Err(e) => levels_of(text@) == Err::<Seq<(u8, i64)>, CsvError>(e),
        },
{
    if text.unicode_len() == 0 {
        return Ok(Vec::new());
    }
    match read_json(text) {
        Some(n) => match &n.items {
            Some(items) => json_array_levels(items),
            None => Ok(Vec::new()),
        },
        None => pair_levels_exec(text),
    }
}

/// The `u64` a field holds.
pub open spec fn u64_text(t: Seq<char>) -> Result<u64, CsvError> {
    match unsigned_decimal(t, u64::MAX as int) {
        Some(v) => Ok(v as u64),
        None => Err(CsvError::InvalidNumber),
    }
}

/// The `u8` a field holds.
pub open spec fn u8_text(t: Seq<char>) -> Result<u8, CsvError> {
    match unsigned_decimal(t, u8::MAX as int) {
        Some(v) => Ok(v as u8),
        None => Err(CsvError::InvalidNumber),
    }
}

/// The `i64` a field holds.
pub open spec fn i64_text(t: Seq<char>) -> Result<i64, CsvError> {
    match signed_decimal(t) {
        Some(v) => Ok(v as i64),
        None => Err(CsvError::InvalidNumber),
    }
}

/// The side a field names.
pub open spec fn side_text(t: Seq<char>) -> Result<Side, CsvError> {
    match side_named(t) {
        Some(s) => Ok(s),
        None => Err(CsvError::InvalidSide),
    }
}

/// The field at column `k` of a record.
pub open spec fn field_at(record: Seq<Seq<char>>, k: int) -> Result<Seq<char>, CsvError> {
    if k < record.len() {
        Ok(record[k])
    } else {
        Err(CsvError::MissingField)
    }
}

/// The side, price and quantity fields of a snapshot or delta row.
pub open spec fn level_fields(h: Seq<Seq<char>>, r: Seq<Seq<char>>) -> Result<(Side, u8, i64), CsvError> {
    match field_of(h, r, seq!["side"@]) {
        Err(e) => Err(e),
        Ok(st) => match side_text(st) {
            Err(e) => Err(e),
            Ok(side) => match field_of(h, r, seq!["price"@]) {
                Err(e) => Err(e),
                Ok(pt) => match u8_text(pt) {
                    Err(e) => Err(e),
                    Ok(price) => match field_of(h, r, seq!["delta"@, "quantity"@]) {
                        Err(e) => Err(e),
                        Ok(qt) => match i64_text(qt) {
                            Err(e) => Err(e),
                            Ok(q) => Ok((side, price, q)),
                        },
                    },
                },
            },
        },
    }
}

/// The levels of the column named `name`.
pub open spec fn levels_field(h: Seq<Seq<char>>, r: Seq<Seq<char>>, name: Seq<char>) -> Result<
    Seq<(u8, i64)>,
    CsvError,
> {
    match field_of(h, r, seq![name]) {
        Err(e) => Err(e),
        Ok(t) => levels_of(t),
    }
}

/// The rest of an orderbook row once its sequence number, timestamp, ticker and message
/// type are read: a snapshot row with level columns carries both sides' levels; another
/// snapshot row, and a delta row, carry one side, price and quantity; any other message
/// type is refused.
pub open spec fn ob_row_body(
    h: Seq<Seq<char>>,
    r: Seq<Seq<char>>,
    seq: u64,
    ts: u64,
    ticker: Seq<char>,
    msg_type: Seq<char>,
) -> Result<RawObRowView, CsvError> {
    let with_levels = msg_type == "snapshot"@ && column_index(h, seq!["yes_levels"@]) >= 0;
    if with_levels {
        match levels_field(h, r, "yes_levels"@) {
            Err(e) => Err(e),
            Ok(yes) => match levels_field(h, r, "no_levels"@) {
                Err(e) => Err(e),
                Ok(no) => Ok(
                    RawObRowView {
                        seq,
                        ts,
                        ticker,
                        msg_type,
                        side: None,
                        price: None,
                        quantity: None,
                        yes_levels: Some(yes),
                        no_levels: Some(no),
                    },
                ),
            },
        }
    } else if msg_type == "snapshot"@ || msg_type == "delta"@ {
        match level_fields(h, r) {
            Err(e) => Err(e),
            Ok((side, price, q)) => Ok(
                RawObRowView {
                    seq,
                    ts,
                    ticker,
                    msg_type,
                    side: Some(side),
                    price: Some(price),
                    quantity: Some(q),
                    yes_levels: None,
                    no_levels: None,
                },
            ),
        }
    } else {
        Err(CsvError::UnknownMsgType)
    }
}

/// The orderbook row a record gives: the columns of the sequence number, timestamp,
/// ticker and message type must all be there, then their fields are read in that order.
pub open spec fn ob_row_of(h: Seq<Seq<char>>, r: Seq<Seq<char>>) -> Result<RawObRowView, CsvError> {
    let seq_c = column_index(h, seq!["seq"@]);
    let ts_c = column_index(h, seq!["client_ts"@, "ts"@]);
    let ticker_c = column_index(h, seq!["ticker"@, "market_ticker"@]);
    let msg_c = column_index(h, seq!["msg_type"@]);
    if seq_c < 0 || ts_c < 0 || ticker_c < 0 || msg_c < 0 {
        Err(CsvError::MissingColumn)
    } else {
        match field_at(r, seq_c) {
            Err(e) => Err(e),
            Ok(st) => match u64_text(st) {
                Err(e) => Err(e),
                Ok(seq) => match field_at(r, ts_c) {
                    Err(e) => Err(e),
                    Ok(tt) => match u64_text(tt) {
                        Err(e) => Err(e),
                        Ok(ts) => match field_at(r, ticker_c) {
                            Err(e) => Err(e),
                            Ok(ticker) => match field_at(r, msg_c) {
                                Err(e) => Err(e),
                                Ok(msg_type) => ob_row_body(h, r, seq, ts, ticker, msg_type),
                            },
                        },
                    },
                },
            },
        }
    }
}

/// The trade row a record gives: its sequence number (from the `seq` column, or the
/// client timestamp when there is none), timestamp, ticker, prices, quantity and taker
/// side, read in that order.
pub open spec fn trade_row_of(h: Seq<Seq<char>>, r: Seq<Seq<char>>) -> Result<RawTradeRowView, CsvError> {
    let seq_field = if column_index(h, seq!["seq"@]) >= 0 {
        field_at(r, column_index(h, seq!["seq"@]))
    } else {
        field_of(h, r, seq!["client_ts"@])
    };
    match seq_field {
        Err(e) => Err(e),
        Ok(st) => match u64_text(st) {
            Err(e) => Err(e),
            Ok(seq) => match field_of(h, r, seq!["client_ts"@]) {
                Err(e) => Err(e),
                Ok(tt) => match u64_text(tt) {
                    Err(e) => Err(e),
                    Ok(ts) => match field_of(h, r, seq!["ticker"@, "market_ticker"@]) {
                        Err(e) => Err(e),
                        Ok(ticker) => match field_of(h, r, seq!["yes_price"@]) {
                            Err(e) => Err(e),
                            Ok(yt) => match u8_text(yt) {
                                Err(e) => Err(e),
                                Ok(yes_price) => match field_of(h, r, seq!["no_price"@]) {
                                    Err(e) => Err(e),
                                    Ok(nt) => match u8_text(nt) {
                                        Err(e) => Err(e),
                                        Ok(no_price) => match field_of(
                                            h,
                                            r,
                                            seq!["quantity"@, "count"@],
                                        ) {
                                            Err(e) => Err(e),
                                            Ok(qt) => match i64_text(qt) {
                                                Err(e) => Err(e),
                                                Ok(qty) => match field_of(
                                                    h,
                                                    r,
                                                    seq!["taker"@, "taker_side"@],
                                                ) {
                                                    Err(e) => Err(e),
                                                    Ok(kt) => match side_text(kt) {
                                                        Err(e) => Err(e),
                                                        Ok(taker) => Ok(
                                                            RawTradeRowView {
                                                                seq,
                                                                ts,
                                                                ticker,
                                                                yes_price,
                                                                no_price,
                                                                qty,
                                                                taker,
                                                            },
                                                        ),
                                                    },
                                                },
                                            },
                                        },
                                    },
                                },
                            },
                        },
                    },
                },
            },
        },
    }
}

/// The list of one column name.
fn names1(a: &str) -> (r: Vec<String>)
    ensures
        texts(r@) == seq![a@],
{
    let mut v: Vec<String> = Vec::new();
    v.push(a.to_owned());
    assert(texts(v@) =~= seq![a@]);
    v
}

/// The list of two column names.
fn names2(a: &str, b: &str) -> (r: Vec<String>)
    ensures
        texts(r@) == seq![a@, b@],
{
    let mut v: Vec<String> = Vec::new();
    v.push(a.to_owned());
    v.push(b.to_owned());
    assert(texts(v@) =~= seq![a@, b@]);
    v
}

/// Read a `u64` field.
fn u64_of(t: &String) -> (r: Result<u64, CsvError>)
    ensures
        r == u64_text(t@),
{
    match parse_u64(t.as_str()) {
        Some(v) => Ok(v),
        None => Err(CsvError::InvalidNumber),
    }
}

/// Read a `u8` field.
fn u8_of(t: &String) -> (r: Result<u8, CsvError>)
    ensures
        r == u8_text(t@),
{
    match parse_u8(t.as_str()) {
        Some(v) => Ok(v),
        None => Err(CsvError::InvalidNumber),
    }
}

/// Read an `i64` field.
fn i64_of(t: &String) -> (r: Result<i64, CsvError>)
    ensures
        r == i64_text(t@),
{
    match parse_i64(t.as_str()) {
        Some(v) => Ok(v),
        None => Err(CsvError::InvalidNumber),
    }
}

/// Read a side field.
fn side_of(t: &String) -> (r: Result<Side, CsvError>)
    ensures
        r == side_text(t@),
{
    match parse_side(t.as_str()) {
        Some(s) => Ok(s),
        None => Err(CsvError::InvalidSide),
    }
}

/// The field at column `k`.
fn field_at_exec<'a>(record: &'a Vec<String>, k: usize) -> (r: Result<&'a String, CsvError>)
    ensures
        match r {
            Ok(f) => field_at(texts(record@), k as int) == Ok::<Seq<char>, CsvError>(f@),
            Err(e) => field_at(texts(record@), k as int) == Err::<Seq<char>, CsvError>(e),
        },
{
    if k < record.len() {
        assert(texts(record@)[k as int] == record@[k as int]@);
        Ok(&record[k])
    } else {
        Err(CsvError::MissingField)
    }
}

/// Read an orderbook record against the headers of its file.
pub fn parse_orderbook_record(headers: &Vec<String>, record: &Vec<String>) -> (r: Result<
    RawObRow,
    CsvError,
>)
    ensures
        match r {
            Ok(row) => ob_row_of(texts(headers@), texts(record@)) == Ok::<RawObRowView, CsvError>(
                row@,
            ),
            Err(e) => ob_row_of(texts(headers@), texts(record@)) == Err::<RawObRowView, CsvError>(
                e,
            ),
        },
{
    let seq_c = find_column(headers, &names1("seq"));
    let ts_c = find_column(headers, &names2("client_ts", "ts"));
    let ticker_c = find_column(headers, &names2("ticker", "market_ticker"));
    let msg_c = find_column(headers, &names1("msg_type"));
    let (seq_c, ts_c, ticker_c, msg_c) = match (seq_c, ts_c, ticker_c, msg_c) {
        (Some(a), Some(b), Some(c), Some(d)) => (a, b, c, d),
        _ => {
            return Err(CsvError::MissingColumn);
        },
    };
    let seq = u64_of(field_at_exec(record, seq_c)?)?;
    let ts = u64_of(field_at_exec(record, ts_c)?)?;
    let ticker = field_at_exec(record, ticker_c)?.clone();
    let msg_type = field_at_exec(record, msg_c)?.clone();
    let snapshot = "snapshot".to_owned();
    let delta = "delta".to_owned();
    let is_snapshot = msg_type == snapshot;
    if is_snapshot && find_column(headers, &names1("yes_levels")).is_some() {
        let yes_field = get_field(headers, record, &names1("yes_levels"))?;
        let yes_levels = parse_levels_text(yes_field.as_str())?;
        let no_field = get_field(headers, record, &names1("no_levels"))?;
        let no_levels = parse_levels_text(no_field.as_str())?;
        Ok(
            RawObRow {
                seq,
                ts,
                ticker,
                msg_type,
                side: None,
                price: None,
                quantity: None,
                yes_levels: Some(yes_levels),
                no_levels: Some(no_levels),
            },
        )
    } else if is_snapshot || msg_type == delta {
        let side = side_of(get_field(headers, record, &names1("side"))?)?;
        let price = u8_of(get_field(headers, record, &names1("price"))?)?;
        let quantity = i64_of(get_field(headers, record, &names2("delta", "quantity"))?)?;
        Ok(
            RawObRow {
                seq,
                ts,
                ticker,
                msg_type,
                side: Some(side),
                price: Some(price),
                quantity: Some(quantity),
                yes_levels: None,
                no_levels: None,
            },
        )
    } else {
        Err(CsvError::UnknownMsgType)
    }
}

/// Read a trade record against the headers of its file.
pub fn parse_trade_record(headers: &Vec<String>, record: &Vec<String>) -> (r: Result<
    RawTradeRow,
    CsvError,
>)
    ensures
        match r {
            Ok(row) => trade_row_of(texts(headers@), texts(record@)) == Ok::<
                RawTradeRowView,
                CsvError,
            >(row@),
            Err(e) => trade_row_of(texts(headers@), texts(record@)) == Err::<
                RawTradeRowView,
                CsvError,
            >(e),
        },
{
    let seq_field = match find_column(headers, &names1("seq")) {
        Some(k) => field_at_exec(record, k)?,
        None => get_field(headers, record, &names1("client_ts"))?,
    };
    let seq = u64_of(seq_field)?;
    let ts = u64_of(get_field(headers, record, &names1("client_ts"))?)?;
    let ticker = get_field(headers, record, &names2("ticker", "market_ticker"))?.clone();
    let yes_price = u8_of(get_field(headers, record, &names1("yes_price"))?)?;
    let no_price = u8_of(get_field(headers, record, &names1("no_price"))?)?;
    let qty = i64_of(get_field(headers, record, &names2("quantity", "count"))?)?;
    let taker = side_of(get_field(headers, record, &names2("taker", "taker_side"))?)?;
    Ok(RawTradeRow { seq, ts, ticker, yes_price, no_price, qty, taker })
}

/// The texts of a list of records.
pub open spec fn records_view(v: Seq<Vec<String>>) -> Seq<Seq<Seq<char>>> {
    v.map_values(|r: Vec<String>| texts(r@))
}

/// What the `csv` crate reads from bytes with a header row: `None` when the header row
/// cannot be read; otherwise the header names, the records read before the first record
/// that cannot be read, and whether such a record came.
pub uninterp spec fn csv_table_of(bytes: Seq<u8>) -> Option<(Seq<Seq<char>>, Seq<Seq<Seq<char>>>, bool)>;

/// Reads a CSV table with `csv::ReaderBuilder::new().has_headers(true)`. Claimed: the
/// outcome depends on the bytes alone (`csv_table_of`); the headers and each record come
/// field by field as `csv::StringRecord` gives them, records in file order up to the first
/// one the reader refuses. Nothing is stated of which bytes the reader accepts.
#[verifier::external_body]
pub(crate) fn read_csv_table(bytes: &[u8]) -> (r: Option<(Vec<String>, Vec<Vec<String>>, bool)>)
    ensures
        match r {
            Some((h, recs, broken)) => csv_table_of(bytes@) == Some(
                (texts(h@), records_view(recs@), broken),
            ),
            None => csv_table_of(bytes@) is None,
        },
{
    let mut reader = csv::ReaderBuilder::new().has_headers(true).from_reader(bytes);
    let headers: Vec<String> = reader.headers().ok()?.iter().map(|h| h.to_string()).collect();
    let mut records: Vec<Vec<String>> = Vec::new();
    for result in reader.records() {
        match result {
            Ok(record) => records.push(record.iter().map(|f| f.to_string()).collect()),
            Err(_) => return Some((headers, records, true)),
        }
    }
    Some((headers, records, false))
}

/// The header names and records of a CSV table; an error when the header row or a record
/// cannot be read.
pub open spec fn table_of(bytes: Seq<u8>) -> Result<(Seq<Seq<char>>, Seq<Seq<Seq<char>>>), CsvError> {
    match csv_table_of(bytes) {
        Some((h, recs, false)) => Ok((h, recs)),
        _ => Err(CsvError::Malformed),
    }
}

/// The header names and the records of a CSV table.
pub fn parse_csv_table(bytes: &[u8]) -> (r: Result<(Vec<String>, Vec<Vec<String>>), CsvError>)
    ensures
        match r {
            Ok((h, recs)) => table_of(bytes@) == Ok::<
                (Seq<Seq<char>>, Seq<Seq<Seq<char>>>),
                CsvError,
            >((texts(h@), records_view(recs@))),
            Err(e) => table_of(bytes@) == Err::<(Seq<Seq<char>>, Seq<Seq<Seq<char>>>), CsvError>(
                e,
            ),
        },
{
    match read_csv_table(bytes) {
        Some((h, recs, broken)) => if broken {
            Err(CsvError::Malformed)
        } else {
            Ok((h, recs))
        },
        None => Err(CsvError::Malformed),
    }
}

/// The orderbook rows of records under headers `h`, in order; the first refused record
/// refuses them all.
pub open spec fn ob_rows_of(h: Seq<Seq<char>>, recs: Seq<Seq<Seq<char>>>) -> Result<
    Seq<RawObRowView>,
    CsvError,
>
    decreases recs.len(),
{
    if recs.len() == 0 {
        Ok(Seq::empty())
    } else {
        match ob_rows_of(h, recs.drop_last()) {
            Err(e) => Err(e),
            Ok(rows) => match ob_row_of(h, recs.last()) {
                Ok(row) => Ok(rows.push(row)),
                Err(e) => Err(e),
            },
        }
    }
}

/// The trade rows of records under headers `h`, in order; the first refused record
/// refuses them all.
pub open spec fn trade_rows_of(h: Seq<Seq<char>>, recs: Seq<Seq<Seq<char>>>) -> Result<
    Seq<RawTradeRowView>,
    CsvError,
>
    decreases recs.len(),
{
    if recs.len() == 0 {
        Ok(Seq::empty())
    } else {
        match trade_rows_of(h, recs.drop_last()) {
            Err(e) => Err(e),
            Ok(rows) => match trade_row_of(h, recs.last()) {
                Ok(row) => Ok(rows.push(row)),
                Err(e) => Err(e),
            },
        }
    }
}

/// The orderbook rows of a CSV file: the rows of its records, in order; the first record
/// that is refused, or that the reader cannot read, gives the error.
pub open spec fn orderbook_of_bytes(bytes: Seq<u8>) -> Result<Seq<RawObRowView>, CsvError> {
    match csv_table_of(bytes) {
        None => Err(CsvError::Malformed),
        Some((h, recs, broken)) => match ob_rows_of(h, recs) {
            Err(e) => Err(e),
            Ok(rows) => if broken {
                Err(CsvError::Malformed)
            } else {
                Ok(rows)
            },
        },
    }
}

/// The trade rows of a CSV file, as for orderbook rows.
pub open spec fn trades_of_bytes(bytes: Seq<u8>) -> Result<Seq<RawTradeRowView>, CsvError> {
    match csv_table_of(bytes) {
        None => Err(CsvError::Malformed),
        Some((h, recs, broken)) => match trade_rows_of(h, recs) {
            Err(e) => Err(e),
            Ok(rows) => if broken {
                Err(CsvError::Malformed)
            } else {
                Ok(rows)
            },
        },
    }
}

/// The views of orderbook rows.
pub open spec fn ob_rows_view(v: Seq<RawObRow>) -> Seq<RawObRowView> {
    v.map_values(|r: RawObRow| r@)
}

/// The views of trade rows.
pub open spec fn trade_rows_view(v: Seq<RawTradeRow>) -> Seq<RawTradeRowView> {
    v.map_values(|r: RawTradeRow| r@)
}

/// Once a prefix of the orderbook records is refused, all of them are.
proof fn lemma_ob_rows_fail(h: Seq<Seq<char>>, recs: Seq<Seq<Seq<char>>>, k: int)
    requires
        0 <= k <= recs.len(),
        ob_rows_of(h, recs.take(k)) is Err,
    ensures
        ob_rows_of(h, recs) == ob_rows_of(h, recs.take(k)),
    decreases recs.len() - k,
{
    if k == recs.len() {
        assert(recs.take(k) =~= recs);
    } else {
        assert(recs.take(k + 1).drop_last() =~= recs.take(k));
        lemma_ob_rows_fail(h, recs, k + 1);
    }
}

/// Once a prefix of the trade records is refused, all of them are.
proof fn lemma_trade_rows_fail(h: Seq<Seq<char>>, recs: Seq<Seq<Seq<char>>>, k: int)
    requires
        0 <= k <= recs.len(),
        trade_rows_of(h, recs.take(k)) is Err,
    ensures
        trade_rows_of(h, recs) == trade_rows_of(h, recs.take(k)),
    decreases recs.len() - k,
{
    if k == recs.len() {
        assert(recs.take(k) =~= recs);
    } else {
        assert(recs.take(k + 1).drop_last() =~= recs.take(k));
        lemma_trade_rows_fail(h, recs, k + 1);
    }
}

/// Parse the orderbook rows of the bytes of a CSV file with a header row.
pub fn parse_orderbook_bytes(bytes: &[u8]) -> (r: Result<Vec<RawObRow>, CsvError>)
    ensures
        match r {
            Ok(v) => orderbook_of_bytes(bytes@) == Ok::<Seq<RawObRowView>, CsvError>(
                ob_rows_view(v@),
            ),
            Err(e) => orderbook_of_bytes(bytes@) == Err::<Seq<RawObRowView>, CsvError>(e),
        },
{
    let (headers, records, broken) = match read_csv_table(bytes) {
        Some(t) => t,
        None => {
            return Err(CsvError::Malformed);
        },
    };
    let ghost h = texts(headers@);
    let ghost recs = records_view(records@);
    let mut rows: Vec<RawObRow> = Vec::new();
    let n = records.len();
    let mut i: usize = 0;
    proof {
        assert(recs.take(0) =~= Seq::<Seq<Seq<char>>>::empty());
        assert(ob_rows_view(rows@) =~= Seq::<RawObRowView>::empty());
    }
    while i < n
        invariant
            0 <= i <= n,
            n == records@.len(),
            h == texts(headers@),
            recs == records_view(records@),
            csv_table_of(bytes@) == Some((h, recs, broken)),
            ob_rows_of(h, recs.take(i as int)) == Ok::<Seq<RawObRowView>, CsvError>(
                ob_rows_view(rows@),
            ),
        decreases n - i,
    {
        proof {
            assert(recs.take(i + 1).drop_last() =~= recs.take(i as int));
            assert(recs.take(i + 1).last() == texts(records@[i as int]@));
        }
        match parse_orderbook_record(&headers, &records[i]) {
            Ok(row) => {
                let ghost before = rows@;
                rows.push(row);
                proof {
                    assert(ob_rows_view(rows@) =~= ob_rows_view(before).push(row@));
                }
            },
            Err(e) => {
                proof {
                    assert(ob_rows_of(h, recs.take(i + 1)) == Err::<Seq<RawObRowView>, CsvError>(e));
                    lemma_ob_rows_fail(h, recs, i + 1);
                }
                return Err(e);
            },
        }
        i = i + 1;
    }
    proof {
        assert(recs.take(n as int) =~= recs);
    }
    if broken {
        Err(CsvError::Malformed)
    } else {
        Ok(rows)
    }
}

/// Parse the trade rows of the bytes of a CSV file with a header row.
pub fn parse_trades_bytes(bytes: &[u8]) -> (r: Result<Vec<RawTradeRow>, CsvError>)
    ensures
        match r {
            Ok(v) => trades_of_bytes(bytes@) == Ok::<Seq<RawTradeRowView>, CsvError>(
                trade_rows_view(v@),
            ),
            Err(e) => trades_of_bytes(bytes@) == Err::<Seq<RawTradeRowView>, CsvError>(e),
        },
{
    let (headers, records, broken) = match read_csv_table(bytes) {
        Some(t) => t,
        None => {
            return Err(CsvError::Malformed);
        },
    };
    let ghost h = texts(headers@);
    let ghost recs = records_view(records@);
    let mut rows: Vec<RawTradeRow> = Vec::new();
    let n = records.len();
    let mut i: usize = 0;
    proof {
        assert(recs.take(0) =~= Seq::<Seq<Seq<char>>>::empty());
        assert(trade_rows_view(rows@) =~= Seq::<RawTradeRowView>::empty());
    }
    while i < n
        invariant
            0 <= i <= n,
            n == records@.len(),
            h == texts(headers@),
            recs == records_view(records@),
            csv_table_of(bytes@) == Some((h, recs, broken)),
            trade_rows_of(h, recs.take(i as int)) == Ok::<Seq<RawTradeRowView>, CsvError>(
                trade_rows_view(rows@),
            ),
        decreases n - i,
    {
        proof {
            assert(recs.take(i + 1).drop_last() =~= recs.take(i as int));
            assert(recs.take(i + 1).last() == texts(records@[i as int]@));
        }
        match parse_trade_record(&headers, &records[i]) {
            Ok(row) => {
                let ghost before = rows@;
                rows.push(row);
                proof {
                    assert(trade_rows_view(rows@) =~= trade_rows_view(before).push(row@));
                }
            },
            Err(e) => {
                proof {
                    assert(trade_rows_of(h, recs.take(i + 1)) == Err::<Seq<RawTradeRowView>, CsvError>(e));
                    lemma_trade_rows_fail(h, recs, i + 1);
                }
                return Err(e);
            },
        }
        i = i + 1;
    }
    proof {
        assert(recs.take(n as int) =~= recs);
    }
    if broken {
        Err(CsvError::Malformed)
    } else {
        Ok(rows)
    }
}

} // verus!
