//! Parsing depth messages into exact numbers.
//!
//! Two jobs, both narrow: decimal strings to fixed point, digit by digit, and
//! locating the fields by scanning. The parser handles the shapes this venue
//! sends; a message it cannot parse is reported rather than guessed at.
use crate::bytes::from_bits;
use crate::text::{
    after, all_digits, chars_of, digit_value, digits_end, digits_value, find, first_at, found_in,
    is_digit, is_digit_char, leading_digits, lemma_digits_grow, lemma_first_is_place, place_of,
    put_digits, quoted, quoted_text, read_digits, utf8, value_of_digit, digits,
};
use vstd::prelude::*;

verus! {

/// One side of a depth update: price and the new quantity at it.
///
/// A quantity of zero means the level is gone. "This level was removed" and
/// "this level was not mentioned" are different facts, and only one of them is
/// an instruction.
#[derive(Clone, Copy, Debug, PartialEq, Eq, Structural)]
pub struct Level {
    /// Price in ticks.
    pub price: i64,
    /// Quantity in lots. Zero removes the level.
    pub qty: i64,
}

/// A parsed incremental depth update.
#[derive(Clone, Debug, PartialEq, Eq)]
pub struct DepthUpdate {
    /// Exchange event time, milliseconds.
    pub event_ms: i64,
    /// First update id covered by this message.
    pub first_id: u64,
    /// Final update id covered by this message.
    pub final_id: u64,
    /// Final update id of the previous message, when the venue sends one.
    pub prev_final_id: Option<u64>,
    /// Bid side changes.
    pub bids: Vec<Level>,
    /// Ask side changes.
    pub asks: Vec<Level>,
}

/// What a depth update says.
#[verifier::ext_equal]
pub struct DepthView {
    pub event_ms: i64,
    pub first_id: u64,
    pub final_id: u64,
    pub prev_final_id: Option<u64>,
    pub bids: Seq<Level>,
    pub asks: Seq<Level>,
}

impl View for DepthUpdate {
    type V = DepthView;

    open spec fn view(&self) -> DepthView {
        DepthView {
            event_ms: self.event_ms,
            first_id: self.first_id,
            final_id: self.final_id,
            prev_final_id: self.prev_final_id,
            bids: self.bids@,
            asks: self.asks@,
        }
    }
}

/// Why a message could not be turned into an update.
#[derive(Clone, Debug, PartialEq, Eq)]
pub enum ParseError {
    /// A required field was absent.
    MissingField(&'static str),
    /// A number was not in a form this parser accepts.
    BadNumber(String),
    /// More decimal places than the configured scale can represent.
    ///
    /// Rejected rather than rounded. Rounding a price silently changes which
    /// side of a limit it falls on.
    TooPrecise { text: String, scale: u32 },
    /// The message is not a depth update at all.
    NotDepth,
}

/// What a parse error says.
#[verifier::ext_equal]
pub enum ParseErrorView {
    MissingField(Seq<char>),
    BadNumber(Seq<char>),
    TooPrecise { text: Seq<char>, scale: u32 },
    NotDepth,
}

impl View for ParseError {
    type V = ParseErrorView;

    open spec fn view(&self) -> ParseErrorView {
        match *self {
            ParseError::MissingField(name) => ParseErrorView::MissingField(name@),
            ParseError::BadNumber(text) => ParseErrorView::BadNumber(text@),
            ParseError::TooPrecise { text, scale } => ParseErrorView::TooPrecise {
                text: text@,
                scale,
            },
            ParseError::NotDepth => ParseErrorView::NotDepth,
        }
    }
}

impl ParseErrorView {
    /// The error in words.
    pub open spec fn text(self) -> Seq<char> {
        match self {
            ParseErrorView::MissingField(name) => "missing field "@ + name,
            ParseErrorView::BadNumber(text) => "malformed number "@ + quoted_text(text),
            ParseErrorView::TooPrecise { text, scale } => quoted_text(text)
                + " has more decimals than scale "@ + digits(scale as nat) + " allows"@,
            ParseErrorView::NotDepth => "not a depth update"@,
        }
    }
}

impl ParseError {
    /// The error in words.
    pub fn to_text(&self) -> (r: String)
        ensures
            r@ == self@.text(),
    {
        let mut out = String::new();
        match self {
            ParseError::MissingField(name) => {
                out.append("missing field ");
                out.append(name);
            },
            ParseError::BadNumber(text) => {
                out.append("malformed number ");
                out.append(quoted(text.as_str()).as_str());
            },
            ParseError::TooPrecise { text, scale } => {
                out.append(quoted(text.as_str()).as_str());
                out.append(" has more decimals than scale ");
                put_digits(&mut out, *scale as u64);
                out.append(" allows");
            },
            ParseError::NotDepth => {
                out.append("not a depth update");
            },
        }
        assert(out@ =~= self@.text());
        out
    }
}

/// The part of a decimal string behind its sign.
pub open spec fn unsigned_part(text: Seq<char>) -> Seq<char> {
    if text.len() > 0 && text[0] == '-' {
        text.drop_first()
    } else {
        text
    }
}

/// The part in front of the first point.
pub open spec fn int_part(body: Seq<char>) -> Seq<char> {
    if found_in(body, seq!['.']) {
        body.subrange(0, place_of(body, seq!['.']))
    } else {
        body
    }
}

/// The part behind the first point.
pub open spec fn frac_part(body: Seq<char>) -> Seq<char> {
    if found_in(body, seq!['.']) {
        after(body, place_of(body, seq!['.']) + 1)
    } else {
        Seq::empty()
    }
}

/// A fraction cut or filled with zeros to `scale` places.
pub open spec fn padded(frac: Seq<char>, scale: nat) -> Seq<char> {
    Seq::new(
        scale,
        |i: int|
            if i < frac.len() {
                frac[i]
            } else {
                '0'
            },
    )
}

/// A decimal string as an integer count of its last place: the digits of the
/// whole part followed by `scale` digits of the fraction.
pub open spec fn fixed(text: Seq<char>, scale: u32) -> Result<i64, ParseErrorView> {
    let body = unsigned_part(text);
    let whole = int_part(body);
    let frac = frac_part(body);
    let value = digits_value(whole + padded(frac, scale as nat));
    if (whole.len() == 0 && frac.len() == 0) || !all_digits(whole) || !all_digits(frac) {
        Err(ParseErrorView::BadNumber(text))
    } else if exists|i: int| scale <= i < frac.len() && #[trigger] frac[i] != '0' {
        Err(ParseErrorView::TooPrecise { text, scale })
    } else if value > i64::MAX {
        Err(ParseErrorView::BadNumber(text))
    } else if body != text {
        Ok((-value) as i64)
    } else {
        Ok(value as i64)
    }
}

/// The view of a parse result.
pub open spec fn parsed<T>(r: Result<T, ParseError>) -> Result<T, ParseErrorView> {
    match r {
        Ok(v) => Ok(v),
        Err(e) => Err(e@),
    }
}

/// One more digit behind a number.
proof fn lemma_digit_more(s: Seq<char>, c: char)
    ensures
        digits_value(s.push(c)) == 10 * digits_value(s) + digit_value(c),
{
    assert(s.push(c).drop_last() =~= s);
}

fn only_digits(s: &Vec<char>, a: usize, b: usize) -> (r: bool)
    requires
        a <= b <= s@.len(),
    ensures
        r == all_digits(s@.subrange(a as int, b as int)),
{
    let mut i: usize = a;
    while i < b
        invariant
            a <= i <= b <= s@.len(),
            forall|k: int| a <= k < i ==> is_digit(#[trigger] s@[k]),
        decreases b - i,
    {
        if !is_digit_char(s[i]) {
            assert(!is_digit(s@.subrange(a as int, b as int)[i - a]));
            return false;
        }
        i += 1;
    }
    true
}

/// Parse a decimal string into fixed point with `scale` decimal places.
///
/// `parse_fixed("63090.10", 2) == Ok(6_309_010)`. Anything that is not a plain
/// decimal is [`ParseError::BadNumber`], as is a number too large for `i64`.
/// More decimals than `scale` is [`ParseError::TooPrecise`]; trailing zeros
/// beyond the scale carry no value and are accepted.
#[verifier::rlimit(40)]
pub fn parse_fixed(text: &str, scale: u32) -> (r: Result<i64, ParseError>)
    ensures
        parsed(r) == fixed(text@, scale),
{
    let s = chars_of(text);
    let negative = s.len() > 0 && s[0] == '-';
    let start: usize = if negative {
        1
    } else {
        0
    };
    let total: usize = s.len();
    let ghost body = unsigned_part(s@);
    let ghost whole = int_part(body);
    let ghost frac = frac_part(body);
    assert(body =~= after(s@, start as int));
    let mut point: Vec<char> = Vec::new();
    point.push('.');
    assert(point@ =~= seq!['.']);
    let dot = find(&s, &point, start);
    let (int_end, frac_start): (usize, usize) = match dot {
        Some(i) => {
            proof {
                lemma_first_is_place(body, seq!['.'], i - start);
            }
            (i, i + 1)
        },
        None => (total, total),
    };
    proof {
        assert(whole =~= s@.subrange(start as int, int_end as int));
        assert(frac =~= s@.subrange(frac_start as int, total as int));
    }
    if start == int_end && frac_start == total {
        return Err(ParseError::BadNumber(text.to_owned()));
    }
    if !only_digits(&s, start, int_end) || !only_digits(&s, frac_start, total) {
        return Err(ParseError::BadNumber(text.to_owned()));
    }
    let places: u64 = scale as u64;
    let mut k: usize = total;
    while k > frac_start && s[k - 1] == '0'
        invariant
            frac_start <= k <= total == s@.len(),
            frac == s@.subrange(frac_start as int, total as int),
            forall|j: int| k <= j < total ==> #[trigger] s@[j] == '0',
        decreases k,
    {
        k -= 1;
    }
    if (k - frac_start) as u64 > places {
        proof {
            assert(frac[k - 1 - frac_start] == s@[k - 1]);
        }
        return Err(ParseError::TooPrecise { text: text.to_owned(), scale });
    }
    proof {
        assert forall|i: int| scale <= i < frac.len() implies #[trigger] frac[i] == '0' by {
            assert(frac[i] == s@[frac_start + i]);
        }
    }
    let ghost all = whole + padded(frac, scale as nat);
    proof {
        assert forall|i: int| 0 <= i < all.len() implies is_digit(#[trigger] all[i]) by {
            if i < whole.len() {
                assert(all[i] == whole[i]);
            } else {
                let f = i - whole.len();
                assert(all[i] == padded(frac, scale as nat)[f]);
                if f < frac.len() {
                    assert(is_digit(frac[f]));
                }
            }
        }
        assert(all.subrange(0, whole.len() as int) =~= whole);
        lemma_digits_grow(all, whole.len() as int);
    }
    let mut value: u64 = match read_digits(&s, start, int_end) {
        Some(v) => v,
        None => {
            return Err(ParseError::BadNumber(text.to_owned()));
        },
    };
    if value > i64::MAX as u64 {
        return Err(ParseError::BadNumber(text.to_owned()));
    }
    let mut i: u32 = 0;
    while i < scale
        invariant
            i <= scale,
            frac_start <= total == s@.len(),
            whole.len() <= total,
            frac == s@.subrange(frac_start as int, total as int),
            all == whole + padded(frac, scale as nat),
            all_digits(all),
            value == digits_value(all.subrange(0, whole.len() + i)),
            value <= i64::MAX,
            s@ == text@,
            body == unsigned_part(s@),
            whole == int_part(body),
            frac == frac_part(body),
            whole.len() > 0 || frac.len() > 0,
            all_digits(whole),
            all_digits(frac),
            forall|i: int| scale <= i < frac.len() ==> #[trigger] frac[i] == '0',
        decreases scale - i,
    {
        let within = (i as u64) < (total - frac_start) as u64;
        let d: u64 = if within {
            assert(frac[i as int] == s@[frac_start + i]);
            value_of_digit(s[frac_start + i as usize])
        } else {
            0
        };
        proof {
            let at = whole.len() + i;
            let now = all.subrange(0, at);
            assert(all[at] == padded(frac, scale as nat)[i as int]);
            assert(all.subrange(0, at + 1) =~= now.push(all[at]));
            lemma_digit_more(now, all[at]);
            lemma_digits_grow(all, at + 1);
            assert(digit_value(all[at]) == d);
        }
        let next: u128 = value as u128 * 10 + d as u128;
        if next > i64::MAX as u128 {
            return Err(ParseError::BadNumber(text.to_owned()));
        }
        value = next as u64;
        i += 1;
    }
    proof {
        assert(all.subrange(0, whole.len() + i) =~= all);
    }
    if negative {
        assert(body != text@) by {
            assert(body.len() < text@.len());
        }
        Ok(-(value as i64))
    } else {
        assert(body == text@);
        Ok(value as i64)
    }
}

/// Scales used to convert the venue's decimal strings to integers.
#[derive(Clone, Copy, Debug, PartialEq, Eq, Structural)]
pub struct Scales {
    /// Decimal places in a price.
    pub price: u32,
    /// Decimal places in a quantity.
    pub qty: u32,
}

impl Default for Scales {
    /// Enough for the instruments captured today.
    fn default() -> (r: Self)
        ensures
            r == (Scales { price: 2, qty: 3 }),
    {
        Scales { price: 2, qty: 3 }
    }
}

/// The unsigned integer behind the first `key` that has digits behind it;
/// nothing where there is none, or where it does not fit.
pub open spec fn int_behind(s: Seq<char>, key: Seq<char>) -> Option<u64>
    decreases s.len(),
    when key.len() > 0
{
    if !found_in(s, key) {
        None
    } else {
        let i = place_of(s, key);
        let rest = after(s, i + key.len());
        let run = leading_digits(rest);
        if first_at(s, key, i) && run.len() == 0 {
            int_behind(rest, key)
        } else if digits_value(run) <= u64::MAX {
            Some(digits_value(run) as u64)
        } else {
            None
        }
    }
}

/// Read an unsigned integer that follows `key`.
fn int_field(s: &Vec<char>, key: &str) -> (r: Option<u64>)
    requires
        key@.len() > 0,
    ensures
        r == int_behind(s@, key@),
{
    let total: usize = s.len();
    let k = chars_of(key);
    let mut from: usize = 0;
    assert(after(s@, 0) =~= s@);
    loop
        invariant
            k@ == key@,
            key@.len() > 0,
            from <= s@.len() == total,
            int_behind(s@, key@) == int_behind(after(s@, from as int), key@),
        decreases s@.len() - from,
    {
        let ghost here = after(s@, from as int);
        match find(s, &k, from) {
            None => {
                return None;
            },
            Some(pos) => {
                let start: usize = pos + k.len();
                let end: usize = digits_end(s, start);
                proof {
                    lemma_first_is_place(here, key@, pos - from);
                    assert(after(here, pos - from + key@.len()) =~= after(s@, start as int));
                }
                if end > start {
                    return read_digits(s, start, end);
                }
                from = start;
            },
        }
    }
}

/// Where the scan of a level array stands.
#[verifier::ext_equal]
pub struct Scan {
    /// Brackets open.
    pub depth: int,
    /// Strings closed since the last bracket opened.
    pub pair: Seq<Seq<char>>,
    /// The string being read.
    pub current: Seq<char>,
    pub in_string: bool,
    /// Levels read.
    pub out: Seq<Level>,
}

/// The scan after one character that closes no bracket.
pub open spec fn scan_step(st: Scan, c: char) -> Scan {
    if c == '"' {
        if st.in_string {
            Scan { pair: st.pair.push(st.current), current: Seq::empty(), in_string: false, ..st }
        } else {
            Scan { in_string: true, ..st }
        }
    } else if st.in_string {
        Scan { current: st.current.push(c), ..st }
    } else if c == '[' {
        Scan { depth: st.depth + 1, pair: Seq::empty(), ..st }
    } else {
        st
    }
}

/// The level a pair of strings names.
pub open spec fn pair_level(pair: Seq<Seq<char>>, scales: Scales) -> Result<Level, ParseErrorView> {
    if pair.len() != 2 {
        Err(ParseErrorView::MissingField("price/qty pair"@))
    } else {
        match fixed(pair[0], scales.price) {
            Err(e) => Err(e),
            Ok(price) => match fixed(pair[1], scales.qty) {
                Err(e) => Err(e),
                Ok(qty) => Ok(Level { price, qty }),
            },
        }
    }
}

/// The levels of the array that the rest of a message holds, given where the
/// scan stands: an inner bracket that closes must have held a price and a
/// quantity, and the scan ends where the outer one closes. A message that ends
/// before it does was cut off, and holds no array.
pub open spec fn scanned(s: Seq<char>, st: Scan, scales: Scales) -> Result<
    Seq<Level>,
    ParseErrorView,
>
    decreases s.len(),
{
    if s.len() == 0 {
        Err(ParseErrorView::MissingField("array"@))
    } else {
        let c = s[0];
        let rest = s.drop_first();
        if c == ']' && !st.in_string {
            let depth = st.depth - 1;
            if depth == 1 {
                match pair_level(st.pair, scales) {
                    Err(e) => Err(e),
                    Ok(level) => scanned(
                        rest,
                        Scan { depth, out: st.out.push(level), ..st },
                        scales,
                    ),
                }
            } else if depth == 0 {
                Ok(st.out)
            } else {
                scanned(rest, Scan { depth, ..st }, scales)
            }
        } else {
            scanned(rest, scan_step(st, c), scales)
        }
    }
}

pub open spec fn scan_start() -> Scan {
    Scan {
        depth: 0,
        pair: Seq::empty(),
        current: Seq::empty(),
        in_string: false,
        out: Seq::empty(),
    }
}

/// The levels behind `key`. An absent key means no changes on that side.
pub open spec fn levels_behind(s: Seq<char>, key: Seq<char>, scales: Scales) -> Result<
    Seq<Level>,
    ParseErrorView,
> {
    if !found_in(s, key) {
        Ok(Seq::empty())
    } else {
        let rest = after(s, place_of(s, key) + key.len());
        if !found_in(rest, seq!['[']) {
            Err(ParseErrorView::MissingField("array"@))
        } else {
            scanned(after(rest, place_of(rest, seq!['['])), scan_start(), scales)
        }
    }
}

/// The view of a list of levels that may have failed to parse.
pub open spec fn parsed_levels(r: Result<Vec<Level>, ParseError>) -> Result<
    Seq<Level>,
    ParseErrorView,
> {
    match r {
        Ok(v) => Ok(v@),
        Err(e) => Err(e@),
    }
}

pub open spec fn texts(v: Seq<String>) -> Seq<Seq<char>> {
    Seq::new(v.len(), |i: int| v[i]@)
}

/// The level a pair of strings names.
fn read_pair(pair: &Vec<String>, scales: Scales) -> (r: Result<Level, ParseError>)
    ensures
        parsed(r) == pair_level(texts(pair@), scales),
{
    if pair.len() != 2 {
        return Err(ParseError::MissingField("price/qty pair"));
    }
    assert(texts(pair@)[0] == pair@[0]@);
    assert(texts(pair@)[1] == pair@[1]@);
    match parse_fixed(pair[0].as_str(), scales.price) {
        Err(e) => Err(e),
        Ok(price) => match parse_fixed(pair[1].as_str(), scales.qty) {
            Err(e) => Err(e),
            Ok(qty) => Ok(Level { price, qty }),
        },
    }
}

/// Read an array of `["price","qty"]` pairs that follows `key`.
fn levels(s: &Vec<char>, key: &str, scales: Scales) -> (r: Result<Vec<Level>, ParseError>)
    ensures
        parsed_levels(r) == levels_behind(s@, key@, scales),
{
    let total: usize = s.len();
    let k = chars_of(key);
    assert(after(s@, 0) =~= s@);
    let pos: usize = match find(s, &k, 0) {
        None => {
            return Ok(Vec::new());
        },
        Some(p) => p,
    };
    let from: usize = pos + k.len();
    let ghost rest = after(s@, from as int);
    let mut bracket: Vec<char> = Vec::new();
    bracket.push('[');
    assert(bracket@ =~= seq!['[']);
    proof {
        lemma_first_is_place(s@, key@, pos as int);
    }
    let open: usize = match find(s, &bracket, from) {
        None => {
            return Err(ParseError::MissingField("array"));
        },
        Some(p) => p,
    };
    proof {
        lemma_first_is_place(rest, seq!['['], open - from);
        assert(after(rest, open - from) =~= after(s@, open as int));
    }
    let mut out: Vec<Level> = Vec::new();
    let mut depth: i128 = 0;
    let mut pair: Vec<String> = Vec::new();
    let mut current = String::new();
    let mut in_string = false;
    let mut i: usize = open;
    let ghost goal = scanned(after(s@, open as int), scan_start(), scales);
    proof {
        assert(texts(pair@) =~= Seq::<Seq<char>>::empty());
    }
    while i < total
        invariant
            open <= i <= total == s@.len(),
            -(i - open) <= depth <= i - open,
            goal == levels_behind(s@, key@, scales),
            goal == scanned(
                after(s@, i as int),
                Scan { depth: depth as int, pair: texts(pair@), current: current@, in_string, out: out@ },
                scales,
            ),
        decreases total - i,
    {
        let c = s[i];
        let ghost here = after(s@, i as int);
        let ghost st = Scan {
            depth: depth as int,
            pair: texts(pair@),
            current: current@,
            in_string,
            out: out@,
        };
        proof {
            assert(here.drop_first() =~= after(s@, i + 1));
            assert(here[0] == c);
        }
        if c == ']' && !in_string {
            depth = depth - 1;
            if depth == 1 {
                match read_pair(&pair, scales) {
                    Err(e) => {
                        return Err(e);
                    },
                    Ok(level) => {
                        out.push(level);
                    },
                }
            } else if depth == 0 {
                return Ok(out);
            }
        } else if c == '"' {
            if in_string {
                let ghost before = pair@;
                let done = current;
                pair.push(done);
                current = String::new();
                assert(texts(pair@) =~= texts(before).push(st.current));
            }
            in_string = !in_string;
        } else if in_string {
            current.push(c);
        } else if c == '[' {
            depth = depth + 1;
            pair.clear();
            assert(texts(pair@) =~= Seq::<Seq<char>>::empty());
        }
        i += 1;
    }
    assert(after(s@, i as int) =~= Seq::<char>::empty());
    Err(ParseError::MissingField("array"))
}

/// What a depth message says.
pub open spec fn depth_of(payload: Seq<u8>, scales: Scales) -> Result<DepthView, ParseErrorView> {
    let s = vstd::utf8::decode_utf8(payload);
    if !vstd::utf8::valid_utf8(payload) || !found_in(s, "\"depthUpdate\""@) {
        Err(ParseErrorView::NotDepth)
    } else if int_behind(s, "\"E\":"@) is None {
        Err(ParseErrorView::MissingField("E"@))
    } else if int_behind(s, "\"U\":"@) is None {
        Err(ParseErrorView::MissingField("U"@))
    } else if int_behind(s, "\"u\":"@) is None {
        Err(ParseErrorView::MissingField("u"@))
    } else {
        match levels_behind(s, "\"b\":"@, scales) {
            Err(e) => Err(e),
            Ok(bids) => match levels_behind(s, "\"a\":"@, scales) {
                Err(e) => Err(e),
                Ok(asks) => Ok(
                    DepthView {
                        event_ms: from_bits(int_behind(s, "\"E\":"@).unwrap() as nat),
                        first_id: int_behind(s, "\"U\":"@).unwrap(),
                        final_id: int_behind(s, "\"u\":"@).unwrap(),
                        prev_final_id: int_behind(s, "\"pu\":"@),
                        bids,
                        asks,
                    },
                ),
            },
        }
    }
}

/// The view of a depth update that may have failed to parse.
pub open spec fn parsed_depth(r: Result<DepthUpdate, ParseError>) -> Result<
    DepthView,
    ParseErrorView,
> {
    match r {
        Ok(u) => Ok(u@),
        Err(e) => Err(e@),
    }
}

/// Parse an incremental depth message.
pub fn parse_depth(payload: &[u8], scales: Scales) -> (r: Result<DepthUpdate, ParseError>)
    ensures
        parsed_depth(r) == depth_of(payload@, scales),
{
    proof {
        reveal_strlit("\"E\":");
        reveal_strlit("\"U\":");
        reveal_strlit("\"u\":");
        reveal_strlit("\"pu\":");
    }
    let text = match utf8(payload) {
        None => {
            return Err(ParseError::NotDepth);
        },
        Some(t) => t,
    };
    let s = chars_of(text);
    let mark = chars_of("\"depthUpdate\"");
    assert(after(s@, 0) =~= s@);
    match find(&s, &mark, 0) {
        None => {
            return Err(ParseError::NotDepth);
        },
        Some(i) => {
            proof {
                lemma_first_is_place(s@, mark@, i as int);
            }
        },
    }
    let event: u64 = match int_field(&s, "\"E\":") {
        None => {
            return Err(ParseError::MissingField("E"));
        },
        Some(v) => v,
    };
    let first_id: u64 = match int_field(&s, "\"U\":") {
        None => {
            return Err(ParseError::MissingField("U"));
        },
        Some(v) => v,
    };
    let final_id: u64 = match int_field(&s, "\"u\":") {
        None => {
            return Err(ParseError::MissingField("u"));
        },
        Some(v) => v,
    };
    let prev_final_id = int_field(&s, "\"pu\":");
    let bids = match levels(&s, "\"b\":", scales) {
        Err(e) => {
            return Err(e);
        },
        Ok(v) => v,
    };
    let asks = match levels(&s, "\"a\":", scales) {
        Err(e) => {
            return Err(e);
        },
        Ok(v) => v,
    };
    assert((event as i64) == (if event >= 0x8000_0000_0000_0000 {
        event - 0x1_0000_0000_0000_0000
    } else {
        event as int
    })) by (bit_vector);
    Ok(DepthUpdate { event_ms: event as i64, first_id, final_id, prev_final_id, bids, asks })
}

} // verus!
