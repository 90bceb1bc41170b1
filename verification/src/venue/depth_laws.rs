//! What a depth message says, from the text it is made of.
use crate::text::{
    after, all_digits, digits_value, first_at, found_in, is_digit, leading_digits,
    lemma_first_is_place, stands_at,
};
use crate::venue::depth::{
    depth_of, fixed, frac_part, int_behind, int_part, levels_behind, padded, pair_level, scan_start, scanned,
    unsigned_part, Level, ParseErrorView, Scales, Scan,
};
use vstd::prelude::*;

verus! {

/// Ten times itself, `n` times over.
pub open spec fn tens(n: nat) -> nat
    decreases n,
{
    if n == 0 {
        1
    } else {
        10 * tens((n - 1) as nat)
    }
}

/// Digits behind digits: the first are worth ten times more for each behind
/// them.
pub proof fn law_digits_count_by_place(a: Seq<char>, b: Seq<char>)
    ensures
        digits_value(a + b) == digits_value(a) * tens(b.len()) + digits_value(b),
    decreases b.len(),
{
    let v = digits_value(a);
    if b.len() == 0 {
        assert(a + b =~= a);
        assert(v * 1 == v) by (nonlinear_arith);
    } else {
        let rest = b.drop_last();
        law_digits_count_by_place(a, rest);
        assert((a + b).drop_last() =~= a + rest);
        assert((a + b).last() == b.last());
        let p = tens(rest.len());
        assert(v * (10 * p) == 10 * (v * p)) by (nonlinear_arith);
    }
}

proof fn lemma_padded(frac: Seq<char>, scale: nat)
    requires
        frac.len() <= scale,
    ensures
        digits_value(padded(frac, scale)) == digits_value(frac) * tens((scale - frac.len()) as nat),
    decreases scale - frac.len(),
{
    if frac.len() == scale {
        assert(padded(frac, scale) =~= frac);
        assert(digits_value(frac) * 1 == digits_value(frac)) by (nonlinear_arith);
    } else {
        let less = (scale - 1) as nat;
        lemma_padded(frac, less);
        let all = padded(frac, scale);
        assert(all.drop_last() =~= padded(frac, less));
        assert(all.last() == '0');
        let v = digits_value(frac);
        let p = tens((less - frac.len()) as nat);
        assert(v * (10 * p) == 10 * (v * p)) by (nonlinear_arith);
    }
}

proof fn lemma_parts(whole: Seq<char>, frac: Seq<char>)
    requires
        all_digits(whole),
    ensures
        int_part(whole + seq!['.'] + frac) == whole,
        frac_part(whole + seq!['.'] + frac) == frac,
        int_part(whole) == whole,
        frac_part(whole) == Seq::<char>::empty(),
{
    let body = whole + seq!['.'] + frac;
    let point = seq!['.'];
    let at = whole.len() as int;
    assert(stands_at(body, point, at)) by {
        assert(body.subrange(at, at + 1) =~= point);
    }
    assert forall|j: int| 0 <= j < at implies !#[trigger] stands_at(body, point, j) by {
        assert(body[j] == whole[j]);
        assert(is_digit(whole[j]));
        if stands_at(body, point, j) {
            assert(body.subrange(j, j + 1)[0] == point[0]);
        }
    }
    assert(first_at(body, point, at));
    lemma_first_is_place(body, point, at);
    assert(int_part(body) =~= whole);
    assert(frac_part(body) =~= frac);
    if found_in(whole, point) {
        let i = choose|i: int| #[trigger] stands_at(whole, point, i);
        assert(whole.subrange(i, i + 1)[0] == point[0]);
        assert(is_digit(whole[i]));
    }
}

/// A decimal is read as a whole count of its last place: its whole part scaled
/// up, and its fraction scaled up by the places it lacks; below nought behind
/// a minus sign. A number without a point is a whole part.
pub proof fn law_a_decimal_is_read_to_its_last_place(
    whole: Seq<char>,
    frac: Seq<char>,
    scale: u32,
    value: i64,
)
    requires
        whole.len() > 0,
        all_digits(whole),
        all_digits(frac),
        frac.len() <= scale,
        value == digits_value(whole) * tens(scale as nat) + digits_value(frac) * tens(
            (scale - frac.len()) as nat,
        ),
    ensures
        fixed(whole + seq!['.'] + frac, scale) == Ok::<i64, ParseErrorView>(value),
        fixed(seq!['-'] + (whole + seq!['.'] + frac), scale) == Ok::<i64, ParseErrorView>(
            (-value) as i64,
        ),
        frac.len() == 0 ==> fixed(whole, scale) == Ok::<i64, ParseErrorView>(value),
        frac.len() == 0 ==> fixed(seq!['-'] + whole, scale) == Ok::<i64, ParseErrorView>(
            (-value) as i64,
        ),
{
    let body = whole + seq!['.'] + frac;
    let less = seq!['-'] + body;
    assert(is_digit(whole[0]));
    assert(body[0] == whole[0]);
    assert(unsigned_part(body) == body);
    assert(unsigned_part(less) =~= body);
    assert(unsigned_part(whole) == whole);
    assert(unsigned_part(seq!['-'] + whole) =~= whole);
    assert(less.len() == body.len() + 1);
    assert((seq!['-'] + whole).len() == whole.len() + 1);
    lemma_parts(whole, frac);
    lemma_padded(frac, scale as nat);
    law_digits_count_by_place(whole, padded(frac, scale as nat));
    if frac.len() == 0 {
        assert(frac =~= Seq::<char>::empty());
    }
}

/// A decimal with more places than the scale holds is refused as too precise,
/// and not rounded, unless what it has too many of is noughts.
pub proof fn law_too_many_places_are_refused(
    whole: Seq<char>,
    frac: Seq<char>,
    scale: u32,
    i: int,
)
    requires
        all_digits(whole),
        all_digits(frac),
        scale <= i < frac.len(),
        frac[i] != '0',
        whole.len() > 0,
    ensures
        ({
            let text = whole + seq!['.'] + frac;
            fixed(text, scale) == Err::<i64, ParseErrorView>(
                ParseErrorView::TooPrecise { text, scale },
            )
        }),
{
    let body = whole + seq!['.'] + frac;
    assert(is_digit(whole[0]));
    assert(body[0] == whole[0]);
    assert(unsigned_part(body) == body);
    lemma_parts(whole, frac);
}

/// What is read behind a key is the number that stands there: the first place
/// the key stands decides, and the digits behind it end where something else
/// begins.
pub proof fn law_a_field_is_read_behind_its_key(
    s: Seq<char>,
    key: Seq<char>,
    at: int,
    run: Seq<char>,
    rest: Seq<char>,
)
    requires
        key.len() > 0,
        first_at(s, key, at),
        after(s, at + key.len()) == run + rest,
        run.len() > 0,
        all_digits(run),
        rest.len() > 0 ==> !is_digit(rest[0]),
        digits_value(run) <= u64::MAX,
    ensures
        int_behind(s, key) == Some(digits_value(run) as u64),
{
    lemma_first_is_place(s, key, at);
    lemma_leading(run, rest);
}

proof fn lemma_leading(run: Seq<char>, rest: Seq<char>)
    requires
        all_digits(run),
        rest.len() > 0 ==> !is_digit(rest[0]),
    ensures
        leading_digits(run + rest) == run,
    decreases run.len(),
{
    if run.len() == 0 {
        assert(run + rest =~= rest);
        assert(leading_digits(rest) =~= run);
    } else {
        let tail = run.drop_first();
        assert(is_digit(run[0]));
        assert forall|i: int| 0 <= i < tail.len() implies is_digit(#[trigger] tail[i]) by {
            assert(tail[i] == run[i + 1]);
        }
        lemma_leading(tail, rest);
        assert((run + rest).drop_first() =~= tail + rest);
        assert(seq![run[0]] + tail =~= run);
    }
}

/// Whether a text can stand between quotes.
pub open spec fn quotable(s: Seq<char>) -> bool {
    forall|i: int| 0 <= i < s.len() ==> #[trigger] s[i] != '"'
}

/// One level as a message writes it: a price and a quantity, each in quotes.
pub open spec fn level_text(price: Seq<char>, qty: Seq<char>) -> Seq<char> {
    seq!['[', '"'] + (price + (seq!['"', ',', '"'] + (qty + seq!['"', ']'])))
}

/// Levels as a message writes them, each behind a comma but the first.
pub open spec fn levels_text(pairs: Seq<(Seq<char>, Seq<char>)>) -> Seq<char>
    decreases pairs.len(),
{
    if pairs.len() == 0 {
        Seq::empty()
    } else {
        let one = level_text(pairs[0].0, pairs[0].1);
        let rest = pairs.drop_first();
        if rest.len() == 0 {
            one
        } else {
            one + (seq![','] + levels_text(rest))
        }
    }
}

proof fn lemma_scan_string(text: Seq<char>, rest: Seq<char>, st: Scan, scales: Scales)
    requires
        st.in_string,
        quotable(text),
    ensures
        scanned(text + (seq!['"'] + rest), st, scales) == scanned(
            rest,
            Scan {
                pair: st.pair.push(st.current + text),
                current: Seq::empty(),
                in_string: false,
                ..st
            },
            scales,
        ),
    decreases text.len(),
{
    let all = text + (seq!['"'] + rest);
    if text.len() == 0 {
        assert(all[0] == '"');
        assert(all.drop_first() =~= rest);
        assert(st.current + text =~= st.current);
    } else {
        let tail = text.drop_first();
        assert(text[0] != '"');
        assert forall|i: int| 0 <= i < tail.len() implies #[trigger] tail[i] != '"' by {
            assert(tail[i] == text[i + 1]);
        }
        let next = Scan { current: st.current.push(text[0]), ..st };
        assert(all[0] == text[0]);
        assert(all.drop_first() =~= tail + (seq!['"'] + rest));
        lemma_scan_string(tail, rest, next, scales);
        assert(st.current.push(text[0]) + tail =~= st.current + text);
    }
}

proof fn lemma_scan_one(c: char, rest: Seq<char>, st: Scan, scales: Scales)
    requires
        !st.in_string,
        c == '[' || c == ',' || c == '"',
    ensures
        scanned(seq![c] + rest, st, scales) == scanned(
            rest,
            if c == '[' {
                Scan { depth: st.depth + 1, pair: Seq::empty(), ..st }
            } else if c == '"' {
                Scan { in_string: true, ..st }
            } else {
                st
            },
            scales,
        ),
{
    let all = seq![c] + rest;
    assert(all[0] == c);
    assert(all.drop_first() =~= rest);
}

proof fn lemma_scan_level(
    price: Seq<char>,
    qty: Seq<char>,
    level: Level,
    rest: Seq<char>,
    st: Scan,
    scales: Scales,
)
    requires
        !st.in_string,
        st.depth == 1,
        st.current.len() == 0,
        quotable(price),
        quotable(qty),
        fixed(price, scales.price) == Ok::<i64, ParseErrorView>(level.price),
        fixed(qty, scales.qty) == Ok::<i64, ParseErrorView>(level.qty),
    ensures
        scanned(level_text(price, qty) + rest, st, scales) == scanned(
            rest,
            Scan {
                depth: 1,
                pair: seq![price, qty],
                current: Seq::empty(),
                in_string: false,
                out: st.out.push(level),
            },
            scales,
        ),
{
    let close = seq![']'] + rest;
    let quoted = qty + (seq!['"'] + close);
    let second = seq!['"'] + quoted;
    let comma = seq![','] + second;
    let first = price + (seq!['"'] + comma);
    let opened = seq!['"'] + first;
    assert(level_text(price, qty) + rest =~= seq!['['] + opened);
    lemma_scan_one('[', opened, st, scales);
    let s1 = Scan { depth: 2, pair: Seq::empty(), ..st };
    lemma_scan_one('"', first, s1, scales);
    let s2 = Scan { in_string: true, ..s1 };
    lemma_scan_string(price, comma, s2, scales);
    assert(s2.current + price =~= price);
    let s3 = Scan {
        pair: s2.pair.push(price),
        current: Seq::empty(),
        in_string: false,
        ..s2
    };
    lemma_scan_one(',', second, s3, scales);
    lemma_scan_one('"', quoted, s3, scales);
    let s4 = Scan { in_string: true, ..s3 };
    lemma_scan_string(qty, close, s4, scales);
    assert(s4.current + qty =~= qty);
    let s5 = Scan { pair: s4.pair.push(qty), current: Seq::empty(), in_string: false, ..s4 };
    assert(s5.pair =~= seq![price, qty]);
    assert(close[0] == ']');
    assert(close.drop_first() =~= rest);
    assert(pair_level(s5.pair, scales) == Ok::<Level, ParseErrorView>(level));
    let s6 = Scan { depth: 1, out: s5.out.push(level), ..s5 };
    assert(scanned(close, s5, scales) == scanned(rest, s6, scales));
    assert(s6 =~= Scan {
        depth: 1,
        pair: seq![price, qty],
        current: Seq::empty(),
        in_string: false,
        out: st.out.push(level),
    });
}

proof fn lemma_scan_levels(
    pairs: Seq<(Seq<char>, Seq<char>)>,
    levels: Seq<Level>,
    st: Scan,
    scales: Scales,
    rest: Seq<char>,
)
    requires
        pairs.len() == levels.len(),
        !st.in_string,
        st.depth == 1,
        st.current.len() == 0,
        forall|i: int|
            0 <= i < pairs.len() ==> quotable((#[trigger] pairs[i]).0) && quotable(pairs[i].1)
                && fixed(pairs[i].0, scales.price) == Ok::<i64, ParseErrorView>(levels[i].price)
                && fixed(pairs[i].1, scales.qty) == Ok::<i64, ParseErrorView>(levels[i].qty),
    ensures
        scanned(levels_text(pairs) + (seq![']'] + rest), st, scales) == Ok::<
            Seq<Level>,
            ParseErrorView,
        >(st.out + levels),
    decreases pairs.len(),
{
    let end = seq![']'] + rest;
    if pairs.len() == 0 {
        assert(levels_text(pairs) + end =~= end);
        assert(end[0] == ']');
        assert(st.out + levels =~= st.out);
    } else {
        let (p, q) = pairs[0];
        let more = pairs.drop_first();
        let others = levels.drop_first();
        let behind = if more.len() == 0 {
            end
        } else {
            seq![','] + (levels_text(more) + end)
        };
        assert(levels_text(pairs) + end =~= level_text(p, q) + behind);
        assert(quotable(pairs[0].0));
        lemma_scan_level(p, q, levels[0], behind, st, scales);
        let next = Scan {
            depth: 1,
            pair: seq![p, q],
            current: Seq::empty(),
            in_string: false,
            out: st.out.push(levels[0]),
        };
        assert forall|i: int| 0 <= i < more.len() implies quotable((#[trigger] more[i]).0)
            && quotable(more[i].1) && fixed(more[i].0, scales.price) == Ok::<i64, ParseErrorView>(
            others[i].price,
        ) && fixed(more[i].1, scales.qty) == Ok::<i64, ParseErrorView>(others[i].qty) by {
            assert(more[i] == pairs[i + 1]);
            assert(others[i] == levels[i + 1]);
        }
        if more.len() > 0 {
            lemma_scan_one(',', levels_text(more) + end, next, scales);
        } else {
            assert(levels_text(more) + end =~= end);
        }
        lemma_scan_levels(more, others, next, scales, rest);
        assert(next.out + others =~= st.out + levels);
    }
}

/// Levels read back: an array of price and quantity pairs, written as a
/// message writes it, is read as the levels the pairs name, in order and to
/// its own end.
pub proof fn law_levels_read_back(
    pairs: Seq<(Seq<char>, Seq<char>)>,
    levels: Seq<Level>,
    scales: Scales,
    rest: Seq<char>,
)
    requires
        pairs.len() == levels.len(),
        forall|i: int|
            0 <= i < pairs.len() ==> quotable((#[trigger] pairs[i]).0) && quotable(pairs[i].1)
                && fixed(pairs[i].0, scales.price) == Ok::<i64, ParseErrorView>(levels[i].price)
                && fixed(pairs[i].1, scales.qty) == Ok::<i64, ParseErrorView>(levels[i].qty),
    ensures
        scanned(seq!['['] + (levels_text(pairs) + (seq![']'] + rest)), scan_start(), scales) == Ok::<
            Seq<Level>,
            ParseErrorView,
        >(levels),
{
    let inside = levels_text(pairs) + (seq![']'] + rest);
    let st = Scan { depth: 1, ..scan_start() };
    lemma_scan_one('[', inside, scan_start(), scales);
    assert(st =~= (Scan { depth: 1, pair: Seq::empty(), ..scan_start() }));
    lemma_scan_levels(pairs, levels, st, scales, rest);
    assert(st.out + levels =~= levels);
}

/// A message is read field by field: its time behind `E`, its first and final
/// ids behind `U` and `u`, the id it follows behind `pu` where it names one,
/// its bids behind `b` and its asks behind `a`.
pub proof fn law_a_message_is_read_field_by_field(payload: Seq<u8>, scales: Scales)
    ensures
        depth_of(payload, scales) matches Ok(d) ==> {
            let s = vstd::utf8::decode_utf8(payload);
            &&& vstd::utf8::valid_utf8(payload)
            &&& found_in(s, "\"depthUpdate\""@)
            &&& int_behind(s, "\"E\":"@) matches Some(ms) && (ms <= i64::MAX ==> d.event_ms == ms)
            &&& int_behind(s, "\"U\":"@) == Some(d.first_id)
            &&& int_behind(s, "\"u\":"@) == Some(d.final_id)
            &&& int_behind(s, "\"pu\":"@) == d.prev_final_id
            &&& levels_behind(s, "\"b\":"@, scales) == Ok::<Seq<Level>, ParseErrorView>(d.bids)
            &&& levels_behind(s, "\"a\":"@, scales) == Ok::<Seq<Level>, ParseErrorView>(d.asks)
        },
{
}

/// Levels behind a key are those of the array that follows it, and a message
/// without the key changes none.
pub proof fn law_levels_stand_behind_their_key(
    s: Seq<char>,
    key: Seq<char>,
    at: int,
    pairs: Seq<(Seq<char>, Seq<char>)>,
    levels: Seq<Level>,
    scales: Scales,
    rest: Seq<char>,
)
    requires
        first_at(s, key, at),
        after(s, at + key.len()) == seq!['['] + (levels_text(pairs) + (seq![']'] + rest)),
        pairs.len() == levels.len(),
        forall|i: int|
            0 <= i < pairs.len() ==> quotable((#[trigger] pairs[i]).0) && quotable(pairs[i].1)
                && fixed(pairs[i].0, scales.price) == Ok::<i64, ParseErrorView>(levels[i].price)
                && fixed(pairs[i].1, scales.qty) == Ok::<i64, ParseErrorView>(levels[i].qty),
    ensures
        levels_behind(s, key, scales) == Ok::<Seq<Level>, ParseErrorView>(levels),
{
    let tail = seq!['['] + (levels_text(pairs) + (seq![']'] + rest));
    let open = seq!['['];
    lemma_first_is_place(s, key, at);
    assert(stands_at(tail, open, 0)) by {
        assert(tail.subrange(0, 1) =~= open);
    }
    assert(first_at(tail, open, 0));
    lemma_first_is_place(tail, open, 0);
    assert(after(tail, 0) =~= tail);
    law_levels_read_back(pairs, levels, scales, rest);
}

} // verus!
