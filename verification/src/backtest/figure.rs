//! What reports measure in.
//!
//! A report compares, orders, adds and divides returns and shares. Which
//! number type does that is the host's choice; what the reports do with the
//! numbers is not, and is written against this trait. [`Ratio`] is one such
//! type: fixed point, exact to eight places and the same on every machine.
use crate::backtest::lines::{is_line, lacks};
use crate::text::{
    all_digits, digit_char, digits, digits_value, first_at, is_digit, lemma_digits_read_back,
    lemma_first_is_place, nearest, put, put_digits, stands_at,
};
use crate::types::{
    clamp_i64, magnitude, quotient, sat_add, sat_sub, saturate, signed_div, truncated_div, Cash,
    Ratio,
};
use crate::venue::depth::{
    fixed, frac_part, int_part, padded, parse_fixed, unsigned_part, ParseErrorView,
};
use vstd::prelude::*;

verus! {

/// Whether a text can stand in a line as one field that says something.
pub open spec fn stands_alone(t: Seq<char>) -> bool {
    &&& t.len() > 0
    &&& t != "-"@
    &&& lacks(t, ' ')
    &&& lacks(t, '\t')
    &&& is_line(t)
}

/// A number a report is made of.
///
/// Each operation says what it computes by a spec function of its own, so a
/// report's contract can speak of sums and orders without knowing how a number
/// is kept.
pub trait Figure: Copy + Sized {
    /// `num / den`.
    open spec fn quotient_of(num: i64, den: i64) -> Self {
        arbitrary()
    }

    /// What stands for a value that is not defined.
    open spec fn undefined_value() -> Self {
        arbitrary()
    }

    /// `self - other`.
    open spec fn less(self, other: Self) -> Self {
        arbitrary()
    }

    /// `self + other`.
    open spec fn with(self, other: Self) -> Self {
        arbitrary()
    }

    /// `self / n`.
    open spec fn shared_by(self, n: usize) -> Self {
        arbitrary()
    }

    /// `self / whole`.
    open spec fn part_of(self, whole: Self) -> Self {
        arbitrary()
    }

    /// `self * 100`.
    open spec fn in_percent(self) -> Self {
        arbitrary()
    }

    /// Whether the value is a number.
    open spec fn is_number(self) -> bool {
        arbitrary()
    }

    /// `self > other`.
    open spec fn above(self, other: Self) -> bool {
        arbitrary()
    }

    /// `self <= other`.
    open spec fn at_most(self, other: Self) -> bool {
        arbitrary()
    }

    /// `self == other`.
    open spec fn alike(self, other: Self) -> bool {
        arbitrary()
    }

    /// Whether `self` comes no later than `other` when values are put in
    /// order, those that are not numbers included.
    open spec fn no_later(self, other: Self) -> bool {
        arbitrary()
    }

    /// How many samples a quantile at `self` needs to land on one: `1 / self`,
    /// rounded up.
    open spec fn samples_needed(self) -> usize {
        arbitrary()
    }

    /// Where the quantile at `self` stands among `n` samples, counted from
    /// one: `self * n`, rounded up, with `self` held between nought and one.
    open spec fn place_among(self, n: usize) -> usize {
        arbitrary()
    }

    /// The value with a number of decimal places.
    open spec fn fixed_text(self, places: u32) -> Seq<char> {
        arbitrary()
    }

    /// The value in full.
    open spec fn plain_text(self) -> Seq<char> {
        arbitrary()
    }

    /// The value a text spells, if it spells one.
    open spec fn spelled(text: Seq<char>) -> Option<Self> {
        arbitrary()
    }

    /// A number, written out in full, stands in a line as one field and is read
    /// back as it was.
    proof fn lemma_writes_back(self)
        requires
            self.is_number(),
        ensures
            stands_alone(self.plain_text()),
            Self::spelled(self.plain_text()) == Some(self),
    ;

    fn ratio(num: i64, den: i64) -> (r: Self)
        requires
            den != 0,
        ensures
            r == Self::quotient_of(num, den),
    ;

    fn undefined() -> (r: Self)
        ensures
            r == Self::undefined_value(),
    ;

    fn minus(self, other: Self) -> (r: Self)
        ensures
            r == self.less(other),
    ;

    fn plus(self, other: Self) -> (r: Self)
        ensures
            r == self.with(other),
    ;

    fn over(self, n: usize) -> (r: Self)
        requires
            n > 0,
        ensures
            r == self.shared_by(n),
    ;

    fn share_of(self, whole: Self) -> (r: Self)
        requires
            whole.above(Self::quotient_of(0, 1)),
        ensures
            r == self.part_of(whole),
    ;

    fn percent(self) -> (r: Self)
        ensures
            r == self.in_percent(),
    ;

    fn is_finite(self) -> (r: bool)
        ensures
            r == self.is_number(),
    ;

    fn exceeds(self, other: Self) -> (r: bool)
        ensures
            r == self.above(other),
    ;

    fn within(self, other: Self) -> (r: bool)
        ensures
            r == self.at_most(other),
    ;

    fn equals(self, other: Self) -> (r: bool)
        ensures
            r == self.alike(other),
    ;

    fn precedes(self, other: Self) -> (r: bool)
        ensures
            r == self.no_later(other),
    ;

    fn samples(self) -> (r: usize)
        ensures
            r == self.samples_needed(),
    ;

    fn place(self, n: usize) -> (r: usize)
        ensures
            r == self.place_among(n),
    ;

    fn to_fixed(self, places: u32) -> (r: String)
        ensures
            r@ == self.fixed_text(places),
    ;

    fn to_plain(self) -> (r: String)
        ensures
            r@ == self.plain_text(),
    ;

    fn read(text: &str) -> (r: Option<Self>)
        ensures
            r == Self::spelled(text@),
    ;
}

/// Nought.
pub open spec fn nought<F: Figure>() -> F {
    F::quotient_of(0, 1)
}

pub fn zero<F: Figure>() -> (r: F)
    ensures
        r == nought::<F>(),
{
    F::ratio(0, 1)
}

/// An amount of money in a report: in units, to two places.
pub open spec fn amount_text<F: Figure>(c: Cash) -> Seq<char> {
    F::quotient_of(c.0, 100_000_000).fixed_text(2)
}

pub fn put_amount<F: Figure>(out: &mut String, c: Cash)
    ensures
        final(out)@ == old(out)@ + amount_text::<F>(c),
{
    put(out, F::ratio(c.0, 100_000_000).to_fixed(2).as_str());
}

/// The sum of a run of figures, from the first to the last.
pub open spec fn sum_of<F: Figure>(xs: Seq<F>) -> F
    decreases xs.len(),
{
    if xs.len() == 0 {
        nought()
    } else {
        sum_of(xs.drop_last()).with(xs.last())
    }
}

pub fn sum<F: Figure>(xs: &Vec<F>) -> (r: F)
    ensures
        r == sum_of(xs@),
{
    let mut total: F = zero();
    let mut i: usize = 0;
    assert(xs@.subrange(0, 0) =~= Seq::<F>::empty());
    while i < xs.len()
        invariant
            i <= xs@.len(),
            total == sum_of(xs@.subrange(0, i as int)),
        decreases xs@.len() - i,
    {
        proof {
            let now = xs@.subrange(0, i + 1);
            assert(now.drop_last() =~= xs@.subrange(0, i as int));
            assert(now.last() == xs@[i as int]);
        }
        total = total.plus(xs[i]);
        i += 1;
    }
    assert(xs@.subrange(0, i as int) =~= xs@);
    total
}

/// Ten to a power.
pub open spec fn pow10(n: nat) -> nat
    decreases n,
{
    if n == 0 {
        1
    } else {
        10 * pow10((n - 1) as nat)
    }
}

/// The last `width` digits of a number.
pub open spec fn tail_digits(n: nat, width: nat) -> Seq<char>
    decreases width,
{
    if width == 0 {
        Seq::empty()
    } else {
        tail_digits(n / 10, (width - 1) as nat).push(digit_char(n % 10))
    }
}

/// A count of hundred-millionths with a number of decimal places, eight at
/// most; the nearest such value, and of two as near the even one.
pub open spec fn places_text(raw: i64, places: u32) -> Seq<char> {
    let p = if places < 8 {
        places as nat
    } else {
        8
    };
    let scaled = nearest(magnitude(raw as int) as nat, pow10((8 - p) as nat));
    let whole = (if raw < 0 {
        seq!['-']
    } else {
        Seq::empty()
    }) + digits(scaled / pow10(p));
    if p == 0 {
        whole
    } else {
        whole + seq!['.'] + tail_digits(scaled % pow10(p), p)
    }
}

fn power(n: u32) -> (r: u64)
    requires
        n <= 8,
    ensures
        r == pow10(n as nat),
        r > 0,
        r <= 100_000_000,
{
    reveal_with_fuel(pow10, 9);
    let mut out: u64 = 1;
    let mut i: u32 = 0;
    while i < n
        invariant
            i <= n <= 8,
            out == pow10(i as nat),
            i == 0 ==> out == 1,
            i == 1 ==> out == 10,
            i == 2 ==> out == 100,
            i == 3 ==> out == 1_000,
            i == 4 ==> out == 10_000,
            i == 5 ==> out == 100_000,
            i == 6 ==> out == 1_000_000,
            i == 7 ==> out == 10_000_000,
            i == 8 ==> out == 100_000_000,
        decreases n - i,
    {
        out = out * 10;
        i += 1;
    }
    out
}

fn put_tail(out: &mut String, n: u64, width: u32)
    ensures
        final(out)@ == old(out)@ + tail_digits(n as nat, width as nat),
    decreases width,
{
    let ghost start = out@;
    if width == 0 {
        assert(out@ =~= start + tail_digits(n as nat, 0));
        return ;
    }
    put_tail(out, n / 10, width - 1);
    let d: u8 = (n % 10) as u8;
    out.push((48 + d) as char);
    assert(out@ =~= start + tail_digits(n as nat, width as nat));
}

fn put_places(out: &mut String, raw: i64, places: u32)
    ensures
        final(out)@ == old(out)@ + places_text(raw, places),
{
    let ghost start = out@;
    let p: u32 = if places < 8 {
        places
    } else {
        8
    };
    let size: u64 = if raw < 0 {
        (-(raw as i128)) as u64
    } else {
        raw as u64
    };
    let unit: u64 = power(8 - p);
    let one: u64 = power(p);
    let q: u64 = size / unit;
    let over: u64 = 2 * (size % unit);
    let scaled: u64 = if over > unit || (over == unit && q % 2 == 1) {
        q + 1
    } else {
        q
    };
    assert(scaled == nearest(magnitude(raw as int) as nat, unit as nat));
    if raw < 0 {
        out.push('-');
    }
    put_digits(out, scaled / one);
    if p > 0 {
        out.push('.');
        put_tail(out, scaled % one, p);
    }
    assert(out@ =~= start + places_text(raw, places));
}

/// Digits and a number's last places spell the digits' number followed by it.
proof fn lemma_tail_value(a: Seq<char>, m: nat, width: nat)
    requires
        m < pow10(width),
    ensures
        digits_value(a + tail_digits(m, width)) == digits_value(a) * pow10(width) + m,
        all_digits(tail_digits(m, width)),
        tail_digits(m, width).len() == width,
    decreases width,
{
    let v = digits_value(a);
    if width == 0 {
        assert(a + tail_digits(m, width) =~= a);
        assert(v * 1 == v) by (nonlinear_arith);
    } else {
        let less = (width - 1) as nat;
        let p = pow10(less);
        lemma_tail_value(a, m / 10, less);
        let s = a + tail_digits(m, width);
        assert(s.drop_last() =~= a + tail_digits(m / 10, less));
        assert(s.last() == digit_char(m % 10));
        assert(v * (10 * p) == 10 * (v * p)) by (nonlinear_arith);
    }
}

/// A count of hundred-millionths in full can stand in a line, and is read back.
#[verifier::spinoff_prover]
proof fn lemma_places_write_back(raw: i64)
    requires
        raw != i64::MIN,
    ensures
        stands_alone(places_text(raw, 8)),
        fixed(places_text(raw, 8), 8) == Ok::<i64, ParseErrorView>(raw),
{
    reveal_with_fuel(pow10, 9);
    let n = magnitude(raw as int) as nat;
    let whole = digits(n / 100_000_000);
    let frac = tail_digits(n % 100_000_000, 8);
    let body = whole + seq!['.'] + frac;
    let t = places_text(raw, 8);
    assert(nearest(n, 1) == n);
    lemma_digits_read_back(n / 100_000_000);
    lemma_tail_value(whole, n % 100_000_000, 8);
    assert(t =~= if raw < 0 {
        seq!['-'] + body
    } else {
        body
    });
    assert(is_digit(whole[0]));
    assert(body[0] == whole[0]);
    assert(unsigned_part(t) =~= body);
    let at = whole.len() as int;
    let point = seq!['.'];
    assert(stands_at(body, point, at)) by {
        assert(body.subrange(at, at + 1) =~= point);
    }
    assert forall|j: int| 0 <= j < at implies !#[trigger] stands_at(body, point, j) by {
        assert(body[j] == whole[j]);
        assert(is_digit(whole[j]));
        if stands_at(body, point, j) {
            assert(body.subrange(j, j + 1)[0] == point[0]);
        }
    }
    assert(first_at(body, point, at));
    lemma_first_is_place(body, point, at);
    assert(int_part(body) =~= whole);
    assert(frac_part(body) =~= frac);
    assert(padded(frac, 8) =~= frac);
    assert forall|i: int| 0 <= i < t.len() implies #[trigger] t[i] != ' ' && t[i] != '\t' && t[i]
        != '\n' && t[i] != '\r' by {
        let k = if raw < 0 {
            i - 1
        } else {
            i
        };
        if k >= 0 {
            assert(t[i] == body[k]);
            if k < at {
                assert(body[k] == whole[k]);
            } else if k > at {
                assert(body[k] == frac[k - at - 1]);
            }
        }
    }
    assert(t != "-"@) by {
        reveal_strlit("-");
    }
    assert(digits_value(whole + padded(frac, 8)) == n);
    assert(fixed(t, 8) == Ok::<i64, ParseErrorView>(raw));
}

impl Figure for Ratio {
    open spec fn quotient_of(num: i64, den: i64) -> Self {
        Ratio(clamp_i64(quotient(num * 100_000_000, den as int)))
    }

    open spec fn undefined_value() -> Self {
        Ratio(i64::MIN)
    }

    open spec fn less(self, other: Self) -> Self {
        Ratio(clamp_i64(self.0 - other.0))
    }

    open spec fn with(self, other: Self) -> Self {
        Ratio(clamp_i64(self.0 + other.0))
    }

    open spec fn shared_by(self, n: usize) -> Self {
        Ratio(clamp_i64(quotient(self.0 as int, n as int)))
    }

    open spec fn part_of(self, whole: Self) -> Self {
        Ratio(clamp_i64(quotient(self.0 * 100_000_000, whole.0 as int)))
    }

    open spec fn in_percent(self) -> Self {
        Ratio(clamp_i64(self.0 * 100))
    }

    open spec fn is_number(self) -> bool {
        self.0 != i64::MIN
    }

    open spec fn above(self, other: Self) -> bool {
        self.0 > other.0
    }

    open spec fn at_most(self, other: Self) -> bool {
        self.0 <= other.0
    }

    open spec fn alike(self, other: Self) -> bool {
        self.0 == other.0
    }

    open spec fn no_later(self, other: Self) -> bool {
        self.0 <= other.0
    }

    open spec fn samples_needed(self) -> usize {
        if self.0 <= 0 {
            usize::MAX
        } else {
            ((100_000_000 + self.0 - 1) / (self.0 as int)) as usize
        }
    }

    open spec fn place_among(self, n: usize) -> usize {
        let q = if self.0 < 0 {
            0
        } else if self.0 > 100_000_000 {
            100_000_000
        } else {
            self.0 as int
        };
        ((q * n + 99_999_999) / 100_000_000) as usize
    }

    open spec fn fixed_text(self, places: u32) -> Seq<char> {
        places_text(self.0, places)
    }

    open spec fn plain_text(self) -> Seq<char> {
        places_text(self.0, 8)
    }

    open spec fn spelled(text: Seq<char>) -> Option<Self> {
        match fixed(text, 8) {
            Ok(raw) => Some(Ratio(raw)),
            Err(_) => None,
        }
    }

    proof fn lemma_writes_back(self) {
        lemma_places_write_back(self.0);
    }

    fn ratio(num: i64, den: i64) -> (r: Self) {
        let scaled: i128 = num as i128 * 100_000_000;
        Ratio(saturate(signed_div(scaled, den as i128)))
    }

    fn undefined() -> (r: Self) {
        Ratio(i64::MIN)
    }

    fn minus(self, other: Self) -> (r: Self) {
        Ratio(sat_sub(self.0, other.0))
    }

    fn plus(self, other: Self) -> (r: Self) {
        Ratio(sat_add(self.0, other.0))
    }

    fn over(self, n: usize) -> (r: Self) {
        Ratio(saturate(truncated_div(self.0 as i128, n as i128)))
    }

    fn share_of(self, whole: Self) -> (r: Self) {
        let scaled: i128 = self.0 as i128 * 100_000_000;
        proof {
            assert(quotient(0, 1) == 0);
        }
        Ratio(saturate(signed_div(scaled, whole.0 as i128)))
    }

    fn percent(self) -> (r: Self) {
        let scaled: i128 = self.0 as i128 * 100;
        Ratio(saturate(scaled))
    }

    fn is_finite(self) -> (r: bool) {
        self.0 != i64::MIN
    }

    fn exceeds(self, other: Self) -> (r: bool) {
        self.0 > other.0
    }

    fn within(self, other: Self) -> (r: bool) {
        self.0 <= other.0
    }

    fn equals(self, other: Self) -> (r: bool) {
        self.0 == other.0
    }

    fn precedes(self, other: Self) -> (r: bool) {
        self.0 <= other.0
    }

    fn samples(self) -> (r: usize) {
        if self.0 <= 0 {
            return usize::MAX;
        }
        let top: i128 = 100_000_000 + self.0 as i128 - 1;
        let d: i128 = self.0 as i128;
        proof {
            assert(0 <= top / d <= 100_000_000) by (nonlinear_arith)
                requires
                    top == 100_000_000 + d - 1,
                    d >= 1,
            ;
        }
        let n: i128 = truncated_div(top, d);
        n as usize
    }

    fn place(self, n: usize) -> (r: usize) {
        let q: u128 = if self.0 < 0 {
            0
        } else if self.0 > 100_000_000 {
            100_000_000
        } else {
            self.0 as u128
        };
        proof {
            assert(0 <= q * n <= 100_000_000 * n) by (nonlinear_arith)
                requires
                    0 <= q <= 100_000_000,
                    n >= 0,
            ;
        }
        ((q * n as u128 + 99_999_999) / 100_000_000) as usize
    }

    fn to_fixed(self, places: u32) -> (r: String) {
        let mut out = String::new();
        put_places(&mut out, self.0, places);
        assert(out@ =~= places_text(self.0, places));
        out
    }

    fn to_plain(self) -> (r: String) {
        let mut out = String::new();
        put_places(&mut out, self.0, 8);
        assert(out@ =~= places_text(self.0, 8));
        out
    }

    fn read(text: &str) -> (r: Option<Self>) {
        match parse_fixed(text, 8) {
            Ok(raw) => Some(Ratio(raw)),
            Err(_) => None,
        }
    }
}

/// Whether figures are ordered by size as numbers are: none is above itself,
/// what is above a larger one is above a smaller one, and what is above
/// another is above any number between, or that number is above the other.
pub open spec fn ordered_as_numbers<F: Figure>() -> bool {
    &&& forall|a: F| !(#[trigger] a.above(a))
    &&& forall|a: F, b: F, c: F| #[trigger]
        a.above(b) && #[trigger] b.above(c) ==> a.above(c)
    &&& forall|a: F, b: F, c: F|
        #![trigger a.above(c), b.is_number()]
        a.above(c) && b.is_number() ==> a.above(b) || b.above(c)
}

/// Whether figures stand in one order: any two can be compared, and
/// comparison chains.
pub open spec fn stand_in_order<F: Figure>() -> bool {
    &&& forall|a: F, b: F| #[trigger] a.no_later(b) || b.no_later(a)
    &&& forall|a: F, b: F, c: F| #[trigger]
        a.no_later(b) && #[trigger] b.no_later(c) ==> a.no_later(c)
}

/// Ratios are ordered as numbers are, and stand in one order.
pub proof fn law_ratios_are_ordered()
    ensures
        ordered_as_numbers::<Ratio>(),
        stand_in_order::<Ratio>(),
{
}

/// A ratio of two amounts, scaled to a hundred-millionth, is their quotient
/// cut toward nought.
pub proof fn law_a_ratio_is_the_quotient(num: i64, den: i64)
    requires
        num >= 0,
        den > 0,
        num * 100_000_000 <= den * i64::MAX,
    ensures
        ({
            let r = <Ratio as Figure>::quotient_of(num, den).0;
            r * den <= num * 100_000_000 < (r + 1) * den
        }),
{
    let n = num * 100_000_000;
    let d = den as int;
    let q = n / d;
    assert(q * d <= n < (q + 1) * d) by (nonlinear_arith)
        requires
            q == n / d,
            d > 0,
    ;
    assert(0 <= q <= i64::MAX) by (nonlinear_arith)
        requires
            q * d <= n,
            n < (q + 1) * d,
            0 <= n <= d * i64::MAX,
            d > 0,
    ;
}

/// A nearest rank of ratios: the smallest whole place that is at least the
/// share `q` of `n` samples.
pub proof fn law_a_rank_covers_its_share(q: Ratio, n: usize)
    requires
        0 <= q.0 <= 100_000_000,
    ensures
        ({
            let place = q.place_among(n);
            &&& 0 <= place <= n
            &&& (place - 1) * 100_000_000 < q.0 * n <= place * 100_000_000
        }),
{
    let x = q.0 * n;
    assert(0 <= x <= 100_000_000 * n) by (nonlinear_arith)
        requires
            x == q.0 * n,
            0 <= q.0 <= 100_000_000,
            n >= 0,
    ;
}

} // verus!
