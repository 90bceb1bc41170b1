//! Whether a run's result is worth acting on.
//!
//! A replay stops being one once the strategy would have moved the market it
//! is replaying. So the report carries the share of volume taken, overall and
//! at its peak, and the flag is on the peak: a fifth of a percent of a day can
//! be forty percent of one minute. What the tier does not model is written
//! down rather than left blank.
use crate::backtest::figure::{
    amount_text, nought, ordered_as_numbers, put_amount, zero, Figure,
};
use crate::backtest::run::{MarginUsage, RunResult};
use crate::engine::tick::Tick;
use crate::text::{decimal, put, put_digits};
use crate::types::{clamp_i64, sat_sub, saturate, Fill, Liquidity, QtyLots};
use vstd::prelude::*;

verus! {

/// The share of market volume a run took.
#[derive(Clone, Copy, Debug, PartialEq)]
pub enum Participation<F> {
    /// Measured.
    Measured {
        /// Traded volume divided by market volume, over the whole run.
        overall: F,
        /// The largest share taken in any single window.
        peak: F,
        /// Index of the window the peak occurred in.
        peak_window: usize,
        /// Ticks per window.
        window: usize,
    },
    /// The tick series does not carry usable volume.
    Unmeasurable(&'static str),
}

impl<F: Figure> Participation<F> {
    pub open spec fn spec_peak(self) -> Option<F> {
        match self {
            Participation::Measured { peak, .. } => Some(peak),
            Participation::Unmeasurable(_) => None,
        }
    }

    /// The peak, when it was measured.
    pub fn peak(&self) -> (r: Option<F>)
        ensures
            r == self.spec_peak(),
    {
        match self {
            Participation::Measured { peak, .. } => Some(*peak),
            Participation::Unmeasurable(_) => None,
        }
    }
}

/// What the run assumed about the things its tier does not model.
#[derive(Clone, Copy, Debug, PartialEq, Eq)]
pub struct Assumptions {
    /// What the matcher assumed about latency.
    pub latency: &'static str,
    /// What it assumed about market impact.
    pub impact: &'static str,
}

impl Assumptions {
    /// L0's assumptions, which are that neither exists.
    pub fn l0() -> (r: Self)
        ensures
            r.latency@
                == "none modelled: an order matches against the observation that triggered it, with no delay"@,
            r.impact@ == "none modelled: fills do not move the price, at any size"@,
    {
        Assumptions {
            latency: "none modelled: an order matches against the observation that triggered it, with no delay",
            impact: "none modelled: fills do not move the price, at any size",
        }
    }
}

/// The fidelity report.
#[derive(Debug, PartialEq)]
pub struct FidelityReport<F> {
    /// The tier the run used.
    pub tier: &'static str,
    /// Share of market volume taken.
    pub participation: Participation<F>,
    /// The threshold the flag is set against.
    pub threshold: F,
    /// Fills that took liquidity, and fills that made it.
    pub taker_maker: (usize, usize),
    /// What the tier assumed about what it does not model.
    pub assumptions: Assumptions,
    /// How close the account came to liquidation.
    pub margin_usage: MarginUsage,
    /// Times the venue closed the account.
    pub liquidations: usize,
}

impl<F: Copy> Clone for FidelityReport<F> {
    fn clone(&self) -> (r: Self)
        ensures
            r == *self,
    {
        FidelityReport {
            tier: self.tier,
            participation: self.participation,
            threshold: self.threshold,
            taker_maker: (self.taker_maker.0, self.taker_maker.1),
            assumptions: self.assumptions,
            margin_usage: self.margin_usage,
            liquidations: self.liquidations,
        }
    }
}

/// One line of text.
pub open spec fn line(text: Seq<char>) -> Seq<char> {
    text.push('\n')
}

impl<F: Figure> FidelityReport<F> {
    pub open spec fn invalidated(&self) -> bool {
        self.participation.spec_peak() matches Some(p) && p.above(self.threshold)
    }

    /// Whether the run's participation makes its result unusable.
    pub fn participation_invalidates(&self) -> (r: bool)
        ensures
            r == self.invalidated(),
    {
        match self.participation.peak() {
            Some(p) => p.exceeds(self.threshold),
            None => false,
        }
    }

    pub open spec fn spec_maker_share(&self) -> Option<F> {
        let total = self.taker_maker.0 + self.taker_maker.1;
        if total > 0 {
            Some(F::quotient_of(clamp_i64(self.taker_maker.1 as int), clamp_i64(total)))
        } else {
            None
        }
    }

    /// Maker share of fills, or `None` when there were none.
    pub fn maker_share(&self) -> (r: Option<F>)
        ensures
            r == self.spec_maker_share(),
    {
        let (taker, maker) = self.taker_maker;
        let total: i128 = taker as i128 + maker as i128;
        if total > 0 {
            Some(F::ratio(saturate(maker as i128), saturate(total)))
        } else {
            None
        }
    }

    pub open spec fn participation_text(&self) -> Seq<char> {
        match self.participation {
            Participation::Measured { overall, peak, peak_window, window } => line(
                "  participation   "@ + overall.in_percent().fixed_text(4) + "% overall, peak "@
                    + peak.in_percent().fixed_text(4) + "% in window "@ + decimal(
                    peak_window as int,
                ) + " ("@ + decimal(window as int) + " ticks)"@,
            ) + if self.invalidated() {
                line(
                    "                  OVER THRESHOLD ("@
                        + self.threshold.in_percent().fixed_text(2)
                        + "%): this run replayed a market it would\n                  have moved, so its result describes something that could not\n                  have happened. The peak is what invalidates it, not the average."@,
                )
            } else {
                Seq::empty()
            },
            Participation::Unmeasurable(why) => line(
                "  participation   NOT MEASURABLE — "@ + why@,
            ) + line(
                "                  This decides whether the run is valid, so a missing figure\n                  is not a passing one."@,
            ),
        }
    }

    pub open spec fn fills_text(&self) -> Seq<char> {
        match self.spec_maker_share() {
            Some(share) => line(
                "  maker/taker     "@ + decimal(self.taker_maker.1 as int) + " maker, "@ + decimal(
                    self.taker_maker.0 as int,
                ) + " taker ("@ + share.in_percent().fixed_text(1) + "% maker)"@,
            ),
            None => line("  maker/taker     no fills"@),
        }
    }

    pub open spec fn margin_text(&self) -> Seq<char> {
        match self.margin_usage {
            MarginUsage::NotTracked => line(
                "  margin          not tracked — pass RunConfig::tracking_margin() to measure it"@,
            ),
            MarginUsage::NoPosition => line("  margin          no position was ever open"@),
            MarginUsage::Measured { peak_maintenance, min_headroom } => line(
                "  margin          peak requirement "@ + amount_text::<F>(peak_maintenance)
                    + ", closest approach "@ + amount_text::<F>(min_headroom),
            ) + if min_headroom.0 <= 0 {
                line("                  the account reached or passed the line"@)
            } else {
                Seq::empty()
            },
        }
    }

    pub open spec fn text(&self) -> Seq<char> {
        line("fidelity report   tier "@ + self.tier@) + self.participation_text()
            + self.fills_text() + line("  latency         "@ + self.assumptions.latency@) + line(
            "  impact          "@ + self.assumptions.impact@,
        ) + self.margin_text() + if self.liquidations > 0 {
            line("  LIQUIDATED      "@ + decimal(self.liquidations as int) + "x"@)
        } else {
            Seq::empty()
        }
    }

    fn put_participation(&self, out: &mut String)
        ensures
            final(out)@ == old(out)@ + self.participation_text(),
    {
        let ghost start = out@;
        match self.participation {
            Participation::Measured { overall, peak, peak_window, window } => {
                put(out, "  participation   ");
                put(out, overall.percent().to_fixed(4).as_str());
                put(out, "% overall, peak ");
                put(out, peak.percent().to_fixed(4).as_str());
                put(out, "% in window ");
                put_digits(out, peak_window as u64);
                put(out, " (");
                put_digits(out, window as u64);
                put(out, " ticks)");
                out.push('\n');
                if self.participation_invalidates() {
                    put(out, "                  OVER THRESHOLD (");
                    put(out, self.threshold.percent().to_fixed(2).as_str());
                    put(
                        out,
                        "%): this run replayed a market it would\n                  have moved, so its result describes something that could not\n                  have happened. The peak is what invalidates it, not the average.",
                    );
                    out.push('\n');
                }
            },
            Participation::Unmeasurable(why) => {
                put(out, "  participation   NOT MEASURABLE — ");
                put(out, why);
                out.push('\n');
                put(
                    out,
                    "                  This decides whether the run is valid, so a missing figure\n                  is not a passing one.",
                );
                out.push('\n');
            },
        }
        assert(out@ =~= start + self.participation_text());
    }

    fn put_fills(&self, out: &mut String)
        ensures
            final(out)@ == old(out)@ + self.fills_text(),
    {
        let ghost start = out@;
        match self.maker_share() {
            Some(share) => {
                put(out, "  maker/taker     ");
                put_digits(out, self.taker_maker.1 as u64);
                put(out, " maker, ");
                put_digits(out, self.taker_maker.0 as u64);
                put(out, " taker (");
                put(out, share.percent().to_fixed(1).as_str());
                put(out, "% maker)");
            },
            None => {
                put(out, "  maker/taker     no fills");
            },
        }
        out.push('\n');
        assert(out@ =~= start + self.fills_text());
    }

    fn put_margin(&self, out: &mut String)
        ensures
            final(out)@ == old(out)@ + self.margin_text(),
    {
        let ghost start = out@;
        match self.margin_usage {
            MarginUsage::NotTracked => {
                put(
                    out,
                    "  margin          not tracked — pass RunConfig::tracking_margin() to measure it",
                );
                out.push('\n');
            },
            MarginUsage::NoPosition => {
                put(out, "  margin          no position was ever open");
                out.push('\n');
            },
            MarginUsage::Measured { peak_maintenance, min_headroom } => {
                put(out, "  margin          peak requirement ");
                put_amount::<F>(out, peak_maintenance);
                put(out, ", closest approach ");
                put_amount::<F>(out, min_headroom);
                out.push('\n');
                if min_headroom.0 <= 0 {
                    put(out, "                  the account reached or passed the line");
                    out.push('\n');
                }
            },
        }
        assert(out@ =~= start + self.margin_text());
    }

    /// The report, as text.
    pub fn render(&self) -> (r: String)
        ensures
            r@ == self.text(),
    {
        let mut out = "fidelity report   tier ".to_owned();
        put(&mut out, self.tier);
        out.push('\n');
        self.put_participation(&mut out);
        self.put_fills(&mut out);
        put(&mut out, "  latency         ");
        put(&mut out, self.assumptions.latency);
        out.push('\n');
        put(&mut out, "  impact          ");
        put(&mut out, self.assumptions.impact);
        out.push('\n');
        self.put_margin(&mut out);
        if self.liquidations > 0 {
            put(&mut out, "  LIQUIDATED      ");
            put_digits(&mut out, self.liquidations as u64);
            put(&mut out, "x");
            out.push('\n');
        }
        assert(out@ =~= self.text());
        out
    }
}

/// The default threshold: one percent of a window's volume.
pub fn default_threshold<F: Figure>() -> (r: F)
    ensures
        r == F::quotient_of(1, 100),
{
    F::ratio(1, 100)
}

/// How many fills took liquidity.
pub open spec fn takers(fills: Seq<Fill>) -> nat
    decreases fills.len(),
{
    if fills.len() == 0 {
        0
    } else {
        takers(fills.drop_last()) + if fills.last().liquidity == Liquidity::Taker {
            1nat
        } else {
            0
        }
    }
}

/// The quantity of the fills stamped between two instants, both included.
pub open spec fn traded_between(fills: Seq<Fill>, from: i64, to: i64) -> int
    decreases fills.len(),
{
    if fills.len() == 0 {
        0
    } else {
        traded_between(fills.drop_last(), from, to) + if from <= fills.last().stamp.exch.0 <= to {
            fills.last().qty.0 as int
        } else {
            0
        }
    }
}

/// The quantity of fills.
pub open spec fn traded(fills: Seq<Fill>) -> int
    decreases fills.len(),
{
    if fills.len() == 0 {
        0
    } else {
        traded(fills.drop_last()) + fills.last().qty.0
    }
}

/// Whether cumulative volume never goes backwards.
pub open spec fn cumulative(ticks: Seq<Tick>) -> bool {
    forall|i: int|
        0 <= i && i + 1 < ticks.len() ==> (#[trigger] ticks[i]).volume.0 <= ticks[i + 1].volume.0
}

/// Market volume between two ticks.
pub open spec fn elapsed(ticks: Seq<Tick>, first: int, last: int) -> i64 {
    clamp_i64(ticks[last].volume.0 - ticks[first].volume.0)
}

/// Where a window ends.
pub open spec fn window_end(n: int, window: int, w: int) -> int {
    if w * window + window < n {
        w * window + window
    } else {
        n
    }
}

/// The share of a window's volume that fills took, where the window spans any.
pub open spec fn window_share<F: Figure>(
    fills: Seq<Fill>,
    ticks: Seq<Tick>,
    window: int,
    w: int,
) -> Option<F> {
    let start = w * window;
    let end = window_end(ticks.len() as int, window, w);
    let market = elapsed(ticks, start, end - 1);
    if end - start < 2 || market <= 0 {
        None
    } else {
        Some(
            F::quotient_of(
                clamp_i64(
                    traded_between(
                        fills,
                        ticks[start].stamp.exch.0,
                        ticks[end - 1].stamp.exch.0,
                    ),
                ),
                market,
            ),
        )
    }
}

/// The largest share among the first `n` windows, and the first window it
/// occurred in.
pub open spec fn peak_of<F: Figure>(
    fills: Seq<Fill>,
    ticks: Seq<Tick>,
    window: int,
    n: nat,
) -> (F, int)
    decreases n,
{
    if n == 0 {
        (nought(), 0)
    } else {
        let before = peak_of::<F>(fills, ticks, window, (n - 1) as nat);
        match window_share::<F>(fills, ticks, window, n - 1) {
            Some(share) => if share.above(before.0) {
                (share, n - 1)
            } else {
                before
            },
            None => before,
        }
    }
}

/// How many windows a series is cut into.
pub open spec fn window_count(n: int, window: int) -> int {
    (n + window - 1) / window
}

/// Why a share of volume is not defined, if it is not.
pub open spec fn unmeasurable(ticks: Seq<Tick>, window: usize) -> Option<Seq<char>> {
    if window == 0 {
        Some("a window of zero ticks spans no market"@)
    } else if ticks.len() < 2 {
        Some("fewer than two observations, so no volume elapsed"@)
    } else if !cumulative(ticks) {
        Some(
            "cumulative volume decreases somewhere in the series, so a share of it is not defined"@,
        )
    } else if elapsed(ticks, 0, ticks.len() - 1) <= 0 {
        Some("no market volume elapsed over the run"@)
    } else {
        None
    }
}

impl<F: Figure> Participation<F> {
    /// Whether this is the share of volume that fills took.
    pub open spec fn measures(self, fills: Seq<Fill>, ticks: Seq<Tick>, ticks_per: usize) -> bool {
        match self {
            Participation::Unmeasurable(why) => unmeasurable(ticks, ticks_per) == Some(why@),
            Participation::Measured { overall, peak, peak_window, window } => {
                let n = window_count(ticks.len() as int, ticks_per as int) as nat;
                &&& unmeasurable(ticks, ticks_per) is None
                &&& overall == F::quotient_of(
                    clamp_i64(traded(fills)),
                    elapsed(ticks, 0, ticks.len() - 1),
                )
                &&& (peak, peak_window as int) == peak_of::<F>(fills, ticks, ticks_per as int, n)
                &&& window == ticks_per
            },
        }
    }
}

/// Build the fidelity report for a run. `window` is how many ticks a
/// participation window spans; the peak across windows is what the flag is set
/// against.
pub fn report<F: Figure>(result: &RunResult, ticks: &[Tick], window: usize, threshold: F) -> (r:
    FidelityReport<F>)
    ensures
        r.tier@ == "L0"@,
        r.participation.measures(result.fills@, ticks@, window),
        r.threshold == threshold,
        r.taker_maker.0 == takers(result.fills@),
        r.taker_maker.1 == result.fills@.len() - takers(result.fills@),
        r.assumptions.latency@
            == "none modelled: an order matches against the observation that triggered it, with no delay"@,
        r.assumptions.impact@ == "none modelled: fills do not move the price, at any size"@,
        r.margin_usage == result.margin_usage,
        r.liquidations == result.liquidations@.len(),
{
    FidelityReport {
        tier: "L0",
        participation: participation(&result.fills, ticks, window),
        threshold,
        taker_maker: split(&result.fills),
        assumptions: Assumptions::l0(),
        margin_usage: result.margin_usage,
        liquidations: result.liquidations.len(),
    }
}

/// Fills that took liquidity, and fills that made it.
fn split(fills: &Vec<Fill>) -> (r: (usize, usize))
    ensures
        r.0 == takers(fills@),
        r.1 == fills@.len() - takers(fills@),
{
    let mut taker: usize = 0;
    let mut i: usize = 0;
    assert(fills@.subrange(0, 0) =~= Seq::<Fill>::empty());
    while i < fills.len()
        invariant
            i <= fills@.len(),
            taker <= i,
            taker == takers(fills@.subrange(0, i as int)),
        decreases fills@.len() - i,
    {
        proof {
            let now = fills@.subrange(0, i + 1);
            assert(now.drop_last() =~= fills@.subrange(0, i as int));
            assert(now.last() == fills@[i as int]);
        }
        if fills[i].liquidity == Liquidity::Taker {
            taker += 1;
        }
        i += 1;
    }
    assert(fills@.subrange(0, i as int) =~= fills@);
    (taker, fills.len() - taker)
}

fn add_between(fills: &Vec<Fill>, from: i64, to: i64) -> (r: i64)
    ensures
        r == clamp_i64(traded_between(fills@, from, to)),
{
    let mut sum: i128 = 0;
    let mut i: usize = 0;
    assert(fills@.subrange(0, 0) =~= Seq::<Fill>::empty());
    while i < fills.len()
        invariant
            i <= fills@.len(),
            sum == traded_between(fills@.subrange(0, i as int), from, to),
            -0x8000_0000_0000_0000 * i <= sum <= 0x8000_0000_0000_0000 * i,
        decreases fills@.len() - i,
    {
        proof {
            let now = fills@.subrange(0, i + 1);
            assert(now.drop_last() =~= fills@.subrange(0, i as int));
            assert(now.last() == fills@[i as int]);
        }
        let at: i64 = fills[i].stamp.exch.0;
        if from <= at && at <= to {
            sum = sum + fills[i].qty.0 as i128;
        }
        i += 1;
    }
    assert(fills@.subrange(0, i as int) =~= fills@);
    saturate(sum)
}

/// Total quantity traded, for a caller that wants it directly.
pub fn traded_volume(fills: &Vec<Fill>) -> (r: QtyLots)
    ensures
        r.0 == clamp_i64(traded(fills@)),
{
    let mut sum: i128 = 0;
    let mut i: usize = 0;
    assert(fills@.subrange(0, 0) =~= Seq::<Fill>::empty());
    while i < fills.len()
        invariant
            i <= fills@.len(),
            sum == traded(fills@.subrange(0, i as int)),
            -0x8000_0000_0000_0000 * i <= sum <= 0x8000_0000_0000_0000 * i,
        decreases fills@.len() - i,
    {
        proof {
            let now = fills@.subrange(0, i + 1);
            assert(now.drop_last() =~= fills@.subrange(0, i as int));
            assert(now.last() == fills@[i as int]);
        }
        sum = sum + fills[i].qty.0 as i128;
        i += 1;
    }
    assert(fills@.subrange(0, i as int) =~= fills@);
    QtyLots(saturate(sum))
}

fn is_cumulative(ticks: &[Tick]) -> (r: bool)
    ensures
        r == cumulative(ticks@),
{
    let n: usize = ticks.len();
    let mut i: usize = 1;
    while i < n
        invariant
            1 <= i,
            n == ticks@.len(),
            forall|k: int|
                0 <= k && k + 1 < i && k + 1 < n ==> (#[trigger] ticks@[k]).volume.0 <= ticks@[k
                    + 1].volume.0,
        decreases n - i,
    {
        if ticks[i].volume.0 < ticks[i - 1].volume.0 {
            assert(ticks@[i - 1].volume.0 > ticks@[i - 1 + 1].volume.0);
            return false;
        }
        i += 1;
    }
    true
}

/// Traded volume against market volume, overall and per window. Fills are put
/// in windows by their times, so a window's traded volume is that of the fills
/// that happened inside it.
pub fn participation<F: Figure>(fills: &Vec<Fill>, ticks: &[Tick], window: usize) -> (r:
    Participation<F>)
    ensures
        r.measures(fills@, ticks@, window),
{
    let n: usize = ticks.len();
    if window == 0 {
        return Participation::Unmeasurable("a window of zero ticks spans no market");
    }
    if n < 2 {
        return Participation::Unmeasurable("fewer than two observations, so no volume elapsed");
    }
    if !is_cumulative(ticks) {
        return Participation::Unmeasurable(
            "cumulative volume decreases somewhere in the series, so a share of it is not defined",
        );
    }
    let market_total: i64 = sat_sub(ticks[n - 1].volume.0, ticks[0].volume.0);
    if market_total <= 0 {
        return Participation::Unmeasurable("no market volume elapsed over the run");
    }
    let ghost count = window_count(n as int, window as int);
    let mut peak: F = zero();
    let mut peak_window: usize = 0;
    let mut w: usize = 0;
    let mut start: usize = 0;
    proof {
        assert(0 * window as int == 0) by (nonlinear_arith);
    }
    while start < n
        invariant
            n == ticks@.len(),
            n >= 2,
            window > 0,
            w <= n,
            w as int * window as int >= 0,
            start as int == (if n >= w as int * window as int {
                w as int * window as int
            } else {
                n as int
            }),
            start < n ==> start as int == w as int * window as int,
            w as int <= start as int,
            w as int * window as int >= n ==> n > (w as int - 1) * window as int,
            (peak, peak_window as int) == peak_of::<F>(fills@, ticks@, window as int, w as nat),
        decreases n - start,
    {
        let end: usize = if window < n - start {
            start + window
        } else {
            n
        };
        proof {
            let x = w as int * window as int;
            assert((w as int + 1) * window as int == x + window as int) by (nonlinear_arith)
                requires
                    x == w as int * window as int,
            ;
            assert(end as int == window_end(n as int, window as int, w as int));
        }
        if end - start >= 2 {
            let market: i64 = sat_sub(ticks[end - 1].volume.0, ticks[start].volume.0);
            if market > 0 {
                let from: i64 = ticks[start].stamp.exch.0;
                let to: i64 = ticks[end - 1].stamp.exch.0;
                let share: F = F::ratio(add_between(fills, from, to), market);
                if share.exceeds(peak) {
                    peak = share;
                    peak_window = w;
                }
            }
        }
        w = w + 1;
        start = end;
    }
    proof {
        lemma_window_count(n as int, window as int, w as int);
    }
    Participation::Measured {
        overall: F::ratio(traded_volume(fills).0, market_total),
        peak,
        peak_window,
        window,
    }
}

proof fn lemma_window_count(n: int, window: int, w: int)
    requires
        n > 0,
        window > 0,
        w * window >= n,
        (w - 1) * window < n,
    ensures
        w == window_count(n, window),
{
    assert(w == (n + window - 1) / window) by (nonlinear_arith)
        requires
            n > 0,
            window > 0,
            w * window >= n,
            (w - 1) * window < n,
    ;
}

/// A missing figure is not a passing one, but it is not a failing one either:
/// only a peak that was measured can invalidate a run.
pub proof fn law_only_a_measured_peak_invalidates<F: Figure>(r: FidelityReport<F>)
    ensures
        r.participation is Unmeasurable ==> !r.invalidated(),
        r.invalidated() ==> r.participation is Measured,
{
}

/// The peak is no window's but one of the run's, or nought where no window took
/// a share above it.
pub proof fn law_the_peak_is_some_window<F: Figure>(
    fills: Seq<Fill>,
    ticks: Seq<Tick>,
    window: int,
    n: nat,
)
    ensures
        ({
            let (peak, at) = peak_of::<F>(fills, ticks, window, n);
            ||| peak == nought::<F>() && at == 0
            ||| 0 <= at < n && window_share::<F>(fills, ticks, window, at) == Some(peak)
        }),
    decreases n,
{
    if n > 0 {
        law_the_peak_is_some_window::<F>(fills, ticks, window, (n - 1) as nat);
    }
}

/// The peak is an upper bound: no window's share is above it.
pub proof fn law_the_peak_bounds_every_window<F: Figure>(
    fills: Seq<Fill>,
    ticks: Seq<Tick>,
    window: int,
    n: nat,
    w: int,
)
    requires
        ordered_as_numbers::<F>(),
        0 <= w < n,
    ensures
        window_share::<F>(fills, ticks, window, w) matches Some(share) ==> !share.above(
            peak_of::<F>(fills, ticks, window, n).0,
        ),
    decreases n,
{
    if w < n - 1 {
        law_the_peak_bounds_every_window::<F>(fills, ticks, window, (n - 1) as nat, w);
    }
}

/// The peak is never below nought.
pub proof fn law_the_peak_is_not_below_nought<F: Figure>(
    fills: Seq<Fill>,
    ticks: Seq<Tick>,
    window: int,
    n: nat,
)
    requires
        ordered_as_numbers::<F>(),
    ensures
        !nought::<F>().above(peak_of::<F>(fills, ticks, window, n).0),
    decreases n,
{
    if n > 0 {
        law_the_peak_is_not_below_nought::<F>(fills, ticks, window, (n - 1) as nat);
    }
}

/// The first tick of a window, and the one behind its last.
pub open spec fn window_ticks(n: int, window: int, w: int) -> (int, int) {
    let end = (w + 1) * window;
    (w * window, if end < n {
        end
    } else {
        n
    })
}

/// A run is invalidated whenever any single window took more than the
/// threshold of its volume: the traded quantity stamped between the window's
/// first tick and its last, over what the volume counter rose by between the
/// two.
pub proof fn law_one_window_over_the_threshold_invalidates<F: Figure>(
    r: FidelityReport<F>,
    fills: Seq<Fill>,
    ticks: Seq<Tick>,
    window: usize,
    w: int,
    took: i64,
    market: i64,
)
    requires
        ordered_as_numbers::<F>(),
        r.participation.measures(fills, ticks, window),
        r.participation is Measured,
        r.participation->peak.is_number(),
        0 <= w,
        ({
            let (start, end) = window_ticks(ticks.len() as int, window as int, w);
            &&& start + 1 < end
            &&& market == ticks[end - 1].volume.0 - ticks[start].volume.0
            &&& market > 0
            &&& took == traded_between(
                fills,
                ticks[start].stamp.exch.0,
                ticks[end - 1].stamp.exch.0,
            )
            &&& F::quotient_of(took, market).above(r.threshold)
        }),
    ensures
        r.invalidated(),
{
    let n = ticks.len() as int;
    let per = window as int;
    let (start, end) = window_ticks(n, per, w);
    assert((w + 1) * per == w * per + per) by (nonlinear_arith);
    let count = window_count(n, per);
    assert(w < count) by (nonlinear_arith)
        requires
            w * per < n,
            per > 0,
            count == (n + per - 1) / per,
    ;
    assert(window_end(n, per, w) == end);
    assert(window_share::<F>(fills, ticks, per, w) == Some(F::quotient_of(took, market)));
    law_the_peak_bounds_every_window::<F>(fills, ticks, per, count as nat, w);
    let share = F::quotient_of(took, market);
    let peak = r.participation->peak;
    assert(peak.is_number());
    assert(share.above(peak) || peak.above(r.threshold));
}

/// The windows cut a series without a gap: every tick stands in one of them.
pub proof fn law_every_tick_stands_in_a_window(n: int, window: int, t: int)
    requires
        window > 0,
        0 <= t < n,
    ensures
        0 <= t / window < window_count(n, window),
        (t / window) * window <= t < window_end(n, window, t / window),
{
    let w = t / window;
    assert(w * window <= t < w * window + window && w >= 0) by (nonlinear_arith)
        requires
            w == t / window,
            window > 0,
            t >= 0,
    ;
    let count = window_count(n, window);
    assert(w < count) by (nonlinear_arith)
        requires
            w * window <= t,
            t < n,
            window > 0,
            count == (n + window - 1) / window,
    ;
}

/// A fill counts toward an interval exactly where it is stamped inside it,
/// both ends included, with its quantity, and wherever it stands in the list.
pub proof fn law_a_fill_counts_where_it_is_stamped(
    fills: Seq<Fill>,
    at: int,
    f: Fill,
    from: i64,
    to: i64,
)
    requires
        0 <= at <= fills.len(),
    ensures
        traded_between(Seq::empty(), from, to) == 0,
        from <= f.stamp.exch.0 <= to ==> traded_between(fills.insert(at, f), from, to)
            == traded_between(fills, from, to) + f.qty.0,
        !(from <= f.stamp.exch.0 <= to) ==> traded_between(fills.insert(at, f), from, to)
            == traded_between(fills, from, to),
        traded(Seq::empty()) == 0,
        traded(fills.insert(at, f)) == traded(fills) + f.qty.0,
        takers(Seq::empty()) == 0,
        f.liquidity == Liquidity::Taker ==> takers(fills.insert(at, f)) == takers(fills) + 1,
        f.liquidity == Liquidity::Maker ==> takers(fills.insert(at, f)) == takers(fills),
    decreases fills.len(),
{
    let more = fills.insert(at, f);
    if at == fills.len() {
        assert(more.drop_last() =~= fills);
    } else {
        assert(more.last() == fills.last());
        assert(more.drop_last() =~= fills.drop_last().insert(at, f));
        law_a_fill_counts_where_it_is_stamped(fills.drop_last(), at, f, from, to);
    }
}

/// A share that was measured is a share of volume that only ever grew: the
/// counter never went backwards between any two ticks, and it did rise.
pub proof fn law_a_measured_share_is_of_rising_volume<F: Figure>(
    p: Participation<F>,
    fills: Seq<Fill>,
    ticks: Seq<Tick>,
    window: usize,
    i: int,
    j: int,
)
    requires
        p.measures(fills, ticks, window),
        p is Measured,
        0 <= i <= j < ticks.len(),
    ensures
        window > 0,
        ticks[i].volume.0 <= ticks[j].volume.0,
        ticks[0].volume.0 < ticks[ticks.len() - 1].volume.0,
    decreases j - i,
{
    if i < j {
        law_a_measured_share_is_of_rising_volume(p, fills, ticks, window, i, j - 1);
        assert(ticks[j - 1].volume.0 <= ticks[j - 1 + 1].volume.0);
    }
}

/// A run whose volume counter rises, over at least two ticks and a window of
/// at least one, is measured; and its overall share is all that was traded
/// over all that the counter rose by.
pub proof fn law_rising_volume_is_measured<F: Figure>(
    p: Participation<F>,
    fills: Seq<Fill>,
    ticks: Seq<Tick>,
    window: usize,
    took: i64,
    market: i64,
)
    requires
        p.measures(fills, ticks, window),
        window > 0,
        ticks.len() >= 2,
        forall|i: int, j: int|
            0 <= i < j < ticks.len() ==> (#[trigger] ticks[i]).volume.0 <= (
            #[trigger] ticks[j]).volume.0,
        market == ticks[ticks.len() - 1].volume.0 - ticks[0].volume.0,
        market > 0,
        took == traded(fills),
    ensures
        p is Measured,
        p->overall == F::quotient_of(took, market),
        p->window == window,
{
    assert(cumulative(ticks));
    assert(unmeasurable(ticks, window) is None);
}

/// The maker share is the fills that made liquidity over all fills; there is
/// none where there were no fills.
pub proof fn law_the_maker_share_is_of_all_fills<F: Figure>(r: FidelityReport<F>)
    requires
        r.taker_maker.0 + r.taker_maker.1 <= i64::MAX,
    ensures
        r.taker_maker.0 + r.taker_maker.1 == 0 ==> r.spec_maker_share() is None,
        r.taker_maker.0 + r.taker_maker.1 > 0 ==> r.spec_maker_share() == Some(
            F::quotient_of(
                r.taker_maker.1 as i64,
                (r.taker_maker.0 + r.taker_maker.1) as i64,
            ),
        ),
{
}

/// Of windows that share the peak the first is named: every window before it
/// took less.
pub proof fn law_the_peak_names_its_first_window<F: Figure>(
    fills: Seq<Fill>,
    ticks: Seq<Tick>,
    window: int,
    n: nat,
    w: int,
)
    requires
        ordered_as_numbers::<F>(),
        0 <= w < peak_of::<F>(fills, ticks, window, n).1,
    ensures
        window_share::<F>(fills, ticks, window, w) matches Some(share) ==> share.is_number()
            ==> peak_of::<F>(fills, ticks, window, n).0.above(share),
    decreases n,
{
    if n > 0 {
        let before = peak_of::<F>(fills, ticks, window, (n - 1) as nat);
        let now = peak_of::<F>(fills, ticks, window, n);
        if now.1 == before.1 && now.0 == before.0 {
            law_the_peak_names_its_first_window::<F>(fills, ticks, window, (n - 1) as nat, w);
        } else if let Some(share) = window_share::<F>(fills, ticks, window, w) {
            law_the_peak_bounds_every_window::<F>(fills, ticks, window, (n - 1) as nat, w);
            if share.is_number() {
                assert(now.0.above(before.0));
                assert(now.0.above(share) || share.above(before.0));
            }
        }
    }
}

} // verus!
