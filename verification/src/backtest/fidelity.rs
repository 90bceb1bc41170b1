//! What a backtest without a margin model is worth.
//!
//! The two arms of a run are the same until the first liquidation; after it,
//! one describes a closed account and the other a position nobody could have
//! held. So the difference is not a level shift: it is zero everywhere and
//! then very large in a few places, and it is read from the quantiles of the
//! returns rather than from their mean.
use crate::backtest::figure::{nought, stand_in_order, sum, sum_of, zero, Figure};
use crate::backtest::run::RunResult;
use crate::backtest::sweep::{returns_of, simple_returns};
use crate::sorting::{
    law_ordered_is_in_order, law_ordered_keeps_elements, lemma_ordered_len, lemma_rank_is, ordered,
};
use crate::text::{copy_text, decimal, put, put_digits};
use crate::types::{clamp_i64, quotient, sat_sub, Cash, Ratio};
use vstd::prelude::*;

verus! {

/// One arm of the comparison, reduced to what the report needs.
#[derive(Clone, Debug, PartialEq)]
pub struct Arm<F> {
    /// Equity at the end of the run.
    pub final_equity: Cash,
    /// The lowest equity the account ever showed.
    pub min_equity: Cash,
    /// How many times the venue closed the account.
    pub liquidations: usize,
    /// Sampled returns, from the equity curve.
    pub returns: Vec<F>,
}

impl<F: Figure> Arm<F> {
    /// Whether this is a run reduced.
    pub open spec fn is_of(&self, r: RunResult) -> bool {
        &&& self.final_equity == r.final_equity
        &&& self.min_equity == r.min_equity
        &&& self.liquidations == r.liquidations@.len()
        &&& self.returns@ == returns_of::<F>(r.equity_curve@)
    }

    pub fn of(r: &RunResult) -> (a: Self)
        ensures
            a.is_of(*r),
    {
        Arm {
            final_equity: r.final_equity,
            min_equity: r.min_equity,
            liquidations: r.liquidations.len(),
            returns: simple_returns(r.equity_curve.as_slice()),
        }
    }
}

/// One quantile of both return distributions.
#[derive(Clone, Copy, Debug, PartialEq)]
pub struct TailPoint<F> {
    /// The quantile, between nought and one.
    pub q: F,
    /// The quantile of the enforced arm's returns.
    pub enforced: F,
    /// The quantile of the ignored arm's returns.
    pub ignored: F,
}

impl<F: Figure> TailPoint<F> {
    pub open spec fn gap(self) -> F {
        self.ignored.less(self.enforced)
    }

    /// How much better the margin-free arm looks at this quantile.
    pub fn overstatement(&self) -> (r: F)
        ensures
            r == self.gap(),
    {
        self.ignored.minus(self.enforced)
    }
}

/// Why a comparison could not be made.
#[derive(Clone, Copy, Debug, PartialEq, Eq, Structural)]
pub enum Unusable {
    /// Neither run sampled its equity.
    NoEquityCurve,
    /// There are too few samples to take a quantile of.
    TooFewSamples { have: usize, need: usize },
    /// A window's return has no denominator.
    NoStartingBalance,
    /// The two runs did not see the same ticks.
    DifferentRuns { enforced: usize, ignored: usize },
}

impl Unusable {
    pub open spec fn text(self) -> Seq<char> {
        match self {
            Unusable::NoEquityCurve =>
            "neither run sampled equity; set RunConfig::equity_every above zero"@,
            Unusable::TooFewSamples { have, need } => decimal(have as int)
                + " paired return samples cannot support a quantile needing "@ + decimal(
                need as int,
            ),
            Unusable::NoStartingBalance =>
            "a window return needs a positive starting balance to divide by"@,
            Unusable::DifferentRuns { enforced, ignored } => "the arms saw different ticks ("@
                + decimal(enforced as int) + " vs "@ + decimal(ignored as int)
                + "); they are not two arms of one experiment"@,
        }
    }

    /// The reason in words.
    pub fn to_text(&self) -> (r: String)
        ensures
            r@ == self.text(),
    {
        match *self {
            Unusable::NoEquityCurve =>
            "neither run sampled equity; set RunConfig::equity_every above zero".to_owned(),
            Unusable::TooFewSamples { have, need } => {
                let mut out = String::new();
                put_digits(&mut out, have as u64);
                put(&mut out, " paired return samples cannot support a quantile needing ");
                put_digits(&mut out, need as u64);
                assert(out@ =~= self.text());
                out
            },
            Unusable::NoStartingBalance =>
            "a window return needs a positive starting balance to divide by".to_owned(),
            Unusable::DifferentRuns { enforced, ignored } => {
                let mut out = "the arms saw different ticks (".to_owned();
                put_digits(&mut out, enforced as u64);
                put(&mut out, " vs ");
                put_digits(&mut out, ignored as u64);
                put(&mut out, "); they are not two arms of one experiment");
                out
            },
        }
    }
}

/// The order figures are put in, rising or falling.
pub open spec fn by_value<F: Figure>(falling: bool) -> spec_fn(F, F) -> bool {
    |a: F, b: F|
        if falling {
            b.no_later(a)
        } else {
            a.no_later(b)
        }
}

/// Figures put in order, rising or falling.
pub fn in_order<F: Figure>(xs: &Vec<F>, falling: bool) -> (r: Vec<F>)
    ensures
        r@ == ordered(xs@, by_value(falling)),
{
    let ghost le = by_value::<F>(falling);
    let mut out: Vec<F> = Vec::new();
    let mut i: usize = 0;
    assert(xs@.subrange(0, 0) =~= Seq::<F>::empty());
    while i < xs.len()
        invariant
            i <= xs@.len(),
            le == by_value::<F>(falling),
            out@ == ordered(xs@.subrange(0, i as int), le),
        decreases xs@.len() - i,
    {
        let x = xs[i];
        proof {
            let now = xs@.subrange(0, i + 1);
            assert(now.drop_last() =~= xs@.subrange(0, i as int));
            assert(now.last() == x);
        }
        let mut at: usize = 0;
        while at < out.len() && ((falling && x.precedes(out[at])) || (!falling
            && out[at].precedes(x)))
            invariant
                at <= out@.len(),
                le == by_value::<F>(falling),
                forall|k: int| 0 <= k < at ==> le(#[trigger] out@[k], x),
            decreases out@.len() - at,
        {
            at += 1;
        }
        proof {
            lemma_rank_is(out@, x, le, at as int);
        }
        out.insert(at, x);
        i += 1;
    }
    assert(xs@.subrange(0, i as int) =~= xs@);
    out
}

/// Where the quantile at `q` stands in `n` samples put in order.
pub open spec fn quantile_index<F: Figure>(q: F, n: int) -> int {
    let place = q.place_among(n as usize) as int;
    if place == 0 {
        0
    } else if place > n {
        n - 1
    } else {
        place - 1
    }
}

/// The quantile at `q` by nearest rank.
pub open spec fn quantile_of<F: Figure>(xs: Seq<F>, q: F) -> F {
    if xs.len() == 0 {
        F::undefined_value()
    } else {
        ordered(xs, by_value(false))[quantile_index(q, xs.len() as int)]
    }
}

/// The quantile of `xs` at `q`, by nearest rank: a value that was observed,
/// not an average of two.
pub fn quantile<F: Figure>(xs: &Vec<F>, q: F) -> (r: F)
    ensures
        r == quantile_of(xs@, q),
{
    if xs.len() == 0 {
        return F::undefined();
    }
    let sorted = in_order(xs, false);
    proof {
        lemma_ordered_len(xs@, by_value::<F>(false));
    }
    let n: usize = sorted.len();
    let place: usize = q.place(n);
    let at: usize = if place == 0 {
        0
    } else if place > n {
        n - 1
    } else {
        place - 1
    };
    sorted[at]
}

/// A reported quantile is an observation.
pub proof fn law_a_quantile_is_an_observation<F: Figure>(xs: Seq<F>, q: F)
    requires
        0 < xs.len() <= usize::MAX,
    ensures
        xs.contains(quantile_of(xs, q)),
{
    let le = by_value::<F>(false);
    law_ordered_keeps_elements(xs, le);
    let s = ordered(xs, le);
    let at = quantile_index(q, xs.len() as int);
    assert(s[at] == quantile_of(xs, q));
    assert(s.contains(s[at]));
}

/// The least of those figures that pass, the first of any that tie.
pub open spec fn least<F: Figure>(xs: Seq<F>, above_nought: bool) -> Option<F>
    decreases xs.len(),
{
    if xs.len() == 0 {
        None
    } else {
        let before = least(xs.drop_last(), above_nought);
        let x = xs.last();
        if !x.is_number() || (above_nought && !x.above(nought())) {
            before
        } else {
            match before {
                Some(b) => if b.no_later(x) {
                    Some(b)
                } else {
                    Some(x)
                },
                None => Some(x),
            }
        }
    }
}

fn find_least<F: Figure>(xs: &[F], above_nought: bool) -> (r: Option<F>)
    ensures
        r == least(xs@, above_nought),
{
    let mut best: Option<F> = None;
    let mut i: usize = 0;
    assert(xs@.subrange(0, 0) =~= Seq::<F>::empty());
    while i < xs.len()
        invariant
            i <= xs@.len(),
            best == least(xs@.subrange(0, i as int), above_nought),
        decreases xs@.len() - i,
    {
        let x = xs[i];
        proof {
            let now = xs@.subrange(0, i + 1);
            assert(now.drop_last() =~= xs@.subrange(0, i as int));
            assert(now.last() == x);
        }
        if x.is_finite() && (!above_nought || x.exceeds(zero())) {
            best = match best {
                Some(b) => if b.precedes(x) {
                    Some(b)
                } else {
                    Some(x)
                },
                None => Some(x),
            };
        }
        i += 1;
    }
    assert(xs@.subrange(0, i as int) =~= xs@);
    best
}

/// The margin fidelity report.
#[derive(Clone, Debug, PartialEq)]
pub struct Fidelity<F> {
    /// The arm that models liquidation.
    pub enforced: Arm<F>,
    /// The arm that does not.
    pub ignored: Arm<F>,
    /// Index of the first return sample at which the arms disagree.
    pub diverged_at: Option<usize>,
    /// How many samples the two series describe the same account for.
    pub paired_until: usize,
    /// The requested quantiles of both return distributions.
    pub tail: Vec<TailPoint<F>>,
    /// Terminal equity the margin-free arm claims and the enforced arm did not
    /// reach.
    pub terminal_overstatement: Cash,
}

/// The first place two series of returns disagree.
pub open spec fn parts_at<F: Figure>(a: Seq<F>, b: Seq<F>, at: Option<usize>) -> bool {
    let n = if a.len() < b.len() {
        a.len()
    } else {
        b.len()
    };
    match at {
        Some(i) => {
            &&& i < n
            &&& !a[i as int].alike(b[i as int])
            &&& forall|k: int| 0 <= k < i ==> (#[trigger] a[k]).alike(b[k])
        },
        None => forall|k: int| 0 <= k < n ==> (#[trigger] a[k]).alike(b[k]),
    }
}

/// The quantiles of two series, in the order asked for.
pub open spec fn tail_of<F: Figure>(a: Seq<F>, b: Seq<F>, quantiles: Seq<F>) -> Seq<TailPoint<F>> {
    quantiles.map_values(
        |q: F| TailPoint { q, enforced: quantile_of(a, q), ignored: quantile_of(b, q) },
    )
}

fn tail<F: Figure>(a: &Vec<F>, b: &Vec<F>, quantiles: &[F]) -> (r: Vec<TailPoint<F>>)
    ensures
        r@ == tail_of(a@, b@, quantiles@),
{
    let mut out: Vec<TailPoint<F>> = Vec::new();
    let ghost all = tail_of(a@, b@, quantiles@);
    let mut i: usize = 0;
    while i < quantiles.len()
        invariant
            i <= quantiles@.len(),
            all == tail_of(a@, b@, quantiles@),
            out@ == all.subrange(0, i as int),
        decreases quantiles@.len() - i,
    {
        let q = quantiles[i];
        out.push(TailPoint { q, enforced: quantile(a, q), ignored: quantile(b, q) });
        i += 1;
        assert(out@ =~= all.subrange(0, i as int));
    }
    assert(out@ =~= all);
    out
}

fn first_part<F: Figure>(xs: &Vec<F>, n: usize) -> (r: Vec<F>)
    requires
        n <= xs@.len(),
    ensures
        r@ == xs@.subrange(0, n as int),
{
    let mut out: Vec<F> = Vec::new();
    let mut i: usize = 0;
    while i < n
        invariant
            i <= n <= xs@.len(),
            out@ == xs@.subrange(0, i as int),
        decreases n - i,
    {
        out.push(xs[i]);
        i += 1;
        assert(out@ =~= xs@.subrange(0, i as int));
    }
    out
}

/// The point with the largest gap, the last of any that tie.
pub open spec fn worst<F: Figure>(tail: Seq<TailPoint<F>>) -> Option<TailPoint<F>>
    decreases tail.len(),
{
    if tail.len() == 0 {
        None
    } else {
        match worst(tail.drop_last()) {
            Some(w) => if w.gap().no_later(tail.last().gap()) {
                Some(tail.last())
            } else {
                Some(w)
            },
            None => Some(tail.last()),
        }
    }
}

impl<F: Figure> Fidelity<F> {
    /// Whether this is what two runs of one experiment come to.
    pub open spec fn compares(
        &self,
        enforced: RunResult,
        ignored: RunResult,
        quantiles: Seq<F>,
    ) -> bool {
        let a = returns_of::<F>(enforced.equity_curve@);
        let b = returns_of::<F>(ignored.equity_curve@);
        let n = paired::<F>(enforced, ignored);
        &&& self.enforced.is_of(enforced)
        &&& self.ignored.is_of(ignored)
        &&& self.paired_until == n
        &&& parts_at(a, b, self.diverged_at)
        &&& self.tail@ == tail_of(a.subrange(0, n), b.subrange(0, n), quantiles)
        &&& self.terminal_overstatement.0 == clamp_i64(
            ignored.final_equity.0 - enforced.final_equity.0,
        )
    }

    /// Whether the margin-free arm described an account that had already been
    /// closed.
    pub fn margin_free_traded_a_dead_account(&self) -> (r: bool)
        ensures
            r == (self.enforced.liquidations > 0),
    {
        self.enforced.liquidations > 0
    }

    /// The largest overstatement across the requested quantiles; none when none
    /// were requested.
    pub fn worst_overstatement(&self) -> (r: Option<TailPoint<F>>)
        ensures
            r == worst(self.tail@),
    {
        let mut best: Option<TailPoint<F>> = None;
        let mut i: usize = 0;
        assert(self.tail@.subrange(0, 0) =~= Seq::<TailPoint<F>>::empty());
        while i < self.tail.len()
            invariant
                i <= self.tail@.len(),
                best == worst(self.tail@.subrange(0, i as int)),
            decreases self.tail@.len() - i,
        {
            let p = self.tail[i];
            proof {
                let now = self.tail@.subrange(0, i + 1);
                assert(now.drop_last() =~= self.tail@.subrange(0, i as int));
                assert(now.last() == p);
            }
            best = match best {
                Some(w) => if w.overstatement().precedes(p.overstatement()) {
                    Some(p)
                } else {
                    Some(w)
                },
                None => Some(p),
            };
            i += 1;
        }
        assert(self.tail@.subrange(0, i as int) =~= self.tail@);
        best
    }
}

/// The worst point is one of the reported points.
pub proof fn law_the_worst_point_was_reported<F: Figure>(tail: Seq<TailPoint<F>>)
    ensures
        match worst(tail) {
            Some(w) => tail.contains(w),
            None => tail.len() == 0,
        },
    decreases tail.len(),
{
    if tail.len() > 0 {
        let rest = tail.drop_last();
        law_the_worst_point_was_reported(rest);
        assert(tail[tail.len() - 1] == tail.last());
        if let Some(w) = worst(rest) {
            let i = choose|i: int| 0 <= i < rest.len() && rest[i] == w;
            assert(tail[i] == w);
        }
    }
}

/// How many samples two runs are paired for.
pub open spec fn paired<F: Figure>(enforced: RunResult, ignored: RunResult) -> int {
    let a = returns_of::<F>(enforced.equity_curve@);
    let b = returns_of::<F>(ignored.equity_curve@);
    if a.len() < b.len() {
        a.len() as int
    } else {
        b.len() as int
    }
}

/// How many samples the finest quantile asked for needs, where one above
/// nought is asked for and it is the least of all.
pub open spec fn finest_need<F: Figure>(quantiles: Seq<F>) -> Option<usize> {
    match least(quantiles, false) {
        Some(q) => if q.above(nought()) {
            Some(q.samples_needed())
        } else {
            None
        },
        None => None,
    }
}

/// Why two runs cannot be compared, if they cannot.
pub open spec fn incomparable<F: Figure>(
    enforced: RunResult,
    ignored: RunResult,
    quantiles: Seq<F>,
) -> Option<Unusable> {
    if enforced.ticks != ignored.ticks {
        Some(Unusable::DifferentRuns { enforced: enforced.ticks, ignored: ignored.ticks })
    } else if enforced.equity_curve@.len() == 0 || ignored.equity_curve@.len() == 0 {
        Some(Unusable::NoEquityCurve)
    } else {
        let have = paired::<F>(enforced, ignored);
        match finest_need(quantiles) {
            Some(need) => if have < need {
                Some(Unusable::TooFewSamples { have: have as usize, need })
            } else {
                None
            },
            None => None,
        }
    }
}

/// Compare a margin-enforced run against the same run with margin ignored.
/// Every paired statistic stops where the two series stop describing the same
/// account.
pub fn tail_divergence<F: Figure>(
    enforced: &RunResult,
    ignored: &RunResult,
    quantiles: &[F],
) -> (r: Result<Fidelity<F>, Unusable>)
    ensures
        match r {
            Ok(f) => incomparable(*enforced, *ignored, quantiles@) is None && f.compares(
                *enforced,
                *ignored,
                quantiles@,
            ),
            Err(e) => incomparable(*enforced, *ignored, quantiles@) == Some(e),
        },
{
    if enforced.ticks != ignored.ticks {
        return Err(
            Unusable::DifferentRuns { enforced: enforced.ticks, ignored: ignored.ticks },
        );
    }
    if enforced.equity_curve.len() == 0 || ignored.equity_curve.len() == 0 {
        return Err(Unusable::NoEquityCurve);
    }
    let a: Arm<F> = Arm::of(enforced);
    let b: Arm<F> = Arm::of(ignored);
    let paired_until: usize = if a.returns.len() < b.returns.len() {
        a.returns.len()
    } else {
        b.returns.len()
    };
    let mut diverged_at: Option<usize> = None;
    let mut i: usize = 0;
    while i < paired_until && a.returns[i].equals(b.returns[i])
        invariant
            i <= paired_until,
            paired_until <= a.returns@.len(),
            paired_until <= b.returns@.len(),
            forall|k: int| 0 <= k < i ==> (#[trigger] a.returns@[k]).alike(b.returns@[k]),
        decreases paired_until - i,
    {
        i += 1;
    }
    if i < paired_until {
        diverged_at = Some(i);
    }
    if let Some(smallest) = find_least(quantiles, false) {
        if smallest.exceeds(zero()) {
            let need: usize = smallest.samples();
            if paired_until < need {
                return Err(Unusable::TooFewSamples { have: paired_until, need });
            }
        }
    }
    let x = first_part(&a.returns, paired_until);
    let y = first_part(&b.returns, paired_until);
    let points = tail(&x, &y, quantiles);
    Ok(
        Fidelity {
            terminal_overstatement: Cash(sat_sub(b.final_equity.0, a.final_equity.0)),
            enforced: a,
            ignored: b,
            diverged_at,
            paired_until,
            tail: points,
        },
    )
}

/// Arms that never diverge report no divergence: two runs with one equity curve
/// agree at every sample and at every quantile.
pub proof fn law_identical_arms_agree<F: Figure>(
    f: Fidelity<F>,
    enforced: RunResult,
    ignored: RunResult,
    quantiles: Seq<F>,
)
    requires
        f.compares(enforced, ignored, quantiles),
        enforced.equity_curve@ == ignored.equity_curve@,
        forall|x: F| #[trigger] x.alike(x),
    ensures
        f.diverged_at is None,
        forall|i: int|
            0 <= i < f.tail@.len() ==> (#[trigger] f.tail@[i]).enforced == f.tail@[i].ignored,
{
    let a = returns_of::<F>(enforced.equity_curve@);
    if let Some(i) = f.diverged_at {
        assert(a[i as int].alike(a[i as int]));
    }
}

/// What one stress window produced under both arms.
#[derive(Clone, Debug, PartialEq)]
pub struct Window<F> {
    /// What this window is, for the report to name.
    pub label: String,
    /// Total return over the window with liquidation modelled.
    pub enforced: F,
    /// Total return over the window without it.
    pub ignored: F,
    /// Whether the venue closed the account during this window.
    pub liquidated: bool,
}

impl<F: Figure> Window<F> {
    /// A window's outcome from the two runs over it, both of which started
    /// from `starting`.
    pub fn of(label: &str, starting: Cash, enforced: &RunResult, ignored: &RunResult) -> (r: Result<
        Self,
        Unusable,
    >)
        ensures
            match r {
                Ok(w) => {
                    &&& enforced.ticks == ignored.ticks
                    &&& starting.0 > 0
                    &&& w.label@ == label@
                    &&& w.enforced == F::quotient_of(
                        clamp_i64(enforced.final_equity.0 - starting.0),
                        starting.0,
                    )
                    &&& w.ignored == F::quotient_of(
                        clamp_i64(ignored.final_equity.0 - starting.0),
                        starting.0,
                    )
                    &&& w.liquidated == (enforced.liquidations@.len() > 0)
                },
                Err(e) => if enforced.ticks != ignored.ticks {
                    e == (Unusable::DifferentRuns {
                        enforced: enforced.ticks,
                        ignored: ignored.ticks,
                    })
                } else {
                    starting.0 <= 0 && e == Unusable::NoStartingBalance
                },
            },
    {
        if enforced.ticks != ignored.ticks {
            return Err(
                Unusable::DifferentRuns { enforced: enforced.ticks, ignored: ignored.ticks },
            );
        }
        if starting.0 <= 0 {
            return Err(Unusable::NoStartingBalance);
        }
        Ok(
            Window {
                label: label.to_owned(),
                enforced: F::ratio(sat_sub(enforced.final_equity.0, starting.0), starting.0),
                ignored: F::ratio(sat_sub(ignored.final_equity.0, starting.0), starting.0),
                liquidated: enforced.liquidations.len() > 0,
            },
        )
    }

    pub open spec fn gap(&self) -> F {
        self.ignored.less(self.enforced)
    }

    /// How much better the margin-free arm made this window look.
    pub fn overstatement(&self) -> (r: F)
        ensures
            r == self.gap(),
    {
        self.ignored.minus(self.enforced)
    }

    /// Whether two windows say the same.
    pub open spec fn same(&self, other: Window<F>) -> bool {
        &&& self.label@ == other.label@
        &&& self.enforced == other.enforced
        &&& self.ignored == other.ignored
        &&& self.liquidated == other.liquidated
    }
}

/// The cross-window margin fidelity report.
#[derive(Clone, Debug, PartialEq)]
pub struct StressReport<F> {
    /// Windows studied.
    pub windows: usize,
    /// Windows in which the venue closed the account.
    pub liquidated: usize,
    /// Quantiles of both arms' per-window return distributions.
    pub tail: Vec<TailPoint<F>>,
    /// Mean per-window overstatement. It moves with the mix of windows.
    pub mean_overstatement: F,
    /// Share of the total overstatement contributed by the worst decile of
    /// windows; none when there is no overstatement to apportion.
    pub worst_decile_share: Option<F>,
    /// Mean return in the windows where the venue closed the account: what the
    /// account got, and what the margin-free run claimed. It does not move with
    /// the mix.
    pub given_liquidation: Option<(F, F)>,
    /// Every window, in the order given.
    pub per_window: Vec<Window<F>>,
}

/// The enforced returns of windows.
pub open spec fn real_returns<F: Figure>(ws: Seq<Window<F>>) -> Seq<F> {
    ws.map_values(|w: Window<F>| w.enforced)
}

/// The returns the margin-free runs claimed.
pub open spec fn claimed_returns<F: Figure>(ws: Seq<Window<F>>) -> Seq<F> {
    ws.map_values(|w: Window<F>| w.ignored)
}

/// The overstatement of each window.
pub open spec fn gaps<F: Figure>(ws: Seq<Window<F>>) -> Seq<F> {
    ws.map_values(|w: Window<F>| w.gap())
}

/// The figures above nought, in order.
pub open spec fn positives<F: Figure>(xs: Seq<F>) -> Seq<F>
    decreases xs.len(),
{
    if xs.len() == 0 {
        xs
    } else {
        let before = positives(xs.drop_last());
        if xs.last().above(nought()) {
            before.push(xs.last())
        } else {
            before
        }
    }
}

/// The windows in which the venue closed the account.
pub open spec fn closed<F: Figure>(ws: Seq<Window<F>>) -> Seq<Window<F>>
    decreases ws.len(),
{
    if ws.len() == 0 {
        ws
    } else {
        let before = closed(ws.drop_last());
        if ws.last().liquidated {
            before.push(ws.last())
        } else {
            before
        }
    }
}

/// How many windows a tenth of `n` is, rounded up.
pub open spec fn decile(n: nat) -> int {
    (n as int + 9) / 10
}

/// The share of the overstatement that the worst decile of windows carries.
pub open spec fn concentration<F: Figure>(ws: Seq<Window<F>>) -> Option<F> {
    let all = gaps(ws);
    let total = sum_of(positives(all));
    let worst_first = ordered(all, by_value(true));
    if total.above(nought()) {
        Some(
            sum_of(positives(worst_first.subrange(0, decile(ws.len())))).part_of(total),
        )
    } else {
        None
    }
}

/// The mean returns of the windows in which the account was closed.
pub open spec fn when_closed<F: Figure>(ws: Seq<Window<F>>) -> Option<(F, F)> {
    let hit = closed(ws);
    if hit.len() == 0 {
        None
    } else {
        Some(
            (
                sum_of(real_returns(hit)).shared_by(hit.len() as usize),
                sum_of(claimed_returns(hit)).shared_by(hit.len() as usize),
            ),
        )
    }
}

/// How many samples the finest quantile above nought needs.
pub open spec fn finest_positive_need<F: Figure>(quantiles: Seq<F>) -> Option<usize> {
    match least(quantiles, true) {
        Some(q) => Some(q.samples_needed()),
        None => None,
    }
}

/// Whether a study of `n` windows is too small for the quantiles asked for.
pub open spec fn too_small<F: Figure>(n: nat, quantiles: Seq<F>) -> Option<Unusable> {
    match finest_positive_need(quantiles) {
        Some(need) => if n < need {
            Some(Unusable::TooFewSamples { have: n as usize, need })
        } else {
            None
        },
        None => None,
    }
}

impl<F: Figure> StressReport<F> {
    /// Whether this is what a study of windows comes to.
    pub open spec fn studies(&self, ws: Seq<Window<F>>, quantiles: Seq<F>) -> bool {
        &&& self.windows == ws.len()
        &&& self.liquidated == closed(ws).len()
        &&& self.tail@ == tail_of(real_returns(ws), claimed_returns(ws), quantiles)
        &&& self.mean_overstatement == (if ws.len() == 0 {
            nought()
        } else {
            sum_of(gaps(ws)).shared_by(ws.len() as usize)
        })
        &&& self.worst_decile_share == concentration(ws)
        &&& self.given_liquidation == when_closed(ws)
        &&& self.per_window@.len() == ws.len()
        &&& forall|i: int| 0 <= i < ws.len() ==> (#[trigger] self.per_window@[i]).same(ws[i])
    }

    /// Windows where the margin-free arm claimed a better result.
    pub fn overstated_windows(&self) -> (r: usize)
        ensures
            r == positives(gaps(self.per_window@)).len(),
    {
        let ghost all = gaps(self.per_window@);
        let mut n: usize = 0;
        let mut i: usize = 0;
        assert(all.subrange(0, 0) =~= Seq::<F>::empty());
        while i < self.per_window.len()
            invariant
                i <= self.per_window@.len(),
                n <= i,
                all == gaps(self.per_window@),
                n == positives(all.subrange(0, i as int)).len(),
            decreases self.per_window@.len() - i,
        {
            proof {
                let now = all.subrange(0, i + 1);
                assert(now.drop_last() =~= all.subrange(0, i as int));
                assert(now.last() == self.per_window@[i as int].gap());
            }
            if self.per_window[i].overstatement().exceeds(zero()) {
                n += 1;
            }
            i += 1;
        }
        assert(all.subrange(0, i as int) =~= all);
        n
    }
}

fn only_positive<F: Figure>(xs: &Vec<F>, n: usize) -> (r: Vec<F>)
    requires
        n <= xs@.len(),
    ensures
        r@ == positives(xs@.subrange(0, n as int)),
{
    let mut out: Vec<F> = Vec::new();
    let mut i: usize = 0;
    assert(xs@.subrange(0, 0) =~= Seq::<F>::empty());
    while i < n
        invariant
            i <= n <= xs@.len(),
            out@ == positives(xs@.subrange(0, i as int)),
        decreases n - i,
    {
        proof {
            let now = xs@.subrange(0, i + 1);
            assert(now.drop_last() =~= xs@.subrange(0, i as int));
            assert(now.last() == xs@[i as int]);
        }
        if xs[i].exceeds(zero()) {
            out.push(xs[i]);
        }
        i += 1;
    }
    out
}

/// Study a set of stress windows run under both margin modes.
pub fn stress<F: Figure>(windows: &[Window<F>], quantiles: &[F]) -> (r: Result<
    StressReport<F>,
    Unusable,
>)
    ensures
        match r {
            Ok(report) => too_small(windows@.len(), quantiles@) is None && report.studies(
                windows@,
                quantiles@,
            ),
            Err(e) => too_small(windows@.len(), quantiles@) == Some(e),
        },
{
    let n: usize = windows.len();
    if let Some(smallest) = find_least(quantiles, true) {
        let need: usize = smallest.samples();
        if n < need {
            return Err(Unusable::TooFewSamples { have: n, need });
        }
    }
    let mut enforced: Vec<F> = Vec::new();
    let mut ignored: Vec<F> = Vec::new();
    let mut all: Vec<F> = Vec::new();
    let mut hit_enforced: Vec<F> = Vec::new();
    let mut hit_ignored: Vec<F> = Vec::new();
    let mut per_window: Vec<Window<F>> = Vec::new();
    let ghost ws = windows@;
    let mut i: usize = 0;
    assert(ws.subrange(0, 0) =~= Seq::<Window<F>>::empty());
    assert(real_returns(Seq::<Window<F>>::empty()) =~= Seq::<F>::empty());
    assert(claimed_returns(Seq::<Window<F>>::empty()) =~= Seq::<F>::empty());
    while i < n
        invariant
            i <= n,
            n == ws.len(),
            ws == windows@,
            enforced@ == real_returns(ws).subrange(0, i as int),
            ignored@ == claimed_returns(ws).subrange(0, i as int),
            all@ == gaps(ws).subrange(0, i as int),
            hit_enforced@ == real_returns(closed(ws.subrange(0, i as int))),
            hit_ignored@ == claimed_returns(closed(ws.subrange(0, i as int))),
            per_window@.len() == i,
            forall|k: int| 0 <= k < i ==> (#[trigger] per_window@[k]).same(ws[k]),
        decreases n - i,
    {
        let w = &windows[i];
        let ghost before = closed(ws.subrange(0, i as int));
        proof {
            let now = ws.subrange(0, i + 1);
            assert(now.drop_last() =~= ws.subrange(0, i as int));
            assert(now.last() == ws[i as int]);
        }
        enforced.push(w.enforced);
        ignored.push(w.ignored);
        all.push(w.overstatement());
        if w.liquidated {
            hit_enforced.push(w.enforced);
            hit_ignored.push(w.ignored);
            proof {
                let after = before.push(ws[i as int]);
                assert(hit_enforced@ =~= real_returns(after));
                assert(hit_ignored@ =~= claimed_returns(after));
            }
        }
        per_window.push(
            Window {
                label: copy_text(&w.label),
                enforced: w.enforced,
                ignored: w.ignored,
                liquidated: w.liquidated,
            },
        );
        i += 1;
        assert(enforced@ =~= real_returns(ws).subrange(0, i as int));
        assert(ignored@ =~= claimed_returns(ws).subrange(0, i as int));
        assert(all@ =~= gaps(ws).subrange(0, i as int));
    }
    proof {
        assert(ws.subrange(0, n as int) =~= ws);
        assert(enforced@ =~= real_returns(ws));
        assert(ignored@ =~= claimed_returns(ws));
        assert(all@ =~= gaps(ws));
        assert(hit_enforced@.len() == closed(ws).len());
    }
    let total = sum(&only_positive(&all, n));
    assert(all@.subrange(0, n as int) =~= all@);
    let worst_first = in_order(&all, true);
    proof {
        lemma_ordered_len(all@, by_value::<F>(true));
    }
    let tenth: usize = n / 10 + if n % 10 == 0 {
        0
    } else {
        1
    };
    assert(tenth == decile(n as nat));
    let worst_decile_share = if total.exceeds(zero()) {
        let top = sum(&only_positive(&worst_first, tenth));
        Some(top.share_of(total))
    } else {
        None
    };
    let mean_overstatement = if n == 0 {
        zero()
    } else {
        sum(&all).over(n)
    };
    let hits: usize = hit_enforced.len();
    let given_liquidation = if hits == 0 {
        None
    } else {
        Some((sum(&hit_enforced).over(hits), sum(&hit_ignored).over(hits)))
    };
    Ok(
        StressReport {
            windows: n,
            liquidated: hits,
            tail: tail(&enforced, &ignored, quantiles),
            mean_overstatement,
            worst_decile_share,
            given_liquidation,
            per_window,
        },
    )
}

/// The statistic conditional on liquidation does not move with the mix: it is
/// that of the windows in which the account was closed, whatever calm windows
/// stand among them.
pub proof fn law_the_conditional_statistic_ignores_the_mix<F: Figure>(
    a: Seq<Window<F>>,
    b: Seq<Window<F>>,
)
    requires
        closed(a) == closed(b),
    ensures
        when_closed(a) == when_closed(b),
{
}

/// A calm window put anywhere leaves the windows in which the account was
/// closed as they were.
pub proof fn law_calm_windows_do_not_count<F: Figure>(
    ws: Seq<Window<F>>,
    at: int,
    calm: Window<F>,
)
    requires
        0 <= at <= ws.len(),
        !calm.liquidated,
    ensures
        closed(ws.insert(at, calm)) == closed(ws),
    decreases ws.len(),
{
    let more = ws.insert(at, calm);
    if at == ws.len() {
        assert(more.drop_last() =~= ws);
    } else {
        assert(more.last() == ws.last());
        assert(more.drop_last() =~= ws.drop_last().insert(at, calm));
        law_calm_windows_do_not_count(ws.drop_last(), at, calm);
    }
}

/// The worst point overstates most: what any reported point's margin-free arm
/// has over its enforced arm orders no later than what the worst point's has;
/// and of points that tie it is the last.
pub proof fn law_the_worst_point_overstates_most<F: Figure>(tail: Seq<TailPoint<F>>, i: int)
    requires
        stand_in_order::<F>(),
        0 <= i < tail.len(),
    ensures
        worst(tail) matches Some(w) && tail[i].ignored.less(tail[i].enforced).no_later(
            w.ignored.less(w.enforced),
        ),
        exists|at: int|
            #![trigger tail[at]]
            0 <= at < tail.len() && worst(tail) == Some(tail[at]) && forall|j: int|
                at < j < tail.len() ==> !tail[at].ignored.less(tail[at].enforced).no_later(
                    (#[trigger] tail[j]).ignored.less(tail[j].enforced),
                ),
    decreases tail.len(),
{
    let rest = tail.drop_last();
    let last = tail.last();
    assert(tail[tail.len() - 1] == last);
    if rest.len() > 0 {
        let k = if i < rest.len() {
            i
        } else {
            0
        };
        law_the_worst_point_overstates_most(rest, k);
        assert(rest[k] == tail[k]);
        let w = worst(rest)->Some_0;
        assert(w.gap().no_later(last.gap()) || last.gap().no_later(w.gap()));
        if w.gap().no_later(last.gap()) {
            if i < rest.len() {
                assert(tail[i].gap().no_later(w.gap()));
            } else {
                assert(last.gap().no_later(last.gap()) || last.gap().no_later(last.gap()));
            }
        } else {
            let at = choose|at: int|
                #![trigger rest[at]]
                0 <= at < rest.len() && worst(rest) == Some(rest[at]) && forall|j: int|
                    at < j < rest.len() ==> !rest[at].ignored.less(rest[at].enforced).no_later(
                        (#[trigger] rest[j]).ignored.less(rest[j].enforced),
                    );
            assert(tail[at] == rest[at]);
            assert forall|j: int| at < j < tail.len() implies !tail[at].ignored.less(
                tail[at].enforced,
            ).no_later((#[trigger] tail[j]).ignored.less(tail[j].enforced)) by {
                if j < rest.len() {
                    assert(rest[j] == tail[j]);
                }
            }
        }
    } else {
        assert(last.gap().no_later(last.gap()) || last.gap().no_later(last.gap()));
    }
}

/// Samples put in order.
pub open spec fn is_sorted_of<F: Figure>(s: Seq<F>, xs: Seq<F>, falling: bool) -> bool {
    &&& s.to_multiset() == xs.to_multiset()
    &&& forall|i: int, j: int|
        0 <= i < j < s.len() ==> if falling {
            (#[trigger] s[j]).no_later(#[trigger] s[i])
        } else {
            s[i].no_later(s[j])
        }
}

proof fn lemma_in_order_is_sorted<F: Figure>(xs: Seq<F>, falling: bool)
    requires
        stand_in_order::<F>(),
    ensures
        is_sorted_of(ordered(xs, by_value(falling)), xs, falling),
{
    let le = by_value::<F>(falling);
    assert forall|a: F, b: F| #[trigger] le(a, b) || le(b, a) by {
        assert(a.no_later(b) || b.no_later(a));
    }
    assert forall|a: F, b: F, c: F| #[trigger] le(a, b) && #[trigger] le(b, c) implies le(a, c) by {
        if falling {
            assert(c.no_later(b) && b.no_later(a));
        } else {
            assert(a.no_later(b) && b.no_later(c));
        }
    }
    law_ordered_keeps_elements(xs, le);
    law_ordered_is_in_order(xs, le);
    let s = ordered(xs, le);
    assert forall|i: int, j: int| 0 <= i < j < s.len() implies if falling {
        (#[trigger] s[j]).no_later(#[trigger] s[i])
    } else {
        s[i].no_later(s[j])
    } by {
        assert(le(s[i], s[j]));
    }
}

/// A quantile stands at its rank: there is a way of putting the samples in
/// order, smallest first, and the quantile is the sample at the place the
/// share asks for, or at the nearest end where there is no such place.
pub proof fn law_a_quantile_stands_at_its_rank<F: Figure>(xs: Seq<F>, q: F, place: int)
    requires
        stand_in_order::<F>(),
        0 < xs.len() <= usize::MAX,
        place == q.place_among(xs.len() as usize),
    ensures
        exists|s: Seq<F>| #[trigger]
            is_sorted_of(s, xs, false) && s.len() == xs.len() && quantile_of(xs, q) == s[if place
                < 1 {
                0
            } else if place > xs.len() {
                xs.len() - 1
            } else {
                place - 1
            }],
{
    lemma_in_order_is_sorted(xs, false);
    lemma_ordered_len(xs, by_value::<F>(false));
    assert(is_sorted_of(ordered(xs, by_value(false)), xs, false));
}

/// The quantiles come in the order asked for, each of both arms.
pub proof fn law_a_quantile_is_taken_of_both_arms<F: Figure>(
    a: Seq<F>,
    b: Seq<F>,
    quantiles: Seq<F>,
    i: int,
)
    requires
        0 <= i < quantiles.len(),
    ensures
        tail_of(a, b, quantiles).len() == quantiles.len(),
        tail_of(a, b, quantiles)[i].q == quantiles[i],
        tail_of(a, b, quantiles)[i].enforced == quantile_of(a, quantiles[i]),
        tail_of(a, b, quantiles)[i].ignored == quantile_of(b, quantiles[i]),
{
}

/// The least of some figures is one of them, is a number, and orders no later
/// than any of them that is one; and there is a least unless none is.
pub proof fn law_the_least_is_a_lower_bound<F: Figure>(xs: Seq<F>, i: int)
    requires
        stand_in_order::<F>(),
        0 <= i < xs.len(),
    ensures
        least(xs, false) matches Some(b) ==> xs.contains(b) && b.is_number(),
        xs[i].is_number() ==> (least(xs, false) matches Some(b) && b.no_later(xs[i])),
        least(xs, true) matches Some(b) ==> xs.contains(b) && b.is_number() && b.above(nought()),
        xs[i].is_number() && xs[i].above(nought()) ==> (least(xs, true) matches Some(b)
            && b.no_later(xs[i])),
    decreases xs.len(),
{
    let rest = xs.drop_last();
    let last = xs.last();
    assert(xs[xs.len() - 1] == last);
    assert(last.no_later(last) || last.no_later(last));
    if rest.len() > 0 {
        let k = if i < rest.len() {
            i
        } else {
            0
        };
        law_the_least_is_a_lower_bound(rest, k);
        assert(rest[k] == xs[k]);
        if let Some(b) = least(rest, false) {
            let at = choose|at: int| 0 <= at < rest.len() && rest[at] == b;
            assert(xs[at] == b);
            assert(b.no_later(last) || last.no_later(b));
            if i < rest.len() && xs[i].is_number() && !b.no_later(last) {
                assert(last.no_later(b) && b.no_later(xs[i]));
            }
        }
        if let Some(b) = least(rest, true) {
            let at = choose|at: int| 0 <= at < rest.len() && rest[at] == b;
            assert(xs[at] == b);
            assert(b.no_later(last) || last.no_later(b));
            if i < rest.len() && xs[i].is_number() && xs[i].above(nought()) && !b.no_later(last) {
                assert(last.no_later(b) && b.no_later(xs[i]));
            }
        }
    }
}

/// A comparison is refused for want of samples exactly where the finest
/// quantile asked for, above nought, needs more than the arms are paired for.
pub proof fn law_too_few_samples_are_refused<F: Figure>(
    enforced: RunResult,
    ignored: RunResult,
    quantiles: Seq<F>,
    finest: F,
)
    requires
        enforced.ticks == ignored.ticks,
        enforced.equity_curve@.len() > 0,
        ignored.equity_curve@.len() > 0,
        least(quantiles, false) == Some(finest),
        finest.above(nought()),
    ensures
        ({
            let a = returns_of::<F>(enforced.equity_curve@).len();
            let b = returns_of::<F>(ignored.equity_curve@).len();
            let have = if a <= b {
                a
            } else {
                b
            };
            incomparable(enforced, ignored, quantiles) == if have < finest.samples_needed() {
                Some(
                    Unusable::TooFewSamples {
                        have: have as usize,
                        need: finest.samples_needed(),
                    },
                )
            } else {
                None
            }
        }),
{
}

/// A window counts as overstated where its gap is above nought, and as closed
/// where the venue closed the account in it, wherever it stands.
pub proof fn law_a_window_counts_for_what_it_is<F: Figure>(
    ws: Seq<Window<F>>,
    at: int,
    w: Window<F>,
)
    requires
        0 <= at <= ws.len(),
    ensures
        closed(Seq::<Window<F>>::empty()).len() == 0,
        w.liquidated ==> closed(ws.insert(at, w)).len() == closed(ws).len() + 1,
        !w.liquidated ==> closed(ws.insert(at, w)).len() == closed(ws).len(),
        positives(gaps(Seq::<Window<F>>::empty())).len() == 0,
        w.ignored.less(w.enforced).above(nought()) ==> positives(gaps(ws.insert(at, w))).len()
            == positives(gaps(ws)).len() + 1,
        !w.ignored.less(w.enforced).above(nought()) ==> positives(gaps(ws.insert(at, w))).len()
            == positives(gaps(ws)).len(),
    decreases ws.len(),
{
    let more = ws.insert(at, w);
    assert(gaps(Seq::<Window<F>>::empty()) =~= Seq::<F>::empty());
    if at == ws.len() {
        assert(more.drop_last() =~= ws);
        assert(gaps(more).drop_last() =~= gaps(ws));
        assert(gaps(more).last() == w.gap());
    } else {
        assert(more.last() == ws.last());
        assert(more.drop_last() =~= ws.drop_last().insert(at, w));
        assert(gaps(more).drop_last() =~= gaps(ws.drop_last().insert(at, w)));
        assert(gaps(ws).drop_last() =~= gaps(ws.drop_last()));
        assert(gaps(more).last() == ws.last().gap());
        assert(gaps(ws).last() == ws.last().gap());
        law_a_window_counts_for_what_it_is(ws.drop_last(), at, w);
    }
}

/// The worst decile of windows is a tenth of them rounded up, and no window
/// outside it overstates more than one inside.
pub proof fn law_the_worst_decile_is_the_worst<F: Figure>(ws: Seq<Window<F>>)
    requires
        stand_in_order::<F>(),
    ensures
        10 * (decile(ws.len()) - 1) < ws.len() <= 10 * decile(ws.len()),
        exists|s: Seq<F>| #[trigger]
            is_sorted_of(s, gaps(ws), true) && s.len() == ws.len() && (sum_of(
                positives(gaps(ws)),
            ).above(nought()) ==> concentration(ws) == Some(
                sum_of(positives(s.subrange(0, decile(ws.len())))).part_of(
                    sum_of(positives(gaps(ws))),
                ),
            )),
        !sum_of(positives(gaps(ws))).above(nought()) ==> concentration(ws) is None,
{
    lemma_in_order_is_sorted(gaps(ws), true);
    lemma_ordered_len(gaps(ws), by_value::<F>(true));
    assert(is_sorted_of(ordered(gaps(ws), by_value(true)), gaps(ws), true));
}

/// Whether a window's returns are within `m` of nought.
pub open spec fn small(w: Window<Ratio>, m: int) -> bool {
    -m <= w.enforced.0 <= m && -m <= w.ignored.0 <= m
}

/// What the enforced arm returned, and what the margin-free arm claimed, summed
/// over the windows in which the account was closed.
pub open spec fn closed_sums(ws: Seq<Window<Ratio>>) -> (int, int)
    decreases ws.len(),
{
    if ws.len() == 0 {
        (0, 0)
    } else {
        let before = closed_sums(ws.drop_last());
        let w = ws.last();
        if w.liquidated {
            (before.0 + w.enforced.0, before.1 + w.ignored.0)
        } else {
            before
        }
    }
}

/// What the margin-free arm claimed over what the enforced arm returned, summed
/// over all windows.
pub open spec fn overstated_sum(ws: Seq<Window<Ratio>>) -> int
    decreases ws.len(),
{
    if ws.len() == 0 {
        0
    } else {
        overstated_sum(ws.drop_last()) + (ws.last().ignored.0 - ws.last().enforced.0)
    }
}

proof fn lemma_sums(ws: Seq<Window<Ratio>>, m: int)
    requires
        m >= 0,
        forall|i: int| 0 <= i < ws.len() ==> small(#[trigger] ws[i], m),
        2 * m * ws.len() <= i64::MAX,
    ensures
        ({
            let hit = closed(ws);
            let (a, b) = closed_sums(ws);
            let n = ws.len() as int;
            &&& hit.len() <= n
            &&& sum_of(real_returns(hit)).0 == a
            &&& sum_of(claimed_returns(hit)).0 == b
            &&& sum_of(gaps(ws)).0 == overstated_sum(ws)
            &&& -(m * n) <= a <= m * n
            &&& -(m * n) <= b <= m * n
            &&& -(2 * m * n) <= overstated_sum(ws) <= 2 * m * n
        }),
    decreases ws.len(),
{
    if ws.len() == 0 {
        assert(real_returns(closed(ws)) =~= Seq::<Ratio>::empty());
        assert(claimed_returns(closed(ws)) =~= Seq::<Ratio>::empty());
        assert(gaps(ws) =~= Seq::<Ratio>::empty());
        assert(m * 0 == 0);
        assert(2 * m * 0 == 0);
    } else {
        let rest = ws.drop_last();
        let w = ws.last();
        let n = ws.len() as int;
        assert(small(ws[n - 1], m));
        assert forall|i: int| 0 <= i < rest.len() implies small(#[trigger] rest[i], m) by {
            assert(rest[i] == ws[i]);
        }
        assert(m * n == m * (n - 1) + m) by (nonlinear_arith);
        assert(2 * m * n == 2 * m * (n - 1) + 2 * m) by (nonlinear_arith);
        assert(2 * m * n == 2 * (m * n)) by (nonlinear_arith);
        lemma_sums(rest, m);
        let hit = closed(ws);
        assert(gaps(ws).drop_last() =~= gaps(rest));
        assert(gaps(ws).last() == w.gap());
        if w.liquidated {
            assert(hit.drop_last() =~= closed(rest));
            assert(real_returns(hit).drop_last() =~= real_returns(closed(rest)));
            assert(claimed_returns(hit).drop_last() =~= claimed_returns(closed(rest)));
            assert(real_returns(hit).last() == w.enforced);
            assert(claimed_returns(hit).last() == w.ignored);
        }
    }
}

/// `mean` of `n` figures that sum to `sum`, cut toward nought.
pub open spec fn is_mean(mean: int, sum: int, n: int) -> bool {
    &&& -n < mean * n - sum < n
    &&& sum >= 0 ==> 0 <= mean * n <= sum
    &&& sum <= 0 ==> sum <= mean * n <= 0
}

proof fn lemma_mean(sum: int, n: int)
    requires
        n > 0,
    ensures
        is_mean(quotient(sum, n), sum, n),
        -i64::MAX <= sum <= i64::MAX ==> -i64::MAX <= quotient(sum, n) <= i64::MAX,
{
    let m = if sum >= 0 {
        sum
    } else {
        -sum
    };
    let q = m / n;
    assert(0 <= q && q * n <= m < q * n + n && q <= m) by (nonlinear_arith)
        requires
            n > 0,
            m >= 0,
            q == m / n,
    ;
    assert((-q) * n == -(q * n)) by (nonlinear_arith);
    assert(0 <= q * n) by (nonlinear_arith)
        requires
            q >= 0,
            n > 0,
    ;
}

/// A study's means are means: over the windows in which the account was
/// closed, of what it got and of what the margin-free run claimed, in that
/// order; and over all windows, of how much was overstated.
pub proof fn law_the_means_of_a_study(
    r: StressReport<Ratio>,
    ws: Seq<Window<Ratio>>,
    quantiles: Seq<Ratio>,
    m: int,
)
    requires
        r.studies(ws, quantiles),
        0 < ws.len() <= usize::MAX,
        m >= 0,
        forall|i: int| 0 <= i < ws.len() ==> small(#[trigger] ws[i], m),
        2 * m * ws.len() <= i64::MAX,
    ensures
        is_mean(r.mean_overstatement.0 as int, overstated_sum(ws), ws.len() as int),
        match r.given_liquidation {
            Some((got, claimed)) => {
                let (a, b) = closed_sums(ws);
                &&& r.liquidated > 0
                &&& is_mean(got.0 as int, a, r.liquidated as int)
                &&& is_mean(claimed.0 as int, b, r.liquidated as int)
            },
            None => r.liquidated == 0,
        },
{
    lemma_sums(ws, m);
    let (a, b) = closed_sums(ws);
    let n = ws.len() as int;
    assert(2 * m * n == 2 * (m * n)) by (nonlinear_arith);
    lemma_mean(overstated_sum(ws), n);
    let hits = closed(ws).len() as int;
    if hits > 0 {
        lemma_mean(a, hits);
        lemma_mean(b, hits);
    }
}

/// A study is refused for want of windows exactly where the finest quantile
/// above nought needs more than there are; and a share needs the fewest
/// samples that make it at least one of them.
pub proof fn law_too_few_windows_are_refused<F: Figure>(n: nat, quantiles: Seq<F>)
    ensures
        least(quantiles, true) matches Some(finest) ==> too_small(n, quantiles) == (if n
            < finest.samples_needed() {
            Some(Unusable::TooFewSamples { have: n as usize, need: finest.samples_needed() })
        } else {
            None
        }),
        least(quantiles, true) is None ==> too_small(n, quantiles) is None,
{
}

/// A ratio needs the fewest samples of which it is at least one.
pub proof fn law_a_share_needs_one_sample(q: Ratio)
    requires
        0 < q.0 <= 100_000_000,
    ensures
        ({
            let need = q.samples_needed() as int;
            q.0 * (need - 1) < 100_000_000 <= q.0 * need
        }),
{
    let d = q.0 as int;
    let top = 100_000_000 + d - 1;
    let need = top / d;
    assert(need * d <= top < need * d + d && 0 < need <= 100_000_000) by (nonlinear_arith)
        requires
            0 < d <= 100_000_000,
            top == 100_000_000 + d - 1,
            need == top / d,
    ;
    assert(d * (need - 1) == need * d - d && d * need == need * d) by (nonlinear_arith);
}

} // verus!
