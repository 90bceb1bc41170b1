//! Running many configurations, and refusing what a search found in its own
//! noise.
//!
//! The best result of a search is biased upward by the searching. So a sweep
//! carries the deflated Sharpe ratio and the probability of backtest
//! overfitting beside its results, or the reason either could not be computed,
//! and it is refused for deployment where they do not clear their thresholds.
use crate::backtest::figure::Figure;
use crate::backtest::lines::{copy_texts, texts};
use crate::backtest::lookahead::{divergences_seen, LookaheadReport};
use crate::backtest::run::{as_arrivals, ran_built, run, RunConfig, RunResult};
use crate::backtest::strategy::Strategy;
use crate::engine::tick::Tick;
use crate::text::{copy_all, copy_text, decimal, put, put_digits};
use crate::types::{clamp_i64, sat_sub, Cash};
use vstd::prelude::*;

verus! {

/// One configuration in a sweep, and how to build the strategy it names.
pub struct Candidate<B> {
    /// Identifies the configuration in the report.
    pub id: String,
    /// Builds a fresh strategy. A sweep does not share one between
    /// configurations: a strategy carries state.
    pub build: B,
}

/// The probability of backtest overfitting and what came with it.
#[derive(Clone, Debug, PartialEq)]
pub struct PboReport<F> {
    pub pbo: F,
    pub n_splits: usize,
    pub logits: Vec<F>,
    pub probability_of_loss: F,
    pub median_oos_sharpe: F,
    /// The slope of out-of-sample Sharpe on in-sample Sharpe.
    pub performance_degradation: F,
}

/// What a sweep found.
#[derive(Debug)]
pub struct SweepReport<F> {
    /// Every configuration's outcome, in the order they were run.
    pub results: Vec<(String, RunResult)>,
    /// Ticks per sampled return.
    pub equity_every: usize,
    /// Deflated Sharpe ratio of the best configuration, or the reason it could
    /// not be computed.
    pub deflated_sharpe: Result<F, String>,
    /// Whether the best in-sample configuration survives out of sample, or the
    /// reason that could not be computed.
    pub pbo: Result<PboReport<F>, String>,
    /// Configurations that produced too few returns to score.
    pub unscorable: Vec<String>,
    /// What a lookahead check of one configuration found.
    pub lookahead: Option<(String, LookaheadReport)>,
}

fn copy_results(list: &Vec<(String, RunResult)>) -> (r: Vec<(String, RunResult)>)
    ensures
        r@.len() == list@.len(),
        forall|i: int|
            0 <= i < list@.len() ==> (#[trigger] r@[i]).0@ == list@[i].0@ && r@[i].1.agrees(
                list@[i].1,
            ),
{
    let mut out: Vec<(String, RunResult)> = Vec::new();
    let mut i: usize = 0;
    while i < list.len()
        invariant
            i <= list@.len(),
            out@.len() == i,
            forall|k: int|
                0 <= k < i ==> (#[trigger] out@[k]).0@ == list@[k].0@ && out@[k].1.agrees(
                    list@[k].1,
                ),
        decreases list@.len() - i,
    {
        out.push((copy_text(&list[i].0), list[i].1.clone()));
        i += 1;
    }
    out
}

impl<F: Copy> Clone for SweepReport<F> {
    fn clone(&self) -> (r: Self)
        ensures
            r.results@.len() == self.results@.len(),
            forall|i: int|
                0 <= i < self.results@.len() ==> (#[trigger] r.results@[i]).0@
                    == self.results@[i].0@ && r.results@[i].1.agrees(self.results@[i].1),
            r.equity_every == self.equity_every,
            match self.deflated_sharpe {
                Ok(d) => r.deflated_sharpe == Ok::<F, String>(d),
                Err(why) => r.deflated_sharpe matches Err(told) && told@ == why@,
            },
            match self.pbo {
                Ok(p) => r.pbo matches Ok(q) && q.pbo == p.pbo && q.n_splits == p.n_splits
                    && q.logits@ == p.logits@ && q.probability_of_loss == p.probability_of_loss
                    && q.median_oos_sharpe == p.median_oos_sharpe && q.performance_degradation
                    == p.performance_degradation,
                Err(why) => r.pbo matches Err(told) && told@ == why@,
            },
            texts(r.unscorable@) == texts(self.unscorable@),
            match self.lookahead {
                Some((label, check)) => r.lookahead matches Some((l, c)) && l@ == label@
                    && c.signals == check.signals && c.checked == check.checked
                    && divergences_seen(c.divergences@) == divergences_seen(check.divergences@),
                None => r.lookahead is None,
            },
    {
        SweepReport {
            results: copy_results(&self.results),
            equity_every: self.equity_every,
            deflated_sharpe: match &self.deflated_sharpe {
                Ok(d) => Ok(*d),
                Err(why) => Err(copy_text(why)),
            },
            pbo: match &self.pbo {
                Ok(p) => Ok(
                    PboReport {
                        pbo: p.pbo,
                        n_splits: p.n_splits,
                        logits: copy_all(&p.logits),
                        probability_of_loss: p.probability_of_loss,
                        median_oos_sharpe: p.median_oos_sharpe,
                        performance_degradation: p.performance_degradation,
                    },
                ),
                Err(why) => Err(copy_text(why)),
            },
            unscorable: copy_texts(&self.unscorable),
            lookahead: match &self.lookahead {
                Some((label, check)) => Some((copy_text(label), check.clone())),
                None => None,
            },
        }
    }
}

/// Simple returns from a sampled equity curve, up to the first sample at or
/// below zero: an account at zero has been closed.
pub open spec fn returns_of<F: Figure>(curve: Seq<Cash>) -> Seq<F>
    decreases curve.len(),
{
    if curve.len() < 2 {
        Seq::empty()
    } else {
        let before = returns_of::<F>(curve.drop_last());
        let prev = curve[curve.len() - 2];
        let next = curve[curve.len() - 1];
        if before.len() == curve.len() - 2 && prev.0 > 0 {
            before.push(F::quotient_of(clamp_i64(next.0 - prev.0), prev.0))
        } else {
            before
        }
    }
}

/// Simple returns from a sampled equity curve. A sample at or below zero ends
/// the series rather than producing an infinite return.
pub fn simple_returns<F: Figure>(curve: &[Cash]) -> (r: Vec<F>)
    ensures
        r@ == returns_of::<F>(curve@),
{
    let n: usize = curve.len();
    let mut out: Vec<F> = Vec::new();
    let mut i: usize = 1;
    if n == 0 {
        return out;
    }
    let mut live = true;
    assert(curve@.subrange(0, 1).len() < 2);
    while i < n
        invariant
            1 <= i <= n,
            n == curve@.len(),
            out@ == returns_of::<F>(curve@.subrange(0, i as int)),
            live == (out@.len() == i - 1),
        decreases n - i,
    {
        proof {
            let now = curve@.subrange(0, i + 1);
            assert(now.drop_last() =~= curve@.subrange(0, i as int));
            assert(now[now.len() - 2] == curve@[i - 1]);
            assert(now[now.len() - 1] == curve@[i as int]);
            lemma_returns_fit::<F>(curve@.subrange(0, i as int));
        }
        let prev: i64 = curve[i - 1].0;
        let next: i64 = curve[i].0;
        if live && prev > 0 {
            out.push(F::ratio(sat_sub(next, prev), prev));
        } else {
            live = false;
        }
        i += 1;
    }
    assert(curve@.subrange(0, i as int) =~= curve@);
    out
}

/// `n` samples give no more than `n - 1` returns.
pub proof fn lemma_returns_fit<F: Figure>(curve: Seq<Cash>)
    ensures
        curve.len() > 0 ==> returns_of::<F>(curve).len() <= curve.len() - 1,
    decreases curve.len(),
{
    if curve.len() >= 2 {
        lemma_returns_fit::<F>(curve.drop_last());
    }
}

/// `n` samples of an account that stays above zero give `n - 1` returns, each
/// of two consecutive samples.
pub proof fn law_returns_are_of_consecutive_samples<F: Figure>(curve: Seq<Cash>)
    requires
        curve.len() > 0,
        forall|i: int| 0 <= i < curve.len() - 1 ==> (#[trigger] curve[i]).0 > 0,
    ensures
        returns_of::<F>(curve).len() == curve.len() - 1,
        forall|i: int|
            0 <= i < curve.len() - 1 ==> #[trigger] returns_of::<F>(curve)[i] == F::quotient_of(
                clamp_i64(curve[i + 1].0 - curve[i].0),
                curve[i].0,
            ),
    decreases curve.len(),
{
    if curve.len() >= 2 {
        let rest = curve.drop_last();
        assert forall|i: int| 0 <= i < rest.len() - 1 implies (#[trigger] rest[i]).0 > 0 by {
            assert(rest[i] == curve[i]);
        }
        law_returns_are_of_consecutive_samples::<F>(rest);
        assert(curve[curve.len() - 2].0 > 0);
        assert forall|i: int| 0 <= i < curve.len() - 1 implies #[trigger] returns_of::<F>(curve)[i]
            == F::quotient_of(clamp_i64(curve[i + 1].0 - curve[i].0), curve[i].0) by {
            if i < rest.len() - 1 {
                assert(returns_of::<F>(rest)[i] == returns_of::<F>(curve)[i]);
                assert(rest[i] == curve[i] && rest[i + 1] == curve[i + 1]);
            }
        }
    }
}

/// A closed account has no returns after it was closed: what follows a sample
/// at or below zero adds nothing.
pub proof fn law_a_closed_account_has_no_returns<F: Figure>(curve: Seq<Cash>, more: Seq<Cash>)
    requires
        curve.len() > 0,
        curve.last().0 <= 0,
    ensures
        returns_of::<F>(curve + more) == returns_of::<F>(curve),
    decreases more.len(),
{
    let all = curve + more;
    if more.len() == 0 {
        assert(all =~= curve);
    } else {
        law_a_closed_account_has_no_returns::<F>(curve, more.drop_last());
        assert(all.drop_last() =~= curve + more.drop_last());
        lemma_returns_fit::<F>(curve);
        if more.len() == 1 {
            assert(all[all.len() - 2] == curve.last());
        }
    }
}

/// Run every candidate over the same ticks. The statistics of the set are the
/// host's to compute from the returns; [`SweepReport::of`] puts them together.
pub fn sweep<S: Strategy, B: Fn() -> S>(
    config: &RunConfig,
    candidates: &[Candidate<B>],
    ticks: &[Tick],
) -> (r: Vec<(String, RunResult)>)
    requires
        config@.wf(),
        forall|i: int|
            0 <= i < candidates@.len() ==> call_requires(#[trigger] candidates@[i].build, ()),
    ensures
        r@.len() == candidates@.len(),
        forall|i: int|
            0 <= i < r@.len() ==> (#[trigger] r@[i]).0@ == candidates@[i].id@ && ran_built::<
                S,
                B,
            >(r@[i].1, config@, candidates@[i].build, as_arrivals(ticks@)),
{
    let mut out: Vec<(String, RunResult)> = Vec::new();
    let mut i: usize = 0;
    while i < candidates.len()
        invariant
            i <= candidates@.len(),
            out@.len() == i,
            config@.wf(),
            forall|k: int|
                0 <= k < candidates@.len() ==> call_requires(#[trigger] candidates@[k].build, ()),
            forall|k: int|
                0 <= k < i ==> (#[trigger] out@[k]).0@ == candidates@[k].id@ && ran_built::<
                    S,
                    B,
                >(out@[k].1, config@, candidates@[k].build, as_arrivals(ticks@)),
        decreases candidates@.len() - i,
    {
        let candidate = &candidates[i];
        assert(call_requires(candidates@[i as int].build, ()));
        let mut strategy = (candidate.build)();
        let ghost from = strategy;
        let result = run(config, &mut strategy, ticks);
        assert(result.came_of(config@, as_arrivals(ticks@), from, strategy));
        out.push((copy_text(&candidate.id), result));
        i += 1;
    }
    out
}

/// The labels of the results that were not scored.
pub open spec fn unscored(results: Seq<(String, RunResult)>, scored: Seq<bool>) -> Seq<Seq<char>>
    decreases results.len(),
{
    if results.len() == 0 {
        Seq::empty()
    } else {
        let before = unscored(results.drop_last(), scored);
        if scored[results.len() - 1] {
            before
        } else {
            before.push(results.last().0@)
        }
    }
}

impl<F: Figure> SweepReport<F> {
    /// A sweep's report. `scored[i]` says whether result `i` had enough
    /// returns to score.
    pub fn of(
        results: Vec<(String, RunResult)>,
        equity_every: usize,
        scored: &Vec<bool>,
        deflated_sharpe: Result<F, String>,
        pbo: Result<PboReport<F>, String>,
    ) -> (r: Self)
        requires
            scored@.len() == results@.len(),
        ensures
            r.results@ == results@,
            r.equity_every == equity_every,
            r.deflated_sharpe == deflated_sharpe,
            r.pbo == pbo,
            r.unscorable@.map_values(|s: String| s@) == unscored(results@, scored@),
            r.lookahead is None,
    {
        let ghost text = |s: String| s@;
        let mut unscorable: Vec<String> = Vec::new();
        let mut i: usize = 0;
        assert(results@.subrange(0, 0) =~= Seq::<(String, RunResult)>::empty());
        assert(unscorable@.map_values(text) =~= Seq::<Seq<char>>::empty());
        while i < results.len()
            invariant
                i <= results@.len(),
                scored@.len() == results@.len(),
                text == (|s: String| s@),
                unscorable@.map_values(text) == unscored(
                    results@.subrange(0, i as int),
                    scored@,
                ),
            decreases results@.len() - i,
        {
            let ghost before = unscorable@;
            proof {
                let now = results@.subrange(0, i + 1);
                assert(now.drop_last() =~= results@.subrange(0, i as int));
                assert(now.last() == results@[i as int]);
            }
            if !scored[i] {
                let id = copy_text(&results[i].0);
                unscorable.push(id);
                assert(unscorable@.map_values(text) =~= before.map_values(text).push(id@));
            }
            i += 1;
        }
        assert(results@.subrange(0, i as int) =~= results@);
        SweepReport { results, equity_every, deflated_sharpe, pbo, unscorable, lookahead: None }
    }
}

/// The returns of the results that were scored, in order.
pub open spec fn scored_of<F: Figure>(
    results: Seq<(String, RunResult)>,
    scored: Seq<bool>,
) -> Seq<Seq<F>>
    decreases results.len(),
{
    if results.len() == 0 {
        Seq::empty()
    } else {
        let before = scored_of::<F>(results.drop_last(), scored);
        if scored[results.len() - 1] {
            before.push(returns_of::<F>(results.last().1.equity_curve@))
        } else {
            before
        }
    }
}

/// The columns a sweep's overfitting statistic is made of: the returns of each
/// result that was scored. `scored[i]` says so of result `i`.
pub fn scored_returns<F: Figure>(results: &Vec<(String, RunResult)>, scored: &Vec<bool>) -> (r: Vec<
    Vec<F>,
>)
    requires
        scored@.len() == results@.len(),
    ensures
        r@.map_values(|c: Vec<F>| c@) == scored_of::<F>(results@, scored@),
{
    let ghost held = |c: Vec<F>| c@;
    let mut columns: Vec<Vec<F>> = Vec::new();
    let mut i: usize = 0;
    assert(results@.subrange(0, 0) =~= Seq::<(String, RunResult)>::empty());
    assert(columns@.map_values(held) =~= Seq::<Seq<F>>::empty());
    while i < results.len()
        invariant
            i <= results@.len(),
            scored@.len() == results@.len(),
            held == (|c: Vec<F>| c@),
            columns@.map_values(held) == scored_of::<F>(results@.subrange(0, i as int), scored@),
        decreases results@.len() - i,
    {
        let ghost before = columns@;
        proof {
            let now = results@.subrange(0, i + 1);
            assert(now.drop_last() =~= results@.subrange(0, i as int));
            assert(now.last() == results@[i as int]);
        }
        if scored[i] {
            let column = simple_returns::<F>(results[i].1.equity_curve.as_slice());
            columns.push(column);
            assert(columns@.map_values(held) =~= before.map_values(held).push(column@));
        }
        i += 1;
    }
    assert(results@.subrange(0, i as int) =~= results@);
    columns
}

/// The length of the shortest column.
pub open spec fn shortest<F>(columns: Seq<Vec<F>>) -> nat
    decreases columns.len(),
{
    if columns.len() == 0 {
        0
    } else if columns.len() == 1 {
        columns[0]@.len()
    } else {
        let before = shortest(columns.drop_last());
        if columns.last()@.len() < before {
            columns.last()@.len()
        } else {
            before
        }
    }
}

/// Columns of returns cut to a common length, for a statistic that needs a
/// rectangle; or why there are too few to split. Cut rather than padded: a
/// padded column would invent returns.
pub fn rectangle<F: Figure>(columns: &Vec<Vec<F>>) -> (r: Result<Vec<Vec<F>>, String>)
    ensures
        match r {
            Ok(cut) => {
                &&& columns@.len() >= 2
                &&& shortest(columns@) >= 32
                &&& cut@.len() == columns@.len()
                &&& forall|i: int|
                    0 <= i < cut@.len() ==> (#[trigger] cut@[i])@ == columns@[i]@.subrange(
                        0,
                        shortest(columns@) as int,
                    )
            },
            Err(why) => if columns@.len() < 2 {
                why@ == "fewer than two scorable configurations"@
            } else {
                &&& shortest(columns@) < 32
                &&& why@ == decimal(shortest(columns@) as int)
                    + " sampled returns per configuration; 32 are needed for 16 blocks"@
            },
        },
{
    if columns.len() < 2 {
        return Err("fewer than two scorable configurations".to_owned());
    }
    let mut least: usize = columns[0].len();
    let mut i: usize = 1;
    assert(columns@.subrange(0, 1).len() == 1);
    while i < columns.len()
        invariant
            1 <= i <= columns@.len(),
            least == shortest(columns@.subrange(0, i as int)),
            forall|k: int| 0 <= k < i ==> least <= (#[trigger] columns@[k])@.len(),
        decreases columns@.len() - i,
    {
        proof {
            let now = columns@.subrange(0, i + 1);
            assert(now.drop_last() =~= columns@.subrange(0, i as int));
            assert(now.last() == columns@[i as int]);
        }
        if columns[i].len() < least {
            least = columns[i].len();
        }
        i += 1;
    }
    assert(columns@.subrange(0, i as int) =~= columns@);
    if least < 32 {
        let mut why = String::new();
        put_digits(&mut why, least as u64);
        put(&mut why, " sampled returns per configuration; 32 are needed for 16 blocks");
        assert(why@ =~= decimal(least as int)
            + " sampled returns per configuration; 32 are needed for 16 blocks"@);
        return Err(why);
    }
    let mut cut: Vec<Vec<F>> = Vec::new();
    let mut c: usize = 0;
    while c < columns.len()
        invariant
            c <= columns@.len(),
            cut@.len() == c,
            least == shortest(columns@),
            forall|k: int| 0 <= k < columns@.len() ==> least <= (#[trigger] columns@[k])@.len(),
            forall|k: int|
                0 <= k < c ==> (#[trigger] cut@[k])@ == columns@[k]@.subrange(0, least as int),
        decreases columns@.len() - c,
    {
        let column = &columns[c];
        assert(least <= columns@[c as int]@.len());
        let mut part: Vec<F> = Vec::new();
        let mut j: usize = 0;
        while j < least
            invariant
                j <= least <= column@.len(),
                part@ == column@.subrange(0, j as int),
            decreases least - j,
        {
            part.push(column[j]);
            j += 1;
            assert(part@ =~= column@.subrange(0, j as int));
        }
        cut.push(part);
        c += 1;
    }
    Ok(cut)
}

/// Thresholds a sweep's statistics must clear to be packaged.
#[derive(Clone, Copy, Debug, PartialEq)]
pub struct Thresholds<F> {
    /// Largest acceptable probability of backtest overfitting.
    pub max_pbo: F,
    /// Smallest acceptable deflated Sharpe ratio.
    pub min_deflated_sharpe: F,
    /// The slope of out-of-sample on in-sample Sharpe that must be exceeded.
    pub min_degradation_slope: F,
}

impl<F: Figure> Thresholds<F> {
    /// Conventions rather than findings: thirty-five hundredths for the first,
    /// ninety-five for the second, and nought for the slope, where its meaning
    /// changes sign.
    pub fn usual() -> (r: Self)
        ensures
            r == (Thresholds {
                max_pbo: F::quotient_of(35, 100),
                min_deflated_sharpe: F::quotient_of(95, 100),
                min_degradation_slope: F::quotient_of(0, 1),
            }),
    {
        Thresholds {
            max_pbo: F::ratio(35, 100),
            min_deflated_sharpe: F::ratio(95, 100),
            min_degradation_slope: F::ratio(0, 1),
        }
    }
}

/// Why a sweep must not be packaged for deployment.
#[derive(Clone, Debug, PartialEq)]
pub enum Refusal<F> {
    /// The probability of overfitting is too high.
    Overfit { pbo: F, limit: F },
    /// In-sample rank carries no out-of-sample information.
    NoInformation { slope: F, limit: F },
    /// The deflated Sharpe ratio is too low.
    Deflated { value: F, limit: F },
    /// A statistic could not be computed at all.
    Unscored { statistic: &'static str, why: String },
}

/// What a refusal says.
#[verifier::ext_equal]
pub enum RefusalView<F> {
    Overfit { pbo: F, limit: F },
    NoInformation { slope: F, limit: F },
    Deflated { value: F, limit: F },
    Unscored { statistic: Seq<char>, why: Seq<char> },
}

impl<F: Figure> View for Refusal<F> {
    type V = RefusalView<F>;

    open spec fn view(&self) -> RefusalView<F> {
        match *self {
            Refusal::Overfit { pbo, limit } => RefusalView::Overfit { pbo, limit },
            Refusal::NoInformation { slope, limit } => RefusalView::NoInformation { slope, limit },
            Refusal::Deflated { value, limit } => RefusalView::Deflated { value, limit },
            Refusal::Unscored { statistic, why } => RefusalView::Unscored {
                statistic: statistic@,
                why: why@,
            },
        }
    }
}

impl<F: Figure> RefusalView<F> {
    pub open spec fn text(self) -> Seq<char> {
        match self {
            RefusalView::Overfit { pbo, limit } => "probability of backtest overfitting is "@
                + pbo.fixed_text(3) + ", above the limit of "@ + limit.fixed_text(3)
                + ": this search is likelier to have found its own noise than an edge"@,
            RefusalView::NoInformation { slope, limit } =>
            "out-of-sample Sharpe regressed on in-sample Sharpe has slope "@ + slope.fixed_text(3)
                + ", at or below "@ + limit.fixed_text(3)
                + ": ranking the configurations in sample predicted nothing about them out of sample, so the winner is the one that fit the noise best"@,
            RefusalView::Deflated { value, limit } => "deflated Sharpe ratio is "@
                + value.fixed_text(3) + ", below the limit of "@ + limit.fixed_text(3)
                + ": the result does not survive the number of trials that produced it"@,
            RefusalView::Unscored { statistic, why } => statistic + " could not be computed ("@
                + why
                + "); a sweep that could not be scored is not a sweep that scored well"@,
        }
    }
}

impl<F: Figure> Refusal<F> {
    /// The refusal in words.
    pub fn to_text(&self) -> (r: String)
        ensures
            r@ == self@.text(),
    {
        match self {
            Refusal::Overfit { pbo, limit } => {
                let mut out = "probability of backtest overfitting is ".to_owned();
                put(&mut out, pbo.to_fixed(3).as_str());
                put(&mut out, ", above the limit of ");
                put(&mut out, limit.to_fixed(3).as_str());
                put(
                    &mut out,
                    ": this search is likelier to have found its own noise than an edge",
                );
                out
            },
            Refusal::NoInformation { slope, limit } => {
                let mut out =
                    "out-of-sample Sharpe regressed on in-sample Sharpe has slope ".to_owned();
                put(&mut out, slope.to_fixed(3).as_str());
                put(&mut out, ", at or below ");
                put(&mut out, limit.to_fixed(3).as_str());
                put(
                    &mut out,
                    ": ranking the configurations in sample predicted nothing about them out of sample, so the winner is the one that fit the noise best",
                );
                out
            },
            Refusal::Deflated { value, limit } => {
                let mut out = "deflated Sharpe ratio is ".to_owned();
                put(&mut out, value.to_fixed(3).as_str());
                put(&mut out, ", below the limit of ");
                put(&mut out, limit.to_fixed(3).as_str());
                put(
                    &mut out,
                    ": the result does not survive the number of trials that produced it",
                );
                out
            },
            Refusal::Unscored { statistic, why } => {
                let mut out = (*statistic).to_owned();
                put(&mut out, " could not be computed (");
                put(&mut out, why.as_str());
                put(
                    &mut out,
                    "); a sweep that could not be scored is not a sweep that scored well",
                );
                out
            },
        }
    }
}

/// Why the overfitting statistic refuses a sweep.
pub open spec fn pbo_refusals<F: Figure>(
    pbo: Result<PboReport<F>, String>,
    t: Thresholds<F>,
) -> Seq<RefusalView<F>> {
    match pbo {
        Ok(p) => (if p.pbo.above(t.max_pbo) {
            seq![RefusalView::Overfit { pbo: p.pbo, limit: t.max_pbo }]
        } else {
            Seq::empty()
        }) + (if p.performance_degradation.at_most(t.min_degradation_slope) {
            seq![
                RefusalView::NoInformation {
                    slope: p.performance_degradation,
                    limit: t.min_degradation_slope,
                },
            ]
        } else {
            Seq::empty()
        }),
        Err(why) => seq![
            RefusalView::Unscored {
                statistic: "probability of backtest overfitting"@,
                why: why@,
            },
        ],
    }
}

/// Why the deflated Sharpe ratio refuses a sweep.
pub open spec fn sharpe_refusals<F: Figure>(
    deflated: Result<F, String>,
    t: Thresholds<F>,
) -> Seq<RefusalView<F>> {
    match deflated {
        Ok(d) => if t.min_deflated_sharpe.above(d) {
            seq![RefusalView::Deflated { value: d, limit: t.min_deflated_sharpe }]
        } else {
            Seq::empty()
        },
        Err(why) => seq![
            RefusalView::Unscored { statistic: "deflated Sharpe ratio"@, why: why@ },
        ],
    }
}

impl<F: Figure> SweepReport<F> {
    /// Every reason this sweep must not be packaged: all of them, not the
    /// first.
    pub open spec fn reasons(&self, t: Thresholds<F>) -> Seq<RefusalView<F>> {
        pbo_refusals(self.pbo, t) + sharpe_refusals(self.deflated_sharpe, t)
    }

    /// Every reason this sweep must not be packaged for deployment.
    pub fn refusals(&self, thresholds: Thresholds<F>) -> (r: Vec<Refusal<F>>)
        ensures
            r@.map_values(|x: Refusal<F>| x@) == self.reasons(thresholds),
    {
        let ghost said = |x: Refusal<F>| x@;
        let mut out: Vec<Refusal<F>> = Vec::new();
        match &self.pbo {
            Ok(p) => {
                if p.pbo.exceeds(thresholds.max_pbo) {
                    out.push(Refusal::Overfit { pbo: p.pbo, limit: thresholds.max_pbo });
                }
                if p.performance_degradation.within(thresholds.min_degradation_slope) {
                    out.push(
                        Refusal::NoInformation {
                            slope: p.performance_degradation,
                            limit: thresholds.min_degradation_slope,
                        },
                    );
                }
            },
            Err(why) => {
                out.push(
                    Refusal::Unscored {
                        statistic: "probability of backtest overfitting",
                        why: copy_text(why),
                    },
                );
            },
        }
        let ghost first = out@;
        assert(first.map_values(said) =~= pbo_refusals(self.pbo, thresholds));
        match &self.deflated_sharpe {
            Ok(d) => {
                if thresholds.min_deflated_sharpe.exceeds(*d) {
                    out.push(
                        Refusal::Deflated { value: *d, limit: thresholds.min_deflated_sharpe },
                    );
                }
            },
            Err(why) => {
                out.push(
                    Refusal::Unscored { statistic: "deflated Sharpe ratio", why: copy_text(why) },
                );
            },
        }
        assert(out@.map_values(said) =~= self.reasons(thresholds));
        out
    }

    /// Whether this sweep may be packaged for deployment.
    pub fn deployable(&self, thresholds: Thresholds<F>) -> (r: bool)
        ensures
            r == (self.reasons(thresholds).len() == 0),
    {
        let all = self.refusals(thresholds);
        assert(all@.len() == all@.map_values(|x: Refusal<F>| x@).len());
        all.len() == 0
    }
}

/// A sweep may be packaged only where both statistics were computed and every
/// one of the three clears its threshold. A sweep that could not be scored is
/// not one that scored well.
pub proof fn law_deployable_means_every_threshold_is_cleared<F: Figure>(
    report: SweepReport<F>,
    t: Thresholds<F>,
)
    ensures
        report.reasons(t).len() == 0 <==> {
            &&& report.pbo matches Ok(p)
            &&& !p.pbo.above(t.max_pbo)
            &&& !p.performance_degradation.at_most(t.min_degradation_slope)
            &&& report.deflated_sharpe matches Ok(d)
            &&& !t.min_deflated_sharpe.above(d)
        },
{
}

/// A sweep that fails on several statistics is refused on each of them.
pub proof fn law_every_failure_is_reported<F: Figure>(report: SweepReport<F>, t: Thresholds<F>)
    requires
        report.pbo is Ok,
    ensures
        ({
            let p = report.pbo->Ok_0;
            let reasons = report.reasons(t);
            &&& p.pbo.above(t.max_pbo) ==> reasons.contains(
                RefusalView::Overfit { pbo: p.pbo, limit: t.max_pbo },
            )
            &&& p.performance_degradation.at_most(t.min_degradation_slope) ==> reasons.contains(
                RefusalView::NoInformation {
                    slope: p.performance_degradation,
                    limit: t.min_degradation_slope,
                },
            )
        }),
{
    let p = report.pbo->Ok_0;
    let reasons = report.reasons(t);
    if p.pbo.above(t.max_pbo) {
        assert(reasons[0] == (RefusalView::Overfit { pbo: p.pbo, limit: t.max_pbo }));
        if p.performance_degradation.at_most(t.min_degradation_slope) {
            assert(reasons[1] == (RefusalView::NoInformation {
                slope: p.performance_degradation,
                limit: t.min_degradation_slope,
            }));
        }
    } else if p.performance_degradation.at_most(t.min_degradation_slope) {
        assert(reasons[0] == (RefusalView::NoInformation {
            slope: p.performance_degradation,
            limit: t.min_degradation_slope,
        }));
    }
}

/// Every result is scored or named as unscored, and is so as it was said to
/// be: a scored one brings its returns, and another its label, in the order of
/// the results.
pub proof fn law_every_result_is_scored_or_named<F: Figure>(
    results: Seq<(String, RunResult)>,
    scored: Seq<bool>,
    more: (String, RunResult),
    is_scored: bool,
)
    requires
        scored.len() == results.len(),
    ensures
        scored_of::<F>(Seq::empty(), scored).len() == 0,
        unscored(Seq::empty(), scored).len() == 0,
        scored_of::<F>(results, scored).len() + unscored(results, scored).len() == results.len(),
        is_scored ==> scored_of::<F>(results.push(more), scored.push(is_scored)) == scored_of::<F>(
            results,
            scored,
        ).push(returns_of::<F>(more.1.equity_curve@)) && unscored(
            results.push(more),
            scored.push(is_scored),
        ) == unscored(results, scored),
        !is_scored ==> unscored(results.push(more), scored.push(is_scored)) == unscored(
            results,
            scored,
        ).push(more.0@) && scored_of::<F>(results.push(more), scored.push(is_scored))
            == scored_of::<F>(results, scored),
    decreases results.len(),
{
    assert(results.push(more).drop_last() =~= results);
    lemma_scores_stand::<F>(results, scored, is_scored);
    if results.len() > 0 {
        let rest = results.drop_last();
        let flags = scored.drop_last();
        law_every_result_is_scored_or_named::<F>(rest, flags, results.last(), scored.last());
        assert(rest.push(results.last()) =~= results);
        assert(flags.push(scored.last()) =~= scored);
    }
}

/// What is said of a later result changes nothing for the earlier ones.
proof fn lemma_scores_stand<F: Figure>(
    results: Seq<(String, RunResult)>,
    scored: Seq<bool>,
    extra: bool,
)
    requires
        results.len() <= scored.len(),
    ensures
        scored_of::<F>(results, scored.push(extra)) == scored_of::<F>(results, scored),
        unscored(results, scored.push(extra)) == unscored(results, scored),
    decreases results.len(),
{
    if results.len() > 0 {
        lemma_scores_stand::<F>(results.drop_last(), scored, extra);
    }
}

/// The shortest column is one of them, and no column is shorter.
pub proof fn law_no_column_is_shorter<F>(columns: Seq<Vec<F>>, i: int)
    requires
        0 <= i < columns.len(),
    ensures
        shortest(columns) <= columns[i]@.len(),
        exists|k: int| 0 <= k < columns.len() && shortest(columns) == (#[trigger] columns[k])@.len(),
    decreases columns.len(),
{
    if columns.len() == 1 {
        assert(columns[0]@.len() == shortest(columns));
    } else {
        let rest = columns.drop_last();
        let j = if i < rest.len() {
            i
        } else {
            0
        };
        law_no_column_is_shorter(rest, j);
        assert(rest[j] == columns[j]);
        let k = choose|k: int| 0 <= k < rest.len() && shortest(rest) == (#[trigger] rest[k])@.len();
        assert(columns[k] == rest[k]);
        assert(columns[columns.len() - 1] == columns.last());
    }
}

/// A sweep whose deflated ratio falls short is refused for that, and one with
/// a statistic that could not be computed is refused for that, with the reason
/// given.
pub proof fn law_an_unscored_statistic_is_a_failure<F: Figure>(
    report: SweepReport<F>,
    t: Thresholds<F>,
)
    ensures
        ({
            let reasons = report.reasons(t);
            &&& report.deflated_sharpe matches Ok(d) ==> t.min_deflated_sharpe.above(d)
                ==> reasons.contains(
                RefusalView::Deflated { value: d, limit: t.min_deflated_sharpe },
            )
            &&& report.deflated_sharpe matches Err(why) ==> reasons.contains(
                RefusalView::Unscored { statistic: "deflated Sharpe ratio"@, why: why@ },
            )
            &&& report.pbo matches Err(why) ==> reasons.contains(
                RefusalView::Unscored {
                    statistic: "probability of backtest overfitting"@,
                    why: why@,
                },
            )
        }),
{
    let a = pbo_refusals(report.pbo, t);
    let b = sharpe_refusals(report.deflated_sharpe, t);
    let reasons = report.reasons(t);
    if b.len() > 0 {
        assert(reasons[a.len() as int] == b[0]);
    }
    if report.pbo is Err {
        assert(reasons[0] == a[0]);
    }
}

} // verus!
