//! Whether a strategy's decisions depend on data it could not yet have.
//!
//! The test is prefix invariance. Run once over the whole window and record
//! every intent and the tick it was sent on. Then, for a tick on which the
//! strategy acted, build a fresh strategy from the data up to that tick only,
//! run it over the same prefix, and compare every intent through that tick.
//! Each check reruns a prefix, so points are sampled evenly up to a bound and
//! the report says how many of how many were checked.
use crate::backtest::run::{
    as_arrivals, conversed, lemma_one_more, ran, ConfigView, RunConfig, Session,
};
use crate::backtest::run_laws::{lemma_conversed_one_way, lemma_conversed_prefix};
use crate::backtest::strategy::{settled, Intent, Strategy};
use crate::engine::observation::{Observation, ObservationView};
use crate::engine::tick::Tick;
use crate::text::copy_all;
use crate::types::Nanos;
use vstd::prelude::*;
use vstd::slice::slice_subrange;

verus! {

/// The default bound on truncation points.
pub const DEFAULT_POINTS: usize = 200;

/// An intent and the tick it was sent on.
pub type Sent = (usize, Intent);

/// The first tick at which two runs sent different orders.
#[derive(Debug, PartialEq, Eq)]
pub struct Divergence {
    /// The truncation point whose rerun disagreed.
    pub checked_at: usize,
    /// The tick where they first differ, at or before `checked_at`.
    pub tick: usize,
    /// That tick's exchange time.
    pub at: Nanos,
    /// What the run over the whole window sent on it.
    pub full: Vec<Intent>,
    /// What the run over the prefix sent on it.
    pub truncated: Vec<Intent>,
}

/// What a divergence says.
#[verifier::ext_equal]
pub struct DivergenceView {
    pub checked_at: usize,
    pub tick: usize,
    pub at: Nanos,
    pub full: Seq<Intent>,
    pub truncated: Seq<Intent>,
}

impl View for Divergence {
    type V = DivergenceView;

    open spec fn view(&self) -> DivergenceView {
        DivergenceView {
            checked_at: self.checked_at,
            tick: self.tick,
            at: self.at,
            full: self.full@,
            truncated: self.truncated@,
        }
    }
}

impl Clone for Divergence {
    fn clone(&self) -> (r: Self)
        ensures
            r@ == self@,
    {
        Divergence {
            checked_at: self.checked_at,
            tick: self.tick,
            at: self.at,
            full: copy_all(&self.full),
            truncated: copy_all(&self.truncated),
        }
    }
}

/// What the check found.
#[derive(Debug, PartialEq, Eq)]
pub struct LookaheadReport {
    /// Ticks on which the full run sent anything.
    pub signals: usize,
    /// Of those, how many were rerun.
    pub checked: usize,
    /// Every checked point whose rerun disagreed.
    pub divergences: Vec<Divergence>,
}

/// What divergences say.
pub open spec fn divergences_seen(list: Seq<Divergence>) -> Seq<DivergenceView> {
    list.map_values(|d: Divergence| d@)
}

impl Clone for LookaheadReport {
    fn clone(&self) -> (r: Self)
        ensures
            r.signals == self.signals,
            r.checked == self.checked,
            divergences_seen(r.divergences@) == divergences_seen(self.divergences@),
    {
        let ghost all = divergences_seen(self.divergences@);
        let mut divergences: Vec<Divergence> = Vec::new();
        let mut i: usize = 0;
        while i < self.divergences.len()
            invariant
                i <= self.divergences@.len(),
                all == divergences_seen(self.divergences@),
                divergences_seen(divergences@) == all.subrange(0, i as int),
            decreases self.divergences@.len() - i,
        {
            let ghost had = divergences_seen(divergences@);
            divergences.push(self.divergences[i].clone());
            i += 1;
            assert(divergences_seen(divergences@) =~= had.push(all[i - 1]));
            assert(divergences_seen(divergences@) =~= all.subrange(0, i as int));
        }
        assert(divergences_seen(divergences@) =~= all);
        LookaheadReport { signals: self.signals, checked: self.checked, divergences }
    }
}

impl LookaheadReport {
    /// No checked point disagreed.
    pub fn clean(&self) -> (r: bool)
        ensures
            r == (self.divergences@.len() == 0),
    {
        self.divergences.len() == 0
    }

    /// Fewer points were checked than there were signals.
    pub fn sampled(&self) -> (r: bool)
        ensures
            r == (self.checked < self.signals),
    {
        self.checked < self.signals
    }
}

/// Intents tagged with the tick they belong to.
pub open spec fn tagged(tick: usize, intents: Seq<Intent>) -> Seq<Sent> {
    intents.map_values(|i: Intent| (tick, i))
}

/// Every intent of a run, in the order it was sent: `answers[i]` on tick `i`.
pub open spec fn recorded(answers: Seq<Seq<Intent>>) -> Seq<Sent>
    decreases answers.len(),
{
    if answers.len() == 0 {
        Seq::empty()
    } else {
        recorded(answers.drop_last()) + tagged((answers.len() - 1) as usize, answers.last())
    }
}

/// Whether a strategy that starts as `from`, run over ticks, may have sent
/// what it did.
pub open spec fn sent_by<S: Strategy>(
    config: ConfigView,
    ticks: Seq<Tick>,
    from: S,
    sent: Seq<Sent>,
) -> bool {
    exists|answers: Seq<Seq<Intent>>, to: S|
        answers.len() == ticks.len() && sent == recorded(answers) && #[trigger] conversed(
            config,
            as_arrivals(ticks),
            answers,
            from,
            to,
        )
}

/// Whether a strategy that `build` made of the ticks it is run over may have
/// sent what it did.
pub open spec fn sent_built<S: Strategy, F: Fn(&[Tick]) -> S>(
    config: ConfigView,
    build: F,
    ticks: Seq<Tick>,
    sent: Seq<Sent>,
) -> bool {
    exists|known: &[Tick], from: S| #[trigger]
        call_ensures(build, (known,), from) && known@ == ticks && sent_by(config, ticks, from, sent)
}

/// A run of values with repeats of the one before left out.
pub open spec fn deduped(s: Seq<usize>) -> Seq<usize>
    decreases s.len(),
{
    if s.len() == 0 {
        s
    } else {
        let before = deduped(s.drop_last());
        if before.len() > 0 && before.last() == s.last() {
            before
        } else {
            before.push(s.last())
        }
    }
}

/// The ticks on which anything was sent.
pub open spec fn signals_of(sent: Seq<Sent>) -> Seq<usize> {
    deduped(sent.map_values(|s: Sent| s.0))
}

/// Where the `k`-th of `max` evenly spread points of `n` candidates stands.
pub open spec fn spread_at(k: int, n: int, max: int) -> int {
    (k * (n - 1)) / (if max > 1 {
        max - 1
    } else {
        1
    })
}

/// Up to `max` of a run of candidates, evenly spread.
pub open spec fn spread_of(candidates: Seq<usize>, max: usize) -> Seq<usize> {
    if candidates.len() <= max {
        candidates
    } else {
        deduped(
            Seq::new(
                max as nat,
                |k: int| candidates[spread_at(k, candidates.len() as int, max as int)],
            ),
        )
    }
}

/// What was sent no later than a tick.
pub open spec fn through(sent: Seq<Sent>, point: usize) -> Seq<Sent>
    decreases sent.len(),
{
    if sent.len() == 0 {
        sent
    } else {
        let before = through(sent.drop_last(), point);
        if sent.last().0 <= point {
            before.push(sent.last())
        } else {
            before
        }
    }
}

/// What was sent on a tick.
pub open spec fn sent_on(sent: Seq<Sent>, tick: usize) -> Seq<Intent>
    decreases sent.len(),
{
    if sent.len() == 0 {
        Seq::empty()
    } else {
        let before = sent_on(sent.drop_last(), tick);
        if sent.last().0 == tick {
            before.push(sent.last().1)
        } else {
            before
        }
    }
}

/// Whether `i` is the first place where two lists differ; a list that is a
/// prefix of the other differs at its end.
pub open spec fn first_difference(a: Seq<Sent>, b: Seq<Sent>, i: int) -> bool {
    &&& 0 <= i <= a.len()
    &&& i <= b.len()
    &&& a.subrange(0, i) == b.subrange(0, i)
    &&& i < a.len() || i < b.len()
    &&& i < a.len() && i < b.len() ==> a[i] != b[i]
}

/// The tick two lists part on, given where they first differ.
pub open spec fn parting(a: Seq<Sent>, b: Seq<Sent>, i: int) -> usize {
    if i < a.len() && i < b.len() {
        if a[i].0 < b[i].0 {
            a[i].0
        } else {
            b[i].0
        }
    } else if i < a.len() {
        a[i].0
    } else {
        b[i].0
    }
}

/// What a rerun through a point shows: nothing where it agrees with the full
/// run, and otherwise where the two first part.
pub open spec fn shows(
    d: Option<DivergenceView>,
    full: Seq<Sent>,
    rerun: Seq<Sent>,
    point: usize,
    ticks: Seq<Tick>,
) -> bool {
    let a = through(full, point);
    let b = through(rerun, point);
    match d {
        None => a == b,
        Some(d) => {
            &&& a != b
            &&& exists|i: int| #[trigger]
                first_difference(a, b, i) && d.tick == parting(a, b, i)
            &&& d.checked_at == point
            &&& d.tick <= point
            &&& d.at == ticks[d.tick as int].stamp.exch
            &&& d.full == sent_on(a, d.tick)
            &&& d.truncated == sent_on(b, d.tick)
        },
    }
}

fn dedup(s: &Vec<usize>) -> (r: Vec<usize>)
    ensures
        r@ == deduped(s@),
{
    let mut out: Vec<usize> = Vec::new();
    let mut i: usize = 0;
    assert(s@.subrange(0, 0) =~= Seq::<usize>::empty());
    while i < s.len()
        invariant
            i <= s@.len(),
            out@ == deduped(s@.subrange(0, i as int)),
        decreases s@.len() - i,
    {
        proof {
            let now = s@.subrange(0, i + 1);
            assert(now.drop_last() =~= s@.subrange(0, i as int));
            assert(now.last() == s@[i as int]);
        }
        let n: usize = out.len();
        if !(n > 0 && out[n - 1] == s[i]) {
            out.push(s[i]);
        }
        i += 1;
    }
    assert(s@.subrange(0, i as int) =~= s@);
    out
}

proof fn lemma_spread_in_range(k: int, n: int, max: int)
    requires
        0 <= k < max,
        max < n,
    ensures
        0 <= spread_at(k, n, max) < n,
        0 <= k * (n - 1),
{
    let step = if max > 1 {
        max - 1
    } else {
        1
    };
    assert(0 <= k * (n - 1) <= step * (n - 1)) by (nonlinear_arith)
        requires
            0 <= k <= step,
            n - 1 >= 0,
    ;
    assert(0 <= (k * (n - 1)) / step <= n - 1) by (nonlinear_arith)
        requires
            0 <= k * (n - 1) <= step * (n - 1),
            step > 0,
    ;
}

/// Up to `max` of `candidates`, evenly spread, the first and the last among
/// them where there is room for both.
pub fn spread(candidates: &[usize], max: usize) -> (r: Vec<usize>)
    ensures
        r@ == spread_of(candidates@, max),
{
    let n: usize = candidates.len();
    if n <= max {
        let mut all: Vec<usize> = Vec::new();
        let mut i: usize = 0;
        while i < n
            invariant
                i <= n,
                n == candidates@.len(),
                all@ == candidates@.subrange(0, i as int),
            decreases n - i,
        {
            all.push(candidates[i]);
            i += 1;
            assert(all@ =~= candidates@.subrange(0, i as int));
        }
        assert(all@ =~= candidates@);
        return all;
    }
    let ghost picked = Seq::new(
        max as nat,
        |k: int| candidates@[spread_at(k, candidates@.len() as int, max as int)],
    );
    let step: usize = if max > 1 {
        max - 1
    } else {
        1
    };
    let mut out: Vec<usize> = Vec::new();
    let mut k: usize = 0;
    while k < max
        invariant
            k <= max,
            n == candidates@.len(),
            max < n,
            step > 0,
            step == (if max > 1 {
                max - 1
            } else {
                1
            }),
            picked == Seq::new(
                max as nat,
                |k: int| candidates@[spread_at(k, candidates@.len() as int, max as int)],
            ),
            out@ == picked.subrange(0, k as int),
        decreases max - k,
    {
        proof {
            lemma_spread_in_range(k as int, n as int, max as int);
            assert(k * (n - 1) <= 0xffff_ffff_ffff_ffff * 0xffff_ffff_ffff_ffff) by (nonlinear_arith)
                requires
                    0 <= k <= 0xffff_ffff_ffff_ffff,
                    0 <= n - 1 <= 0xffff_ffff_ffff_ffff,
            ;
        }
        let at: u128 = (k as u128 * (n - 1) as u128) / step as u128;
        assert(at == spread_at(k as int, n as int, max as int));
        out.push(candidates[at as usize]);
        k += 1;
        assert(out@ =~= picked.subrange(0, k as int));
    }
    assert(out@ =~= picked);
    dedup(&out)
}

/// What was sent on a tick.
pub fn intents_on(sent: &Vec<Sent>, tick: usize) -> (r: Vec<Intent>)
    ensures
        r@ == sent_on(sent@, tick),
{
    let mut out: Vec<Intent> = Vec::new();
    let mut i: usize = 0;
    assert(sent@.subrange(0, 0) =~= Seq::<Sent>::empty());
    while i < sent.len()
        invariant
            i <= sent@.len(),
            out@ == sent_on(sent@.subrange(0, i as int), tick),
        decreases sent@.len() - i,
    {
        proof {
            let now = sent@.subrange(0, i + 1);
            assert(now.drop_last() =~= sent@.subrange(0, i as int));
            assert(now.last() == sent@[i as int]);
        }
        if sent[i].0 == tick {
            out.push(sent[i].1);
        }
        i += 1;
    }
    assert(sent@.subrange(0, i as int) =~= sent@);
    out
}

fn cut(sent: &Vec<Sent>, point: usize) -> (r: Vec<Sent>)
    ensures
        r@ == through(sent@, point),
        forall|i: int| 0 <= i < r@.len() ==> (#[trigger] r@[i]).0 <= point,
{
    let mut out: Vec<Sent> = Vec::new();
    let mut i: usize = 0;
    assert(sent@.subrange(0, 0) =~= Seq::<Sent>::empty());
    while i < sent.len()
        invariant
            i <= sent@.len(),
            out@ == through(sent@.subrange(0, i as int), point),
            forall|k: int| 0 <= k < out@.len() ==> (#[trigger] out@[k]).0 <= point,
        decreases sent@.len() - i,
    {
        proof {
            let now = sent@.subrange(0, i + 1);
            assert(now.drop_last() =~= sent@.subrange(0, i as int));
            assert(now.last() == sent@[i as int]);
        }
        if sent[i].0 <= point {
            out.push(sent[i]);
        }
        i += 1;
    }
    assert(sent@.subrange(0, i as int) =~= sent@);
    out
}

/// Hold a rerun through `point` against the full run.
pub fn held_against(full: &Vec<Sent>, rerun: &Vec<Sent>, point: usize, ticks: &[Tick]) -> (r:
    Option<Divergence>)
    requires
        point < ticks@.len(),
    ensures
        shows(
            match r {
                Some(d) => Some(d@),
                None => None,
            },
            full@,
            rerun@,
            point,
            ticks@,
        ),
{
    let a = cut(full, point);
    let b = cut(rerun, point);
    let mut i: usize = 0;
    while i < a.len() && i < b.len() && a[i].0 == b[i].0 && a[i].1 == b[i].1
        invariant
            i <= a@.len(),
            i <= b@.len(),
            a@.subrange(0, i as int) == b@.subrange(0, i as int),
        decreases a@.len() - i,
    {
        i += 1;
        assert(a@.subrange(0, i as int) =~= b@.subrange(0, i as int));
    }
    if i == a.len() && i == b.len() {
        assert(a@ =~= a@.subrange(0, i as int));
        assert(b@ =~= b@.subrange(0, i as int));
        return None;
    }
    let tick: usize = if i < a.len() && i < b.len() {
        if a[i].0 < b[i].0 {
            a[i].0
        } else {
            b[i].0
        }
    } else if i < a.len() {
        a[i].0
    } else {
        b[i].0
    };
    proof {
        assert(first_difference(a@, b@, i as int));
        if a@ == b@ {
            assert(i < a@.len() && i < b@.len());
        }
    }
    Some(
        Divergence {
            checked_at: point,
            tick,
            at: ticks[tick].stamp.exch,
            full: intents_on(&a, tick),
            truncated: intents_on(&b, tick),
        },
    )
}

/// Run a strategy and record every intent it sends.
pub fn record<S: Strategy>(config: &RunConfig, strategy: &mut S, ticks: &[Tick]) -> (r: Vec<Sent>)
    requires
        config@.wf(),
    ensures
        sent_by(config@, ticks@, *old(strategy), r@),
{
    let mut session = Session::open(config);
    let ghost from = *strategy;
    let ghost mut answers: Seq<Seq<Intent>> = Seq::empty();
    assert(as_arrivals(ticks@.subrange(0, 0)) =~= Seq::<ObservationView>::empty());
    let mut sent: Vec<Sent> = Vec::new();
    let mut i: usize = 0;
    while i < ticks.len()
        invariant
            i <= ticks@.len(),
            session@.wf(),
            answers.len() == i,
            sent@ == recorded(answers),
            session@ == ran(config@, as_arrivals(ticks@.subrange(0, i as int)), answers),
            conversed(
                config@,
                as_arrivals(ticks@.subrange(0, i as int)),
                answers,
                from,
                *strategy,
            ),
        decreases ticks@.len() - i,
    {
        let ghost mid = *strategy;
        let intents = session.arrive(strategy, &Observation::Tick(ticks[i]));
        let ghost before = sent@;
        let mut j: usize = 0;
        while j < intents.len()
            invariant
                j <= intents@.len(),
                sent@ == before + tagged(i, intents@).subrange(0, j as int),
            decreases intents@.len() - j,
        {
            sent.push((i, intents[j]));
            j += 1;
            assert(sent@ =~= before + tagged(i, intents@).subrange(0, j as int));
        }
        proof {
            assert(tagged(i, intents@).subrange(0, j as int) =~= tagged(i, intents@));
            let next = answers.push(intents@);
            assert(next.drop_last() =~= answers);
            let seen = as_arrivals(ticks@.subrange(0, i as int));
            let o = ObservationView::Tick(ticks@[i as int]);
            lemma_one_more(config@, seen, answers, o, intents@, from, mid, *strategy);
            assert(seen.push(o) =~= as_arrivals(ticks@.subrange(0, i + 1)));
            answers = next;
        }
        i += 1;
    }
    assert(ticks@.subrange(0, i as int) =~= ticks@);
    sent
}

/// Every tick recorded is one of those run over.
proof fn lemma_recorded_in_range(answers: Seq<Seq<Intent>>)
    requires
        answers.len() <= usize::MAX,
    ensures
        forall|i: int|
            0 <= i < recorded(answers).len() ==> (#[trigger] recorded(answers)[i]).0
                < answers.len(),
    decreases answers.len(),
{
    if answers.len() > 0 {
        lemma_recorded_in_range(answers.drop_last());
        let before = recorded(answers.drop_last());
        let last = tagged((answers.len() - 1) as usize, answers.last());
        assert forall|i: int| 0 <= i < recorded(answers).len() implies (
        #[trigger] recorded(answers)[i]).0 < answers.len() by {
            if i < before.len() {
                assert(recorded(answers)[i] == before[i]);
            } else {
                assert(recorded(answers)[i] == last[i - before.len()]);
            }
        }
    }
}

/// Everything left of a run of values is one of them.
proof fn lemma_deduped_is_part(s: Seq<usize>, bound: int)
    requires
        forall|i: int| 0 <= i < s.len() ==> #[trigger] s[i] < bound,
    ensures
        forall|i: int| 0 <= i < deduped(s).len() ==> #[trigger] deduped(s)[i] < bound,
    decreases s.len(),
{
    if s.len() > 0 {
        let rest = s.drop_last();
        assert forall|i: int| 0 <= i < rest.len() implies #[trigger] rest[i] < bound by {
            assert(rest[i] == s[i]);
        }
        lemma_deduped_is_part(rest, bound);
        let before = deduped(rest);
        assert(s[s.len() - 1] < bound);
        assert forall|i: int| 0 <= i < deduped(s).len() implies #[trigger] deduped(s)[i]
            < bound by {
            if i < before.len() {
                assert(deduped(s)[i] == before[i]);
            }
        }
    }
}

proof fn lemma_spread_is_part(s: Seq<usize>, max: usize, bound: int)
    requires
        forall|i: int| 0 <= i < s.len() ==> #[trigger] s[i] < bound,
    ensures
        forall|i: int| 0 <= i < spread_of(s, max).len() ==> #[trigger] spread_of(s, max)[i] < bound,
{
    if s.len() > max {
        let picked = Seq::new(
            max as nat,
            |k: int| s[spread_at(k, s.len() as int, max as int)],
        );
        assert forall|k: int| 0 <= k < picked.len() implies #[trigger] picked[k] < bound by {
            lemma_spread_in_range(k, s.len() as int, max as int);
            assert(picked[k] == s[spread_at(k, s.len() as int, max as int)]);
        }
        lemma_deduped_is_part(picked, bound);
    }
}

/// The divergences a set of reruns shows, in the order of their points.
pub open spec fn found(
    full: Seq<Sent>,
    reruns: Seq<Seq<Sent>>,
    points: Seq<usize>,
    ticks: Seq<Tick>,
    divergences: Seq<DivergenceView>,
) -> bool
    decreases reruns.len(),
{
    if reruns.len() == 0 {
        divergences.len() == 0
    } else {
        let rest = reruns.drop_last();
        let point = points[reruns.len() - 1];
        ||| shows(None, full, reruns.last(), point, ticks) && found(
            full,
            rest,
            points,
            ticks,
            divergences,
        )
        ||| divergences.len() > 0 && shows(
            Some(divergences.last()),
            full,
            reruns.last(),
            point,
            ticks,
        ) && found(full, rest, points, ticks, divergences.drop_last())
    }
}

impl LookaheadReport {
    /// Whether this is what a full run and its reruns come to.
    pub open spec fn reports(
        &self,
        ticks: Seq<Tick>,
        max_points: usize,
        full: Seq<Sent>,
        reruns: Seq<Seq<Sent>>,
    ) -> bool {
        let signals = signals_of(full);
        let points = spread_of(signals, max_points);
        &&& self.signals == signals.len()
        &&& self.checked == points.len()
        &&& reruns.len() == points.len()
        &&& found(full, reruns, points, ticks, self.divergences@.map_values(|d: Divergence| d@))
    }
}

/// Whether a full run and its reruns are those of strategies that `build` made,
/// each from the ticks it was run over and no others.
pub open spec fn looked<S: Strategy, F: Fn(&[Tick]) -> S>(
    config: ConfigView,
    build: F,
    ticks: Seq<Tick>,
    max_points: usize,
    full: Seq<Sent>,
    reruns: Seq<Seq<Sent>>,
) -> bool {
    let points = spread_of(signals_of(full), max_points);
    &&& sent_built::<S, F>(config, build, ticks, full)
    &&& reruns.len() == points.len()
    &&& forall|k: int|
        0 <= k < reruns.len() ==> 0 <= points[k] < ticks.len() && sent_built::<S, F>(
            config,
            build,
            ticks.subrange(0, points[k] + 1),
            #[trigger] reruns[k],
        )
}

/// Check that `build`'s strategy decides the same way on a prefix of `ticks`
/// as on all of them. `build` is handed the data the strategy may know about:
/// the whole window for the reference run, the prefix for each rerun.
pub fn lookahead<S: Strategy, F: Fn(&[Tick]) -> S>(
    config: &RunConfig,
    build: F,
    ticks: &[Tick],
    max_points: usize,
) -> (r: LookaheadReport)
    requires
        config@.wf(),
        forall|known: &[Tick]| #[trigger] call_requires(build, (known,)),
    ensures
        exists|full: Seq<Sent>, reruns: Seq<Seq<Sent>>| #[trigger]
            r.reports(ticks@, max_points, full, reruns) && looked::<S, F>(
                config@,
                build,
                ticks@,
                max_points,
                full,
                reruns,
            ),
{
    let total: usize = ticks.len();
    let mut reference = build(ticks);
    let ghost first = reference;
    let full = record(config, &mut reference, ticks);
    assert(call_ensures(build, (ticks,), first));
    assert(sent_built::<S, F>(config@, build, ticks@, full@));
    let mut all: Vec<usize> = Vec::new();
    let mut i: usize = 0;
    let ghost places = full@.map_values(|s: Sent| s.0);
    while i < full.len()
        invariant
            i <= full@.len(),
            places == full@.map_values(|s: Sent| s.0),
            all@ == places.subrange(0, i as int),
        decreases full@.len() - i,
    {
        all.push(full[i].0);
        i += 1;
        assert(all@ =~= places.subrange(0, i as int));
    }
    assert(all@ =~= places);
    let candidates = dedup(&all);
    let points = spread(candidates.as_slice(), max_points);
    proof {
        let (answers, to) = choose|answers: Seq<Seq<Intent>>, to: S|
            answers.len() == ticks@.len() && full@ == recorded(answers) && #[trigger] conversed(
                config@,
                as_arrivals(ticks@),
                answers,
                first,
                to,
            );
        lemma_recorded_in_range(answers);
        assert forall|i: int| 0 <= i < places.len() implies #[trigger] places[i] < ticks@.len() by {
            assert(full@[i].0 < ticks@.len());
        }
        lemma_deduped_is_part(places, ticks@.len() as int);
        lemma_spread_is_part(candidates@, max_points, ticks@.len() as int);
    }
    let mut divergences: Vec<Divergence> = Vec::new();
    let ghost mut reruns: Seq<Seq<Sent>> = Seq::empty();
    let mut p: usize = 0;
    while p < points.len()
        invariant
            p <= points@.len(),
            reruns.len() == p,
            total == ticks@.len(),
            config@.wf(),
            forall|known: &[Tick]| #[trigger] call_requires(build, (known,)),
            forall|i: int| 0 <= i < points@.len() ==> #[trigger] points@[i] < ticks@.len(),
            found(
                full@,
                reruns,
                points@,
                ticks@,
                divergences@.map_values(|d: Divergence| d@),
            ),
            forall|k: int|
                0 <= k < reruns.len() ==> sent_built::<S, F>(
                    config@,
                    build,
                    ticks@.subrange(0, points@[k] + 1),
                    #[trigger] reruns[k],
                ),
        decreases points@.len() - p,
    {
        let point: usize = points[p];
        assert(points@[p as int] < total);
        let prefix = slice_subrange(ticks, 0, point + 1);
        let mut strategy = build(prefix);
        let ghost fresh = strategy;
        let rerun = record(config, &mut strategy, prefix);
        assert(call_ensures(build, (prefix,), fresh));
        assert(sent_built::<S, F>(config@, build, ticks@.subrange(0, point + 1), rerun@));
        let ghost before = divergences@.map_values(|d: Divergence| d@);
        let ghost next = reruns.push(rerun@);
        assert(next.drop_last() =~= reruns);
        match held_against(&full, &rerun, point, ticks) {
            Some(d) => {
                divergences.push(d);
                proof {
                    let now = divergences@.map_values(|d: Divergence| d@);
                    assert(now.drop_last() =~= before);
                    assert(now.last() == d@);
                }
            },
            None => {},
        }
        proof {
            reruns = next;
        }
        p += 1;
    }
    let r = LookaheadReport { signals: candidates.len(), checked: points.len(), divergences };
    assert(r.reports(ticks@, max_points, full@, reruns));
    r
}

/// A strategy that uses only the past is clean: where every rerun sends what
/// the full run sent through its point, nothing is found.
pub proof fn law_the_past_alone_is_clean(
    full: Seq<Sent>,
    reruns: Seq<Seq<Sent>>,
    points: Seq<usize>,
    ticks: Seq<Tick>,
    divergences: Seq<DivergenceView>,
)
    requires
        found(full, reruns, points, ticks, divergences),
        reruns.len() <= points.len(),
        forall|i: int|
            0 <= i < reruns.len() ==> through(full, points[i]) == through(
                #[trigger] reruns[i],
                points[i],
            ),
    ensures
        divergences.len() == 0,
    decreases reruns.len(),
{
    if reruns.len() > 0 {
        let rest = reruns.drop_last();
        assert(reruns[reruns.len() - 1] == reruns.last());
        assert forall|i: int| 0 <= i < rest.len() implies through(full, points[i]) == through(
            #[trigger] rest[i],
            points[i],
        ) by {
            assert(rest[i] == reruns[i]);
        }
        law_the_past_alone_is_clean(full, rest, points, ticks, divergences);
    }
}

/// What was sent through a tick is what was answered through it.
proof fn lemma_through_recorded(answers: Seq<Seq<Intent>>, point: usize)
    requires
        point < answers.len() <= usize::MAX,
    ensures
        through(recorded(answers), point) == recorded(answers.subrange(0, point + 1)),
    decreases answers.len(),
{
    let less = answers.drop_last();
    let last = (answers.len() - 1) as usize;
    if answers.len() == point + 1 {
        assert(answers.subrange(0, point + 1) =~= answers);
        lemma_recorded_in_range(answers);
        lemma_through_all(recorded(answers), point);
    } else {
        lemma_through_recorded(less, point);
        assert(less.subrange(0, point + 1) =~= answers.subrange(0, point + 1));
        lemma_through_later(recorded(less), tagged(last, answers.last()), point);
    }
}

/// Where nothing was sent after a tick, all was sent through it.
proof fn lemma_through_all(sent: Seq<Sent>, point: usize)
    requires
        forall|i: int| 0 <= i < sent.len() ==> (#[trigger] sent[i]).0 <= point,
    ensures
        through(sent, point) == sent,
    decreases sent.len(),
{
    if sent.len() > 0 {
        let less = sent.drop_last();
        assert forall|i: int| 0 <= i < less.len() implies (#[trigger] less[i]).0 <= point by {
            assert(less[i] == sent[i]);
        }
        lemma_through_all(less, point);
        assert(sent[sent.len() - 1].0 <= point);
        assert(less.push(sent.last()) =~= sent);
    }
}

/// What was sent after a tick is not among what was sent through it.
proof fn lemma_through_later(sent: Seq<Sent>, later: Seq<Sent>, point: usize)
    requires
        forall|i: int| 0 <= i < later.len() ==> (#[trigger] later[i]).0 > point,
    ensures
        through(sent + later, point) == through(sent, point),
    decreases later.len(),
{
    if later.len() == 0 {
        assert(sent + later =~= sent);
    } else {
        let less = later.drop_last();
        assert forall|i: int| 0 <= i < less.len() implies (#[trigger] less[i]).0 > point by {
            assert(less[i] == later[i]);
        }
        lemma_through_later(sent, less, point);
        assert((sent + later).drop_last() =~= sent + less);
        assert((sent + later).last() == later[later.len() - 1]);
    }
}

/// A settled strategy, started the same on ticks and on a prefix of them, sends
/// the same through the end of the prefix.
proof fn lemma_a_prefix_sends_the_same<S: Strategy>(
    config: ConfigView,
    ticks: Seq<Tick>,
    point: usize,
    from: S,
    full: Seq<Sent>,
    rerun: Seq<Sent>,
)
    requires
        settled::<S>(),
        point < ticks.len() <= usize::MAX,
        sent_by(config, ticks, from, full),
        sent_by(config, ticks.subrange(0, point + 1), from, rerun),
    ensures
        through(full, point) == through(rerun, point),
{
    let prefix = ticks.subrange(0, point + 1);
    let (long, end) = choose|answers: Seq<Seq<Intent>>, to: S|
        answers.len() == ticks.len() && full == recorded(answers) && #[trigger] conversed(
            config,
            as_arrivals(ticks),
            answers,
            from,
            to,
        );
    let (short, stop) = choose|answers: Seq<Seq<Intent>>, to: S|
        answers.len() == prefix.len() && rerun == recorded(answers) && #[trigger] conversed(
            config,
            as_arrivals(prefix),
            answers,
            from,
            to,
        );
    assert(as_arrivals(ticks).subrange(0, point + 1) =~= as_arrivals(prefix));
    let mid = lemma_conversed_prefix(config, as_arrivals(ticks), point + 1, long, from, end);
    lemma_conversed_one_way(config, as_arrivals(prefix), long, short, from, mid, stop);
    lemma_through_recorded(long, point);
    lemma_through_recorded(short, point);
}

/// A settled strategy that is built the same whatever ticks it is handed uses
/// only the past, and nothing is found of it.
pub proof fn law_a_strategy_that_knows_no_ticks_is_clean<S: Strategy, F: Fn(&[Tick]) -> S>(
    r: LookaheadReport,
    config: ConfigView,
    build: F,
    ticks: Seq<Tick>,
    max_points: usize,
    full: Seq<Sent>,
    reruns: Seq<Seq<Sent>>,
)
    requires
        ticks.len() <= usize::MAX,
        settled::<S>(),
        forall|p: &[Tick], s: S, q: &[Tick], t: S| #[trigger]
            call_ensures(build, (p,), s) && #[trigger] call_ensures(build, (q,), t) ==> s == t,
        r.reports(ticks, max_points, full, reruns),
        looked::<S, F>(config, build, ticks, max_points, full, reruns),
    ensures
        r.divergences@.len() == 0,
{
    let points = spread_of(signals_of(full), max_points);
    let (known, from) = choose|known: &[Tick], from: S| #[trigger]
        call_ensures(build, (known,), from) && known@ == ticks && sent_by(
            config,
            ticks,
            from,
            full,
        );
    assert forall|k: int| 0 <= k < reruns.len() implies through(full, points[k]) == through(
        #[trigger] reruns[k],
        points[k],
    ) by {
        let prefix = ticks.subrange(0, points[k] + 1);
        assert(sent_built::<S, F>(config, build, prefix, reruns[k]));
        let (p, again) = choose|p: &[Tick], again: S| #[trigger]
            call_ensures(build, (p,), again) && p@ == prefix && sent_by(
                config,
                prefix,
                again,
                reruns[k],
            );
        assert(again == from);
        lemma_a_prefix_sends_the_same(config, ticks, points[k], from, full, reruns[k]);
    }
    law_the_past_alone_is_clean(
        full,
        reruns,
        points,
        ticks,
        r.divergences@.map_values(|d: Divergence| d@),
    );
}

/// A clean report means that every rerun agreed.
pub proof fn law_clean_means_agreement(
    full: Seq<Sent>,
    reruns: Seq<Seq<Sent>>,
    points: Seq<usize>,
    ticks: Seq<Tick>,
)
    requires
        found(full, reruns, points, ticks, Seq::empty()),
        reruns.len() <= points.len(),
    ensures
        forall|i: int|
            0 <= i < reruns.len() ==> through(full, points[i]) == through(
                #[trigger] reruns[i],
                points[i],
            ),
    decreases reruns.len(),
{
    if reruns.len() > 0 {
        let rest = reruns.drop_last();
        law_clean_means_agreement(full, rest, points, ticks);
        assert forall|i: int| 0 <= i < reruns.len() implies through(full, points[i]) == through(
            #[trigger] reruns[i],
            points[i],
        ) by {
            if i < rest.len() {
                assert(rest[i] == reruns[i]);
            }
        }
    }
}

/// What is recorded of a run stands in the order of its ticks.
proof fn lemma_recorded_in_order(answers: Seq<Seq<Intent>>)
    requires
        answers.len() <= usize::MAX,
    ensures
        forall|i: int, j: int|
            0 <= i <= j < recorded(answers).len() ==> (#[trigger] recorded(answers)[i]).0 <= (
            #[trigger] recorded(answers)[j]).0,
    decreases answers.len(),
{
    if answers.len() > 0 {
        let less = answers.drop_last();
        lemma_recorded_in_order(less);
        lemma_recorded_in_range(less);
        let before = recorded(less);
        let tick = (answers.len() - 1) as usize;
        let last = tagged(tick, answers.last());
        let all = recorded(answers);
        assert forall|i: int, j: int| 0 <= i <= j < all.len() implies (#[trigger] all[i]).0 <= (
        #[trigger] all[j]).0 by {
            if j < before.len() {
                assert(all[i] == before[i] && all[j] == before[j]);
            } else {
                assert(all[j] == last[j - before.len()]);
                if i < before.len() {
                    assert(all[i] == before[i]);
                } else {
                    assert(all[i] == last[i - before.len()]);
                }
            }
        }
    }
}

/// A run of values in order, with its repeats left out, rises, and holds the
/// same values.
proof fn lemma_deduped_rises(s: Seq<usize>)
    requires
        forall|i: int, j: int| 0 <= i <= j < s.len() ==> #[trigger] s[i] <= #[trigger] s[j],
    ensures
        forall|i: int, j: int|
            0 <= i < j < deduped(s).len() ==> #[trigger] deduped(s)[i] < #[trigger] deduped(s)[j],
        forall|x: usize| #[trigger] deduped(s).contains(x) <==> s.contains(x),
        s.len() > 0 ==> deduped(s).len() > 0 && deduped(s).last() == s.last(),
    decreases s.len(),
{
    if s.len() > 0 {
        let less = s.drop_last();
        let before = deduped(less);
        let all = deduped(s);
        assert forall|i: int, j: int| 0 <= i <= j < less.len() implies #[trigger] less[i]
            <= #[trigger] less[j] by {
            assert(less[i] == s[i] && less[j] == s[j]);
        }
        lemma_deduped_rises(less);
        if less.len() > 0 {
            assert(s[less.len() - 1] <= s[s.len() - 1]);
        }
        assert forall|i: int, j: int| 0 <= i < j < all.len() implies #[trigger] all[i]
            < #[trigger] all[j] by {
            if all.len() > before.len() && j == before.len() {
                assert(all[i] == before[i]);
                if i + 1 < before.len() {
                    assert(before[i] < before[before.len() - 1]);
                }
            }
        }
        assert forall|x: usize| #[trigger] all.contains(x) <==> s.contains(x) by {
            if all.contains(x) {
                let k = choose|k: int| 0 <= k < all.len() && all[k] == x;
                if k < before.len() {
                    assert(before[k] == x && before.contains(x));
                    let m = choose|m: int| 0 <= m < less.len() && less[m] == x;
                    assert(s[m] == x);
                } else {
                    assert(s[s.len() - 1] == x);
                }
            }
            if s.contains(x) {
                let m = choose|m: int| 0 <= m < s.len() && s[m] == x;
                if m < less.len() {
                    assert(less[m] == s[m]);
                    assert(less.contains(x));
                    assert(before.contains(x));
                    let k = choose|k: int| 0 <= k < before.len() && before[k] == x;
                    assert(all[k] == x);
                } else {
                    assert(all[all.len() - 1] == x);
                }
            }
        }
    }
}

/// What a report counts: its signals are the ticks on which the full run sent
/// anything, each once and in order; as many are checked as the bound allows,
/// in order too; and it was sampled exactly where the bound left some out.
pub proof fn law_a_report_counts_its_signals<S: Strategy, F: Fn(&[Tick]) -> S>(
    r: LookaheadReport,
    config: ConfigView,
    build: F,
    ticks: Seq<Tick>,
    max_points: usize,
    full: Seq<Sent>,
    reruns: Seq<Seq<Sent>>,
)
    requires
        ticks.len() <= usize::MAX,
        r.reports(ticks, max_points, full, reruns),
        looked::<S, F>(config, build, ticks, max_points, full, reruns),
    ensures
        forall|t: usize| #[trigger]
            signals_of(full).contains(t) <==> exists|i: int|
                0 <= i < full.len() && (#[trigger] full[i]).0 == t,
        forall|i: int, j: int|
            0 <= i < j < signals_of(full).len() ==> #[trigger] signals_of(full)[i]
                < #[trigger] signals_of(full)[j],
        r.signals == signals_of(full).len(),
        r.checked == (if r.signals <= max_points {
            r.signals
        } else {
            max_points
        }),
        r.checked < r.signals <==> r.signals > max_points,
        forall|i: int, j: int|
            0 <= i < j < r.checked ==> #[trigger] spread_of(signals_of(full), max_points)[i]
                < #[trigger] spread_of(signals_of(full), max_points)[j],
{
    let (known, from) = choose|known: &[Tick], from: S| #[trigger]
        call_ensures(build, (known,), from) && known@ == ticks && sent_by(
            config,
            ticks,
            from,
            full,
        );
    let (answers, to) = choose|answers: Seq<Seq<Intent>>, to: S|
        answers.len() == ticks.len() && full == recorded(answers) && #[trigger] conversed(
            config,
            as_arrivals(ticks),
            answers,
            from,
            to,
        );
    lemma_recorded_in_order(answers);
    let places = full.map_values(|s: Sent| s.0);
    assert forall|i: int, j: int| 0 <= i <= j < places.len() implies #[trigger] places[i]
        <= #[trigger] places[j] by {
        assert(full[i].0 <= full[j].0);
    }
    lemma_deduped_rises(places);
    assert forall|t: usize| #[trigger] signals_of(full).contains(t) <==> exists|i: int|
        0 <= i < full.len() && (#[trigger] full[i]).0 == t by {
        if signals_of(full).contains(t) {
            let i = choose|i: int| 0 <= i < places.len() && places[i] == t;
            assert(full[i].0 == t);
        }
        if exists|i: int| 0 <= i < full.len() && (#[trigger] full[i]).0 == t {
            let i = choose|i: int| 0 <= i < full.len() && (#[trigger] full[i]).0 == t;
            assert(places[i] == t);
        }
    }
    law_the_spread_is_even_and_keeps_both_ends(signals_of(full), max_points);
}

/// A run of values with no two neighbours alike is left as it is.
proof fn lemma_deduped_distinct(s: Seq<usize>)
    requires
        forall|i: int, j: int| 0 <= i < j < s.len() ==> #[trigger] s[i] < #[trigger] s[j],
    ensures
        deduped(s) == s,
    decreases s.len(),
{
    if s.len() > 0 {
        let rest = s.drop_last();
        assert forall|i: int, j: int| 0 <= i < j < rest.len() implies #[trigger] rest[i]
            < #[trigger] rest[j] by {
            assert(rest[i] == s[i] && rest[j] == s[j]);
        }
        lemma_deduped_distinct(rest);
        if rest.len() > 0 {
            assert(s[rest.len() - 1] < s[s.len() - 1]);
        }
        assert(deduped(s) =~= s);
    }
}

proof fn lemma_spread_rises(a: int, b: int, n: int, max: int)
    requires
        0 <= a < b < max,
        max < n,
    ensures
        spread_at(a, n, max) < spread_at(b, n, max),
{
    let step = max - 1;
    assert(b * (n - 1) >= a * (n - 1) + (n - 1)) by (nonlinear_arith)
        requires
            b >= a + 1,
            n - 1 >= 0,
    ;
    assert((b * (n - 1)) / step >= (a * (n - 1)) / step + 1) by (nonlinear_arith)
        requires
            b * (n - 1) >= a * (n - 1) + step,
            step > 0,
    ;
}

/// Points spread over rising candidates number the bound exactly, rise, and
/// keep the first and the last where there is room for two.
pub proof fn law_the_spread_is_even_and_keeps_both_ends(candidates: Seq<usize>, max: usize)
    requires
        forall|i: int, j: int|
            0 <= i < j < candidates.len() ==> #[trigger] candidates[i] < #[trigger] candidates[j],
    ensures
        spread_of(candidates, max).len() == (if candidates.len() <= max {
            candidates.len() as int
        } else {
            max as int
        }),
        forall|i: int, j: int|
            0 <= i < j < spread_of(candidates, max).len() ==> #[trigger] spread_of(
                candidates,
                max,
            )[i] < #[trigger] spread_of(candidates, max)[j],
        max >= 2 && candidates.len() > 0 ==> {
            &&& spread_of(candidates, max)[0] == candidates[0]
            &&& spread_of(candidates, max).last() == candidates.last()
        },
{
    let n = candidates.len() as int;
    if n > max {
        let picked = Seq::new(max as nat, |k: int| candidates[spread_at(k, n, max as int)]);
        assert forall|i: int, j: int| 0 <= i < j < picked.len() implies #[trigger] picked[i]
            < #[trigger] picked[j] by {
            lemma_spread_rises(i, j, n, max as int);
            lemma_spread_in_range(i, n, max as int);
            lemma_spread_in_range(j, n, max as int);
        }
        lemma_deduped_distinct(picked);
        if max >= 2 {
            assert(spread_at(0, n, max as int) == 0) by (nonlinear_arith)
                requires
                    max >= 2,
            ;
            let step = max - 1;
            assert((step * (n - 1)) / step == n - 1) by (nonlinear_arith)
                requires
                    step > 0,
            ;
            assert(spread_at(max - 1, n, max as int) == n - 1);
        }
    }
}

/// What was sent no later than a tick, and on one, is told of each intent by
/// its own tick: a list in two parts keeps what each part keeps.
pub proof fn law_an_intent_belongs_to_its_tick(
    a: Seq<Sent>,
    b: Seq<Sent>,
    tick: usize,
    intent: Intent,
    at: usize,
)
    ensures
        through(a + b, at) == through(a, at) + through(b, at),
        through(seq![(tick, intent)], at) == (if tick <= at {
            seq![(tick, intent)]
        } else {
            Seq::empty()
        }),
        sent_on(a + b, at) == sent_on(a, at) + sent_on(b, at),
        sent_on(seq![(tick, intent)], at) == (if tick == at {
            seq![intent]
        } else {
            Seq::empty()
        }),
    decreases b.len(),
{
    reveal_with_fuel(through, 2);
    reveal_with_fuel(sent_on, 2);
    let one = seq![(tick, intent)];
    assert(one.drop_last() =~= Seq::<Sent>::empty());
    assert(through(one, at) =~= if tick <= at {
        one
    } else {
        Seq::empty()
    });
    assert(sent_on(one, at) =~= if tick == at {
        seq![intent]
    } else {
        Seq::empty()
    });
    if b.len() == 0 {
        assert(a + b =~= a);
        assert(through(a, at) + through(b, at) =~= through(a, at));
        assert(sent_on(a, at) + sent_on(b, at) =~= sent_on(a, at));
    } else {
        law_an_intent_belongs_to_its_tick(a, b.drop_last(), tick, intent, at);
        assert((a + b).drop_last() =~= a + b.drop_last());
        assert((a + b).last() == b.last());
        assert(through(a + b, at) =~= through(a, at) + through(b, at));
        assert(sent_on(a + b, at) =~= sent_on(a, at) + sent_on(b, at));
    }
}

/// Whether intents are listed tick by tick.
pub open spec fn tick_by_tick(s: Seq<Sent>) -> bool {
    forall|i: int, j: int| 0 <= i < j < s.len() ==> (#[trigger] s[i]).0 <= (#[trigger] s[j]).0
}

proof fn lemma_nothing_on(s: Seq<Sent>, tick: usize)
    requires
        forall|i: int| 0 <= i < s.len() ==> (#[trigger] s[i]).0 != tick,
    ensures
        sent_on(s, tick).len() == 0,
    decreases s.len(),
{
    if s.len() > 0 {
        assert(s[s.len() - 1].0 != tick);
        assert forall|i: int| 0 <= i < s.drop_last().len() implies (
        #[trigger] s.drop_last()[i]).0 != tick by {
            assert(s.drop_last()[i] == s[i]);
        }
        lemma_nothing_on(s.drop_last(), tick);
    }
}

/// What a list sends on a tick, split where it stands at `i`.
proof fn lemma_split_on(s: Seq<Sent>, i: int, tick: usize)
    requires
        0 <= i <= s.len(),
    ensures
        sent_on(s, tick) == sent_on(s.subrange(0, i), tick) + sent_on(
            s.subrange(i, s.len() as int),
            tick,
        ),
{
    let a = s.subrange(0, i);
    let b = s.subrange(i, s.len() as int);
    assert(a + b =~= s);
    law_an_intent_belongs_to_its_tick(a, b, 0, Intent::CancelAll, tick);
}

/// The first intent on its tick of a list that starts with it.
proof fn lemma_first_on(s: Seq<Sent>)
    requires
        s.len() > 0,
    ensures
        sent_on(s, s[0].0).len() > 0,
        sent_on(s, s[0].0)[0] == s[0].1,
{
    let one = seq![s[0]];
    let rest = s.drop_first();
    assert(one + rest =~= s);
    law_an_intent_belongs_to_its_tick(one, rest, s[0].0, s[0].1, s[0].0);
    assert(one =~= seq![(s[0].0, s[0].1)]);
}

/// Two runs part on the first tick on which they disagree: on that tick they
/// sent different things, and on every tick before it the same.
pub proof fn law_the_parting_is_the_first_disagreement(a: Seq<Sent>, b: Seq<Sent>, i: int)
    requires
        tick_by_tick(a),
        tick_by_tick(b),
        first_difference(a, b, i),
    ensures
        sent_on(a, parting(a, b, i)) != sent_on(b, parting(a, b, i)),
        forall|t: usize|
            t < parting(a, b, i) ==> #[trigger] sent_on(a, t) == sent_on(b, t),
{
    let at = parting(a, b, i);
    let head = a.subrange(0, i);
    let x = a.subrange(i, a.len() as int);
    let y = b.subrange(i, b.len() as int);
    assert forall|k: int| 0 <= k < x.len() implies (#[trigger] x[k]).0 >= at by {
        assert(x[k] == a[i + k]);
        if k > 0 {
            assert(a[i].0 <= a[i + k].0);
        }
    }
    assert forall|k: int| 0 <= k < y.len() implies (#[trigger] y[k]).0 >= at by {
        assert(y[k] == b[i + k]);
        if k > 0 {
            assert(b[i].0 <= b[i + k].0);
        }
    }
    assert forall|t: usize| t < at implies #[trigger] sent_on(a, t) == sent_on(b, t) by {
        lemma_split_on(a, i, t);
        lemma_split_on(b, i, t);
        lemma_nothing_on(x, t);
        lemma_nothing_on(y, t);
        assert(sent_on(x, t) =~= sent_on(y, t));
    }
    lemma_split_on(a, i, at);
    lemma_split_on(b, i, at);
    let before = sent_on(head, at);
    let n = before.len() as int;
    if x.len() > 0 && x[0].0 == at {
        lemma_first_on(x);
        if y.len() > 0 && y[0].0 == at {
            lemma_first_on(y);
            assert(a[i] == x[0] && b[i] == y[0]);
            assert(sent_on(a, at)[n] == x[0].1);
            assert(sent_on(b, at)[n] == y[0].1);
        } else {
            assert forall|k: int| 0 <= k < y.len() implies (#[trigger] y[k]).0 != at by {
                assert(y[k] == b[i + k]);
                assert(y[0] == b[i]);
                if k > 0 {
                    assert(b[i].0 <= b[i + k].0);
                }
            }
            lemma_nothing_on(y, at);
            assert(sent_on(a, at).len() > sent_on(b, at).len());
        }
    } else {
        assert(y.len() > 0 && y[0].0 == at);
        lemma_first_on(y);
        assert forall|k: int| 0 <= k < x.len() implies (#[trigger] x[k]).0 != at by {
            assert(x[k] == a[i + k]);
            assert(x[0] == a[i]);
            if k > 0 {
                assert(a[i].0 <= a[i + k].0);
            }
        }
        lemma_nothing_on(x, at);
        assert(sent_on(b, at).len() > sent_on(a, at).len());
    }
}

/// Every rerun that disagrees with the full run through its point is found,
/// under the point it was checked at, and no more are found than disagree.
pub proof fn law_every_disagreement_is_found(
    full: Seq<Sent>,
    reruns: Seq<Seq<Sent>>,
    points: Seq<usize>,
    ticks: Seq<Tick>,
    divergences: Seq<DivergenceView>,
    k: int,
)
    requires
        found(full, reruns, points, ticks, divergences),
        reruns.len() <= points.len(),
        0 <= k < reruns.len(),
        through(full, points[k]) != through(reruns[k], points[k]),
    ensures
        exists|j: int|
            0 <= j < divergences.len() && (#[trigger] divergences[j]).checked_at == points[k],
        divergences.len() <= reruns.len(),
    decreases reruns.len(),
{
    let rest = reruns.drop_last();
    let point = points[reruns.len() - 1];
    assert(reruns[reruns.len() - 1] == reruns.last());
    lemma_found_fits(full, reruns, points, ticks, divergences);
    if k < rest.len() {
        assert(rest[k] == reruns[k]);
        if shows(None, full, reruns.last(), point, ticks) && found(
            full,
            rest,
            points,
            ticks,
            divergences,
        ) {
            law_every_disagreement_is_found(full, rest, points, ticks, divergences, k);
        } else {
            let less = divergences.drop_last();
            law_every_disagreement_is_found(full, rest, points, ticks, less, k);
            let j = choose|j: int|
                0 <= j < less.len() && (#[trigger] less[j]).checked_at == points[k];
            assert(divergences[j] == less[j]);
        }
    } else {
        assert(divergences[divergences.len() - 1] == divergences.last());
    }
}

proof fn lemma_found_fits(
    full: Seq<Sent>,
    reruns: Seq<Seq<Sent>>,
    points: Seq<usize>,
    ticks: Seq<Tick>,
    divergences: Seq<DivergenceView>,
)
    requires
        found(full, reruns, points, ticks, divergences),
    ensures
        divergences.len() <= reruns.len(),
    decreases reruns.len(),
{
    if reruns.len() > 0 {
        let rest = reruns.drop_last();
        if found(full, rest, points, ticks, divergences) {
            lemma_found_fits(full, rest, points, ticks, divergences);
        } else {
            lemma_found_fits(full, rest, points, ticks, divergences.drop_last());
        }
    }
}

/// Points are spread evenly: the `k`-th of them is the candidate at the whole
/// part of its share of the way from the first to the last.
pub proof fn law_each_point_stands_at_its_share(
    candidates: Seq<usize>,
    max: usize,
    k: int,
    at: int,
)
    requires
        forall|i: int, j: int|
            0 <= i < j < candidates.len() ==> #[trigger] candidates[i] < #[trigger] candidates[j],
        2 <= max < candidates.len(),
        0 <= k < max,
        at * (max - 1) <= k * (candidates.len() - 1) < (at + 1) * (max - 1),
    ensures
        spread_of(candidates, max)[k] == candidates[at],
{
    let n = candidates.len() as int;
    let picked = Seq::new(max as nat, |j: int| candidates[spread_at(j, n, max as int)]);
    assert forall|i: int, j: int| 0 <= i < j < picked.len() implies #[trigger] picked[i]
        < #[trigger] picked[j] by {
        lemma_spread_rises(i, j, n, max as int);
        lemma_spread_in_range(i, n, max as int);
        lemma_spread_in_range(j, n, max as int);
    }
    lemma_deduped_distinct(picked);
    let top = k * (n - 1);
    let step = max - 1;
    assert(top / step == at) by (nonlinear_arith)
        requires
            at * step <= top,
            top < (at + 1) * step,
            step > 0,
    ;
}

} // verus!
