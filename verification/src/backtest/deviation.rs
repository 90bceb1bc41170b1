//! How much of a result depended on never being liquidated?
//!
//! The same strategy is run over the same data twice, with liquidation
//! enforced and with it ignored. The report does not produce an adjusted
//! number: blending a real result with an impossible one describes neither.
use crate::backtest::figure::{amount_text, put_amount, Figure};
use crate::backtest::run::{as_arrivals, ran_built, run, ConfigView, MarginMode, RunConfig, RunResult};
use crate::backtest::strategy::Strategy;
use crate::engine::tick::Tick;
use crate::text::{copy_text, decimal, put, put_decimal, put_digits};
use crate::types::{Cash, Fill, Nanos};
use vstd::prelude::*;

verus! {

/// The two arms and what separates them.
#[derive(Clone, Debug, PartialEq, Eq)]
pub struct DeviationReport {
    pub strategy: String,
    pub ticks: usize,
    /// The run a real account would have had.
    pub enforced: RunResult,
    /// The run a margin-free backtest reports.
    pub ignored: RunResult,
}

/// What the comparison concluded.
#[derive(Clone, Copy, Debug, PartialEq, Eq, Structural)]
pub enum Verdict {
    /// Margin never bound; the margin-free result is the result.
    NoDifference,
    /// The account was closed out at least once.
    Liquidated {
        count: usize,
        first_at: Nanos,
        /// Equity the margin-free arm reports, less what a real account would
        /// have ended with.
        overstated_by: Cash,
    },
}

/// How many fills come later than an instant.
pub open spec fn later_than(fills: Seq<Fill>, at: Nanos) -> nat
    decreases fills.len(),
{
    if fills.len() == 0 {
        0
    } else {
        later_than(fills.drop_last(), at) + if fills.last().stamp.exch.0 > at.0 {
            1nat
        } else {
            0
        }
    }
}

impl DeviationReport {
    pub open spec fn spec_verdict(&self) -> Verdict {
        let closed = self.enforced.liquidations@;
        if closed.len() == 0 {
            Verdict::NoDifference
        } else {
            Verdict::Liquidated {
                count: closed.len() as usize,
                first_at: closed[0].at,
                overstated_by: self.ignored.final_equity.minus(self.enforced.final_equity),
            }
        }
    }

    /// Fills of the margin-free arm that came after the account would have
    /// been closed.
    pub open spec fn late_fills(&self) -> nat {
        let closed = self.enforced.liquidations@;
        if closed.len() == 0 {
            0
        } else {
            later_than(self.ignored.fills@, closed[0].at)
        }
    }

    /// Run both arms and compare. `make_strategy` is called once per arm: a
    /// strategy holds state, and sharing one would let the first run's history
    /// into the second.
    pub fn compare<S: Strategy, F: Fn() -> S>(
        config: &RunConfig,
        make_strategy: F,
        ticks: &[Tick],
    ) -> (r: Self)
        requires
            config@.wf(),
            call_requires(make_strategy, ()),
        ensures
            ran_built::<S, F>(
                r.enforced,
                (ConfigView { margin: MarginMode::Enforced, ..config@ }),
                make_strategy,
                as_arrivals(ticks@),
            ),
            ran_built::<S, F>(
                r.ignored,
                (ConfigView { margin: MarginMode::Ignored, ..config@ }),
                make_strategy,
                as_arrivals(ticks@),
            ),
            r.strategy@ == r.enforced.strategy@,
            r.ticks == ticks@.len(),
    {
        let mut first = make_strategy();
        let ghost one = first;
        let enforced = run(
            &config.duplicate().with_margin(MarginMode::Enforced),
            &mut first,
            ticks,
        );
        let mut second = make_strategy();
        let ghost two = second;
        let ignored = run(
            &config.duplicate().with_margin(MarginMode::Ignored),
            &mut second,
            ticks,
        );
        assert(enforced.came_of(
            (ConfigView { margin: MarginMode::Enforced, ..config@ }),
            as_arrivals(ticks@),
            one,
            first,
        ));
        assert(ignored.came_of(
            (ConfigView { margin: MarginMode::Ignored, ..config@ }),
            as_arrivals(ticks@),
            two,
            second,
        ));
        DeviationReport {
            strategy: copy_text(&enforced.strategy),
            ticks: ticks.len(),
            enforced,
            ignored,
        }
    }

    /// What the comparison concluded.
    pub fn verdict(&self) -> (r: Verdict)
        ensures
            r == self.spec_verdict(),
    {
        if self.enforced.liquidations.len() == 0 {
            return Verdict::NoDifference;
        }
        Verdict::Liquidated {
            count: self.enforced.liquidations.len(),
            first_at: self.enforced.liquidations[0].at,
            overstated_by: self.ignored.final_equity.sub(self.enforced.final_equity),
        }
    }

    /// Whether the margin-free result can be reported as it is: whether the
    /// venue never closed the account.
    pub fn margin_free_result_is_honest(&self) -> (r: bool)
        ensures
            r == (self.enforced.liquidations@.len() == 0),
    {
        self.enforced.liquidations.len() == 0
    }

    /// Fills the margin-free arm recorded after the account would already
    /// have been closed.
    pub fn fills_after_first_liquidation(&self) -> (r: usize)
        ensures
            r == self.late_fills(),
    {
        if self.enforced.liquidations.len() == 0 {
            return 0;
        }
        let at = self.enforced.liquidations[0].at;
        let fills = &self.ignored.fills;
        let mut n: usize = 0;
        let mut i: usize = 0;
        assert(fills@.subrange(0, 0) =~= Seq::<Fill>::empty());
        while i < fills.len()
            invariant
                i <= fills@.len(),
                n <= i,
                n == later_than(fills@.subrange(0, i as int), at),
            decreases fills@.len() - i,
        {
            proof {
                let now = fills@.subrange(0, i + 1);
                assert(now.drop_last() =~= fills@.subrange(0, i as int));
                assert(now.last() == fills@[i as int]);
            }
            if fills[i].stamp.exch.0 > at.0 {
                n += 1;
            }
            i += 1;
        }
        assert(fills@.subrange(0, i as int) =~= fills@);
        n
    }

    pub open spec fn line<F: Figure>(&self) -> Seq<char> {
        match self.spec_verdict() {
            Verdict::NoDifference => self.strategy@ + ": margin never bound over "@ + decimal(
                self.ticks as int,
            ) + " ticks; the margin-free result stands (final equity "@ + amount_text::<F>(
                self.enforced.final_equity,
            ) + ")"@,
            Verdict::Liquidated { count, first_at, overstated_by } => self.strategy@
                + ": LIQUIDATED "@ + decimal(count as int) + "x, first at t="@ + decimal(
                first_at.0 as int,
            ) + "; margin-free equity "@ + amount_text::<F>(self.ignored.final_equity) + " vs real "@
                + amount_text::<F>(self.enforced.final_equity) + " (overstated by "@ + amount_text::<F>(overstated_by)
                + "); "@ + decimal(self.late_fills() as int)
                + " fills in the margin-free run happened after the account was already closed"@,
        }
    }

    /// A human-readable summary.
    pub fn summary_line<F: Figure>(&self) -> (r: String)
        ensures
            r@ == self.line::<F>(),
    {
        let mut out = copy_text(&self.strategy);
        match self.verdict() {
            Verdict::NoDifference => {
                put(&mut out, ": margin never bound over ");
                put_digits(&mut out, self.ticks as u64);
                put(&mut out, " ticks; the margin-free result stands (final equity ");
                put_amount::<F>(&mut out, self.enforced.final_equity);
                put(&mut out, ")");
            },
            Verdict::Liquidated { count, first_at, overstated_by } => {
                put(&mut out, ": LIQUIDATED ");
                put_digits(&mut out, count as u64);
                put(&mut out, "x, first at t=");
                put_decimal(&mut out, first_at.0);
                put(&mut out, "; margin-free equity ");
                put_amount::<F>(&mut out, self.ignored.final_equity);
                put(&mut out, " vs real ");
                put_amount::<F>(&mut out, self.enforced.final_equity);
                put(&mut out, " (overstated by ");
                put_amount::<F>(&mut out, overstated_by);
                put(&mut out, "); ");
                put_digits(&mut out, self.fills_after_first_liquidation() as u64);
                put(
                    &mut out,
                    " fills in the margin-free run happened after the account was already closed",
                );
            },
        }
        out
    }
}

/// A fill comes later than an instant exactly where it is stamped behind it,
/// wherever it stands in the list.
pub proof fn law_a_late_fill_is_counted(fills: Seq<Fill>, at: int, f: Fill, close: Nanos)
    requires
        0 <= at <= fills.len(),
    ensures
        later_than(Seq::empty(), close) == 0,
        f.stamp.exch.0 > close.0 ==> later_than(fills.insert(at, f), close) == later_than(
            fills,
            close,
        ) + 1,
        f.stamp.exch.0 <= close.0 ==> later_than(fills.insert(at, f), close) == later_than(
            fills,
            close,
        ),
    decreases fills.len(),
{
    let more = fills.insert(at, f);
    if at == fills.len() {
        assert(more.drop_last() =~= fills);
    } else {
        assert(more.last() == fills.last());
        assert(more.drop_last() =~= fills.drop_last().insert(at, f));
        law_a_late_fill_is_counted(fills.drop_last(), at, f, close);
    }
}

/// The comparison finds a difference exactly where the enforced arm was
/// closed: it says how often, when first, and by how much the margin-free arm
/// overstates what was left.
pub proof fn law_the_verdict_is_of_the_enforced_arm(r: DeviationReport)
    requires
        r.enforced.liquidations@.len() <= usize::MAX,
    ensures
        match r.spec_verdict() {
            Verdict::NoDifference => r.enforced.liquidations@.len() == 0 && r.late_fills() == 0,
            Verdict::Liquidated { count, first_at, overstated_by } => {
                let over = r.ignored.final_equity.0 - r.enforced.final_equity.0;
                &&& r.enforced.liquidations@.len() > 0
                &&& count == r.enforced.liquidations@.len()
                &&& first_at == r.enforced.liquidations@[0].at
                &&& i64::MIN <= over <= i64::MAX ==> overstated_by.0 == over
                &&& r.late_fills() == later_than(r.ignored.fills@, r.enforced.liquidations@[0].at)
            },
        },
{
}

} // verus!
