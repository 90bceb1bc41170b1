//! What a tick file contains, as opposed to what its header claims.
//!
//! A file can be wrong in ways that produce plausible results. None of them
//! stop a backtest running, which is why they are counted.
use crate::engine::tick::Tick;
use crate::text::{decimal, put, put_digits};
use vstd::prelude::*;

verus! {

/// What was counted in a file.
#[derive(Clone, Copy, Debug, PartialEq, Eq, Structural)]
pub struct Audit {
    /// Records found.
    pub records: usize,
    /// Records the header claims.
    pub claimed: u64,
    /// Ticks with both sides of a quote.
    pub quoted: usize,
    /// Ticks with a trade.
    pub traded: usize,
    /// Ticks stamped before the one before them.
    pub backwards: usize,
    /// Ticks stamped at the same instant as the one before them.
    pub repeated: usize,
    /// Ticks whose cumulative volume is below the one before.
    pub volume_drops: usize,
    /// Ticks whose bid is at or above their ask.
    pub crossed: usize,
}

pub open spec fn has_quote(t: Tick) -> bool {
    t.bid.0 > 0 && t.ask.0 > 0
}

pub open spec fn has_trade(t: Tick) -> bool {
    t.last.0 > 0
}

pub open spec fn is_crossed(t: Tick) -> bool {
    has_quote(t) && t.bid.0 >= t.ask.0
}

/// How many ticks pass a test.
pub open spec fn tally(ticks: Seq<Tick>, test: spec_fn(Tick) -> bool) -> nat
    decreases ticks.len(),
{
    if ticks.len() == 0 {
        0
    } else {
        tally(ticks.drop_last(), test) + if test(ticks.last()) {
            1nat
        } else {
            0
        }
    }
}

/// How many ticks pass a test of themselves and the one before.
pub open spec fn tally_pairs(ticks: Seq<Tick>, test: spec_fn(Tick, Tick) -> bool) -> nat
    decreases ticks.len(),
{
    if ticks.len() < 2 {
        0
    } else {
        tally_pairs(ticks.drop_last(), test) + if test(
            ticks[ticks.len() - 2],
            ticks[ticks.len() - 1],
        ) {
            1nat
        } else {
            0
        }
    }
}

pub open spec fn goes_back() -> spec_fn(Tick, Tick) -> bool {
    |a: Tick, b: Tick| b.stamp.exch.0 < a.stamp.exch.0
}

pub open spec fn stands_still() -> spec_fn(Tick, Tick) -> bool {
    |a: Tick, b: Tick| b.stamp.exch.0 == a.stamp.exch.0
}

pub open spec fn volume_falls() -> spec_fn(Tick, Tick) -> bool {
    |a: Tick, b: Tick| b.volume.0 < a.volume.0
}

/// What an audit of ticks under a header that claims `claimed` finds.
pub open spec fn audited(claimed: u64, ticks: Seq<Tick>) -> Audit {
    Audit {
        records: ticks.len() as usize,
        claimed,
        quoted: tally(ticks, |t: Tick| has_quote(t)) as usize,
        traded: tally(ticks, |t: Tick| has_trade(t)) as usize,
        backwards: tally_pairs(ticks, goes_back()) as usize,
        repeated: tally_pairs(ticks, stands_still()) as usize,
        volume_drops: tally_pairs(ticks, volume_falls()) as usize,
        crossed: tally(ticks, |t: Tick| is_crossed(t)) as usize,
    }
}

/// Count what a file contains.
pub fn audit(claimed: u64, ticks: &[Tick]) -> (r: Audit)
    ensures
        r == audited(claimed, ticks@),
{
    let ghost quote = |t: Tick| has_quote(t);
    let ghost trade = |t: Tick| has_trade(t);
    let ghost cross = |t: Tick| is_crossed(t);
    let mut quoted: usize = 0;
    let mut traded: usize = 0;
    let mut backwards: usize = 0;
    let mut repeated: usize = 0;
    let mut volume_drops: usize = 0;
    let mut crossed: usize = 0;
    let mut i: usize = 0;
    assert(ticks@.subrange(0, 0) =~= Seq::<Tick>::empty());
    while i < ticks.len()
        invariant
            i <= ticks@.len(),
            quote == (|t: Tick| has_quote(t)),
            trade == (|t: Tick| has_trade(t)),
            cross == (|t: Tick| is_crossed(t)),
            quoted <= i,
            traded <= i,
            backwards <= i,
            repeated <= i,
            volume_drops <= i,
            crossed <= i,
            quoted == tally(ticks@.subrange(0, i as int), quote),
            traded == tally(ticks@.subrange(0, i as int), trade),
            crossed == tally(ticks@.subrange(0, i as int), cross),
            backwards == tally_pairs(ticks@.subrange(0, i as int), goes_back()),
            repeated == tally_pairs(ticks@.subrange(0, i as int), stands_still()),
            volume_drops == tally_pairs(ticks@.subrange(0, i as int), volume_falls()),
        decreases ticks@.len() - i,
    {
        let t = ticks[i];
        proof {
            let now = ticks@.subrange(0, i + 1);
            assert(now.drop_last() =~= ticks@.subrange(0, i as int));
            assert(now.last() == t);
            if i > 0 {
                assert(now[now.len() - 2] == ticks@[i - 1]);
            }
        }
        let both = t.bid.0 > 0 && t.ask.0 > 0;
        if both {
            quoted += 1;
        }
        if t.last.0 > 0 {
            traded += 1;
        }
        if both && t.bid.0 >= t.ask.0 {
            crossed += 1;
        }
        if i > 0 {
            let p = ticks[i - 1];
            if t.stamp.exch.0 < p.stamp.exch.0 {
                backwards += 1;
            }
            if t.stamp.exch.0 == p.stamp.exch.0 {
                repeated += 1;
            }
            if t.volume.0 < p.volume.0 {
                volume_drops += 1;
            }
        }
        i += 1;
    }
    assert(ticks@.subrange(0, i as int) =~= ticks@);
    Audit {
        records: ticks.len(),
        claimed,
        quoted,
        traded,
        backwards,
        repeated,
        volume_drops,
        crossed,
    }
}

/// The traded prices, in order.
pub open spec fn prices(ticks: Seq<Tick>) -> Seq<i64>
    decreases ticks.len(),
{
    if ticks.len() == 0 {
        Seq::empty()
    } else {
        let before = prices(ticks.drop_last());
        if has_trade(ticks.last()) {
            before.push(ticks.last().last.0)
        } else {
            before
        }
    }
}

/// The traded prices, in order. Ticks without a trade are skipped rather than
/// carried forward: a carried price is a return the market did not produce.
pub fn traded_prices(ticks: &[Tick]) -> (r: Vec<i64>)
    ensures
        r@ == prices(ticks@),
{
    let mut out: Vec<i64> = Vec::new();
    let mut i: usize = 0;
    assert(ticks@.subrange(0, 0) =~= Seq::<Tick>::empty());
    while i < ticks.len()
        invariant
            i <= ticks@.len(),
            out@ == prices(ticks@.subrange(0, i as int)),
        decreases ticks@.len() - i,
    {
        proof {
            let now = ticks@.subrange(0, i + 1);
            assert(now.drop_last() =~= ticks@.subrange(0, i as int));
            assert(now.last() == ticks@[i as int]);
        }
        if ticks[i].last.0 > 0 {
            out.push(ticks[i].last.0);
        }
        i += 1;
    }
    assert(ticks@.subrange(0, i as int) =~= ticks@);
    out
}

impl Audit {
    /// Whether the header's count and the records disagree.
    pub open spec fn miscounted(self) -> bool {
        self.claimed != self.records
    }

    /// What is wrong with the file, in words.
    pub open spec fn complaints(self) -> Seq<Seq<char>> {
        let a = if self.backwards > 0 {
            seq![decimal(self.backwards as int) + " ticks arrive before the one before them"@]
        } else {
            Seq::empty()
        };
        let b = if self.volume_drops > 0 {
            a.push(
                decimal(self.volume_drops as int) + " volume decreases in a cumulative series"@,
            )
        } else {
            a
        };
        let c = if self.crossed > 0 {
            b.push(decimal(self.crossed as int) + " ticks where the bid is at or above the ask"@)
        } else {
            b
        };
        if self.miscounted() {
            c.push("the header's count disagrees with the records"@)
        } else {
            c
        }
    }

    /// What is wrong with the file, in words; nothing where nothing contradicts
    /// itself.
    pub fn problems(&self) -> (r: Vec<String>)
        ensures
            r@.map_values(|s: String| s@) == self.complaints(),
    {
        let ghost text = |s: String| s@;
        let mut out: Vec<String> = Vec::new();
        if self.backwards > 0 {
            let mut line = String::new();
            put_digits(&mut line, self.backwards as u64);
            put(&mut line, " ticks arrive before the one before them");
            assert(line@ =~= decimal(self.backwards as int)
                + " ticks arrive before the one before them"@);
            out.push(line);
        }
        let ghost one = out@;
        if self.volume_drops > 0 {
            let mut line = String::new();
            put_digits(&mut line, self.volume_drops as u64);
            put(&mut line, " volume decreases in a cumulative series");
            assert(line@ =~= decimal(self.volume_drops as int)
                + " volume decreases in a cumulative series"@);
            out.push(line);
            assert(out@.map_values(text) =~= one.map_values(text).push(line@));
        }
        let ghost two = out@;
        if self.crossed > 0 {
            let mut line = String::new();
            put_digits(&mut line, self.crossed as u64);
            put(&mut line, " ticks where the bid is at or above the ask");
            assert(line@ =~= decimal(self.crossed as int)
                + " ticks where the bid is at or above the ask"@);
            out.push(line);
            assert(out@.map_values(text) =~= two.map_values(text).push(line@));
        }
        let ghost three = out@;
        if self.claimed != self.records as u64 {
            let line = "the header's count disagrees with the records".to_owned();
            out.push(line);
            assert(out@.map_values(text) =~= three.map_values(text).push(line@));
        }
        assert(out@.map_values(text) =~= self.complaints());
        out
    }
}

proof fn lemma_tally_fits(ticks: Seq<Tick>, test: spec_fn(Tick) -> bool)
    ensures
        tally(ticks, test) <= ticks.len(),
    decreases ticks.len(),
{
    if ticks.len() > 0 {
        lemma_tally_fits(ticks.drop_last(), test);
    }
}

proof fn lemma_pairs_fit(ticks: Seq<Tick>, test: spec_fn(Tick, Tick) -> bool)
    ensures
        tally_pairs(ticks, test) <= ticks.len(),
    decreases ticks.len(),
{
    if ticks.len() >= 2 {
        lemma_pairs_fit(ticks.drop_last(), test);
    }
}

/// One, where something holds.
pub open spec fn one_if(b: bool) -> int {
    if b {
        1
    } else {
        0
    }
}

/// One more tick is counted for what it is: as quoted with both a bid and an
/// ask, as traded with a last price, as crossed with a bid at or above its
/// ask, and, against the tick before it, as going backwards, as repeating an
/// instant, and as dropping volume. Its trade, if any, is its price.
pub proof fn law_a_tick_is_counted_for_what_it_is(claimed: u64, ticks: Seq<Tick>, t: Tick)
    requires
        ticks.len() < usize::MAX,
    ensures
        ({
            let a = audited(claimed, ticks);
            let b = audited(claimed, ticks.push(t));
            let behind = ticks.len() > 0;
            let before = ticks.last();
            let quoted = t.bid.0 > 0 && t.ask.0 > 0;
            &&& b.claimed == claimed
            &&& b.records == ticks.len() + 1
            &&& b.quoted == a.quoted + one_if(quoted)
            &&& b.traded == a.traded + one_if(t.last.0 > 0)
            &&& b.crossed == a.crossed + one_if(quoted && t.bid.0 >= t.ask.0)
            &&& b.backwards == a.backwards + one_if(
                behind && t.stamp.exch.0 < before.stamp.exch.0,
            )
            &&& b.repeated == a.repeated + one_if(behind && t.stamp.exch.0 == before.stamp.exch.0)
            &&& b.volume_drops == a.volume_drops + one_if(behind && t.volume.0 < before.volume.0)
            &&& prices(ticks.push(t)) == (if t.last.0 > 0 {
                prices(ticks).push(t.last.0)
            } else {
                prices(ticks)
            })
        }),
        audited(claimed, Seq::empty()) == (Audit {
            records: 0,
            claimed,
            quoted: 0,
            traded: 0,
            backwards: 0,
            repeated: 0,
            volume_drops: 0,
            crossed: 0,
        }),
        prices(Seq::empty()).len() == 0,
{
    let more = ticks.push(t);
    assert(more.drop_last() =~= ticks);
    let quote = |x: Tick| has_quote(x);
    let trade = |x: Tick| has_trade(x);
    let cross = |x: Tick| is_crossed(x);
    lemma_tally_fits(ticks, quote);
    lemma_tally_fits(ticks, trade);
    lemma_tally_fits(ticks, cross);
    lemma_tally_fits(more, quote);
    lemma_tally_fits(more, trade);
    lemma_tally_fits(more, cross);
    lemma_pairs_fit(ticks, goes_back());
    lemma_pairs_fit(ticks, stands_still());
    lemma_pairs_fit(ticks, volume_falls());
    lemma_pairs_fit(more, goes_back());
    lemma_pairs_fit(more, stands_still());
    lemma_pairs_fit(more, volume_falls());
    if ticks.len() > 0 {
        assert(more[more.len() - 2] == ticks.last());
        assert(more[more.len() - 1] == t);
    }
}

/// A file is complained of exactly where something in it contradicts itself:
/// once for ticks that go backwards, for volume that drops, for crossed quotes
/// and for a miscounting header.
pub proof fn law_every_contradiction_is_complained_of(a: Audit)
    ensures
        a.complaints().len() == one_if(a.backwards > 0) + one_if(a.volume_drops > 0) + one_if(
            a.crossed > 0,
        ) + one_if(a.claimed != a.records),
{
}

} // verus!
