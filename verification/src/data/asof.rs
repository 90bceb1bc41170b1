//! As-of joins that cannot leak the future.
//!
//! Strictly before, by default: a record stamped at exactly the decision
//! instant is not available to it. And by arrival, not by event: a record is
//! joinable when it arrived, not when the venue says it happened.
use crate::sorting::{
    in_order_by, law_ordered_is_in_order, law_ordered_is_stable, lemma_rank, lemma_rank_is, ordered,
    preorder, rank,
};
use crate::types::Nanos;
use vstd::prelude::*;

verus! {

/// Which boundary an as-of join uses.
#[derive(Clone, Copy, Debug, PartialEq, Eq, Structural)]
pub enum AsOf {
    /// Strictly before the query. The only safe choice for a decision.
    Strict,
    /// Up to and at the query. Only for reconstructing state after the fact.
    Inclusive,
}

impl Default for AsOf {
    fn default() -> (r: Self)
        ensures
            r == AsOf::Strict,
    {
        AsOf::Strict
    }
}

/// Which clock a join reads.
#[derive(Clone, Copy, Debug, PartialEq, Eq, Structural)]
pub enum Timeline {
    /// When the record reached this process.
    Arrival,
    /// When the venue says the event happened.
    Event,
}

impl Default for Timeline {
    fn default() -> (r: Self)
        ensures
            r == Timeline::Arrival,
    {
        Timeline::Arrival
    }
}

/// A value with both timestamps.
#[derive(Clone, Copy, Debug, PartialEq, Eq)]
pub struct Timed<T> {
    /// When the venue says it happened.
    pub event: Nanos,
    /// When this process observed it.
    pub arrival: Nanos,
    pub value: T,
}

impl<T> Timed<T> {
    pub fn new(event: Nanos, arrival: Nanos, value: T) -> (r: Self)
        ensures
            r == (Timed { event, arrival, value }),
    {
        Timed { event, arrival, value }
    }

    /// A value that never travelled: it arrived when it happened.
    pub fn local(at: Nanos, value: T) -> (r: Self)
        ensures
            r == (Timed { event: at, arrival: at, value }),
    {
        Timed { event: at, arrival: at, value }
    }

    pub open spec fn stamped(self, timeline: Timeline) -> Nanos {
        match timeline {
            Timeline::Arrival => self.arrival,
            Timeline::Event => self.event,
        }
    }

    pub fn stamp(&self, timeline: Timeline) -> (r: Nanos)
        ensures
            r == self.stamped(timeline),
    {
        match timeline {
            Timeline::Arrival => self.arrival,
            Timeline::Event => self.event,
        }
    }
}

/// The order records are kept in.
pub open spec fn by_clock<T>(timeline: Timeline) -> spec_fn(Timed<T>, Timed<T>) -> bool {
    |a: Timed<T>, b: Timed<T>| a.stamped(timeline).0 <= b.stamped(timeline).0
}

/// Whether a record stamped `t` is available to a query.
pub open spec fn available(t: Nanos, query: Nanos, mode: AsOf) -> bool {
    match mode {
        AsOf::Strict => t.0 < query.0,
        AsOf::Inclusive => t.0 <= query.0,
    }
}

/// The record in force at a query: the last one available.
pub open spec fn in_force<T>(
    s: Seq<Timed<T>>,
    timeline: Timeline,
    query: Nanos,
    mode: AsOf,
) -> Option<Timed<T>>
    decreases s.len(),
{
    if s.len() == 0 {
        None
    } else if available(s.last().stamped(timeline), query, mode) {
        Some(s.last())
    } else {
        in_force(s.drop_last(), timeline, query, mode)
    }
}

/// A time-ordered series that can be asked what was known when.
#[derive(Clone, Debug, PartialEq, Eq)]
pub struct Series<T> {
    records: Vec<Timed<T>>,
    timeline: Timeline,
}

/// What a series holds.
#[verifier::ext_equal]
pub struct SeriesView<T> {
    pub records: Seq<Timed<T>>,
    pub timeline: Timeline,
}

impl<T> View for Series<T> {
    type V = SeriesView<T>;

    closed spec fn view(&self) -> SeriesView<T> {
        SeriesView { records: self.records@, timeline: self.timeline }
    }
}

impl<T> SeriesView<T> {
    pub open spec fn wf(self) -> bool {
        in_order_by(self.records, by_clock(self.timeline))
    }

    pub open spec fn known(self, query: Nanos, mode: AsOf) -> Option<Timed<T>> {
        in_force(self.records, self.timeline, query, mode)
    }
}

impl<T> Default for Series<T> {
    fn default() -> (r: Self)
        ensures
            r@ == (SeriesView { records: Seq::<Timed<T>>::empty(), timeline: Timeline::Arrival }),
    {
        Series { records: Vec::new(), timeline: Timeline::Arrival }
    }
}

proof fn lemma_by_clock<T>(timeline: Timeline)
    ensures
        preorder(by_clock::<T>(timeline)),
{
    let le = by_clock::<T>(timeline);
    assert forall|a: Timed<T>, b: Timed<T>| #[trigger] le(a, b) || le(b, a) by {}
    assert forall|a: Timed<T>, b: Timed<T>, c: Timed<T>| #[trigger]
        le(a, b) && #[trigger] le(b, c) implies le(a, c) by {}
}

/// In an ordered series the available records come first.
proof fn lemma_available_first<T>(
    s: Seq<Timed<T>>,
    timeline: Timeline,
    query: Nanos,
    mode: AsOf,
    at: int,
)
    requires
        in_order_by(s, by_clock(timeline)),
        0 <= at <= s.len(),
        at > 0 ==> available(s[at - 1].stamped(timeline), query, mode),
        at < s.len() ==> !available(s[at].stamped(timeline), query, mode),
    ensures
        in_force(s, timeline, query, mode) == (if at == 0 {
            None
        } else {
            Some(s[at - 1])
        }),
    decreases s.len(),
{
    if s.len() > 0 {
        let le = by_clock::<T>(timeline);
        if at < s.len() {
            if at < s.len() - 1 {
                assert(le(s[at], s[s.len() - 1]));
            }
            let rest = s.drop_last();
            assert forall|i: int, j: int| 0 <= i < j < rest.len() implies le(
                #[trigger] rest[i],
                #[trigger] rest[j],
            ) by {
                assert(le(s[i], s[j]));
            }
            lemma_available_first(rest, timeline, query, mode, at);
        }
    }
}

impl<T> Series<T> {
    /// A series in order of the timeline it will be queried on. Records
    /// stamped alike keep the order they were given in.
    pub fn new(records: Vec<Timed<T>>, timeline: Timeline) -> (r: Self)
        ensures
            r@ == (SeriesView { records: ordered(records@, by_clock(timeline)), timeline }),
            r@.wf(),
    {
        let ghost all = records@;
        let ghost le = by_clock::<T>(timeline);
        let mut left = records;
        let mut kept: Vec<Timed<T>> = Vec::new();
        let ghost mut n: int = 0;
        assert(all.subrange(0, 0) =~= Seq::<Timed<T>>::empty());
        while left.len() > 0
            invariant
                le == by_clock::<T>(timeline),
                0 <= n <= all.len(),
                left@ == all.subrange(n, all.len() as int),
                kept@ == ordered(all.subrange(0, n), le),
            decreases left@.len(),
        {
            assert(left@[0] == all[n]);
            let v = left.remove(0);
            proof {
                assert(left@ =~= all.subrange(n + 1, all.len() as int));
                let now = all.subrange(0, n + 1);
                assert(now.drop_last() =~= all.subrange(0, n));
                assert(now.last() == v);
                n = n + 1;
            }
            let stamp = v.stamp(timeline);
            let mut i: usize = 0;
            while i < kept.len() && kept[i].stamp(timeline).0 <= stamp.0
                invariant
                    i <= kept@.len(),
                    le == by_clock::<T>(timeline),
                    stamp == v.stamped(timeline),
                    forall|k: int| 0 <= k < i ==> le(#[trigger] kept@[k], v),
                decreases kept@.len() - i,
            {
                i += 1;
            }
            proof {
                lemma_rank_is(kept@, v, le, i as int);
            }
            kept.insert(i, v);
        }
        proof {
            assert(all.subrange(0, n) =~= all);
            lemma_by_clock::<T>(timeline);
            law_ordered_is_in_order(all, le);
        }
        Series { records: kept, timeline }
    }

    /// A series on arrival time, the safe default.
    pub fn by_arrival(records: Vec<Timed<T>>) -> (r: Self)
        ensures
            r@ == (SeriesView {
                records: ordered(records@, by_clock(Timeline::Arrival)),
                timeline: Timeline::Arrival,
            }),
            r@.wf(),
    {
        Series::new(records, Timeline::Arrival)
    }

    pub fn len(&self) -> (r: usize)
        ensures
            r == self@.records.len(),
    {
        self.records.len()
    }

    pub fn is_empty(&self) -> (r: bool)
        ensures
            r == (self@.records.len() == 0),
    {
        self.records.len() == 0
    }

    pub fn records(&self) -> (r: &Vec<Timed<T>>)
        ensures
            r@ == self@.records,
    {
        &self.records
    }

    fn reaches(&self, at: usize, query: Nanos, mode: AsOf) -> (r: bool)
        requires
            at < self@.records.len(),
        ensures
            r == available(self@.records[at as int].stamped(self@.timeline), query, mode),
    {
        let t = self.records[at].stamp(self.timeline);
        match mode {
            AsOf::Strict => t.0 < query.0,
            AsOf::Inclusive => t.0 <= query.0,
        }
    }

    /// The value in force at `query`. None when nothing was known yet, which
    /// is an answer and not a missing one.
    pub fn as_of(&self, query: Nanos, mode: AsOf) -> (r: Option<&Timed<T>>)
        requires
            self@.wf(),
        ensures
            match r {
                Some(x) => self@.known(query, mode) == Some(*x),
                None => self@.known(query, mode) is None,
            },
    {
        let ghost s = self@.records;
        let ghost le = by_clock::<T>(self@.timeline);
        let mut low: usize = 0;
        let mut high: usize = self.records.len();
        while low < high
            invariant
                low <= high <= s.len(),
                s == self@.records,
                self@.wf(),
                le == by_clock::<T>(self@.timeline),
                low > 0 ==> available(s[low - 1].stamped(self@.timeline), query, mode),
                high < s.len() ==> !available(
                    s[high as int].stamped(self@.timeline),
                    query,
                    mode,
                ),
            decreases high - low,
        {
            let mid: usize = low + (high - low) / 2;
            if self.reaches(mid, query, mode) {
                low = mid + 1;
            } else {
                high = mid;
            }
        }
        proof {
            lemma_available_first(s, self@.timeline, query, mode, low as int);
        }
        if low == 0 {
            return None;
        }
        Some(&self.records[low - 1])
    }

    /// The value in force at `query`, using the safe boundary.
    pub fn known_at(&self, query: Nanos) -> (r: Option<&Timed<T>>)
        requires
            self@.wf(),
        ensures
            match r {
                Some(x) => self@.known(query, AsOf::Strict) == Some(*x),
                None => self@.known(query, AsOf::Strict) is None,
            },
    {
        self.as_of(query, AsOf::Strict)
    }
}

impl<T: Clone> Series<T> {
    /// Attach the value in force to each of `queries`.
    pub fn join(&self, queries: &[Nanos], mode: AsOf) -> (r: Vec<Option<T>>)
        requires
            self@.wf(),
        ensures
            r@.len() == queries@.len(),
            forall|i: int|
                0 <= i < r@.len() ==> match #[trigger] r@[i] {
                    Some(v) => self@.known(queries@[i], mode) matches Some(x) && cloned(x.value, v),
                    None => self@.known(queries@[i], mode) is None,
                },
    {
        let mut out: Vec<Option<T>> = Vec::new();
        let mut i: usize = 0;
        while i < queries.len()
            invariant
                i <= queries@.len(),
                self@.wf(),
                out@.len() == i,
                forall|k: int|
                    0 <= k < i ==> match #[trigger] out@[k] {
                        Some(v) => self@.known(queries@[k], mode) matches Some(x) && cloned(
                            x.value,
                            v,
                        ),
                        None => self@.known(queries@[k], mode) is None,
                    },
            decreases queries@.len() - i,
        {
            match self.as_of(queries[i], mode) {
                Some(x) => {
                    let v = x.value.clone();
                    out.push(Some(v));
                },
                None => {
                    out.push(None);
                },
            }
            i += 1;
        }
        out
    }
}

proof fn lemma_insert_unseen<T>(
    s: Seq<Timed<T>>,
    at: int,
    x: Timed<T>,
    timeline: Timeline,
    query: Nanos,
    mode: AsOf,
)
    requires
        0 <= at <= s.len(),
        !available(x.stamped(timeline), query, mode),
    ensures
        in_force(s.insert(at, x), timeline, query, mode) == in_force(s, timeline, query, mode),
    decreases s.len(),
{
    let t = s.insert(at, x);
    if at == s.len() {
        assert(t.drop_last() =~= s);
    } else {
        assert(t.last() == s.last());
        assert(t.drop_last() =~= s.drop_last().insert(at, x));
        lemma_insert_unseen(s.drop_last(), at, x, timeline, query, mode);
    }
}

/// No join reads the future: a record not yet available at a query does not
/// change the answer to it, wherever it stands among the others.
pub proof fn law_the_future_changes_nothing<T>(
    s: Seq<Timed<T>>,
    x: Timed<T>,
    timeline: Timeline,
    query: Nanos,
    mode: AsOf,
)
    requires
        in_order_by(s, by_clock(timeline)),
        !available(x.stamped(timeline), query, mode),
    ensures
        in_force(ordered(s.push(x), by_clock(timeline)), timeline, query, mode) == in_force(
            s,
            timeline,
            query,
            mode,
        ),
{
    let le = by_clock::<T>(timeline);
    law_ordered_is_stable(s, le);
    assert(s.push(x).drop_last() =~= s);
    lemma_rank(s, x, le);
    lemma_insert_unseen(s, rank(s, x, le), x, timeline, query, mode);
}

/// Strictly before: what a strict join hands over was stamped before the
/// query, so nothing published in the instant of a decision reaches it.
pub proof fn law_strict_is_strictly_before<T>(s: Seq<Timed<T>>, timeline: Timeline, query: Nanos)
    ensures
        in_force(s, timeline, query, AsOf::Strict) matches Some(x) ==> x.stamped(timeline).0
            < query.0,
    decreases s.len(),
{
    if s.len() > 0 {
        law_strict_is_strictly_before(s.drop_last(), timeline, query);
    }
}

/// When a record was published, on the clock asked for.
pub open spec fn published<T>(x: Timed<T>, timeline: Timeline) -> int {
    match timeline {
        Timeline::Event => x.event.0 as int,
        Timeline::Arrival => x.arrival.0 as int,
    }
}

/// Whether a record had been published by a query: strictly before it, or no
/// later than it.
pub open spec fn published_by<T>(
    x: Timed<T>,
    timeline: Timeline,
    query: Nanos,
    mode: AsOf,
) -> bool {
    published(x, timeline) < query.0 || mode == AsOf::Inclusive && published(x, timeline)
        == query.0
}

/// The latest record published by a query is in force: it had been published,
/// none published by then is later, and of those at one instant it is the last.
/// Nothing is in force only where nothing had been published.
pub proof fn law_the_latest_published_is_in_force<T>(
    s: Seq<Timed<T>>,
    timeline: Timeline,
    query: Nanos,
    mode: AsOf,
)
    requires
        forall|i: int, j: int|
            0 <= i < j < s.len() ==> published(#[trigger] s[i], timeline) <= published(
                #[trigger] s[j],
                timeline,
            ),
    ensures
        match in_force(s, timeline, query, mode) {
            Some(x) => exists|k: int|
                #![trigger s[k]]
                {
                    &&& 0 <= k < s.len()
                    &&& s[k] == x
                    &&& published_by(x, timeline, query, mode)
                    &&& forall|j: int|
                        k < j < s.len() ==> !published_by(#[trigger] s[j], timeline, query, mode)
                    &&& forall|j: int|
                        0 <= j < s.len() && published_by(#[trigger] s[j], timeline, query, mode)
                            ==> published(s[j], timeline) <= published(x, timeline)
                },
            None => forall|j: int|
                0 <= j < s.len() ==> !published_by(#[trigger] s[j], timeline, query, mode),
        },
    decreases s.len(),
{
    if s.len() > 0 {
        let rest = s.drop_last();
        let n = s.len() - 1;
        if available(s.last().stamped(timeline), query, mode) {
            assert(s[n] == s.last());
            assert(published_by(s[n], timeline, query, mode));
        } else {
            assert forall|i: int, j: int| 0 <= i < j < rest.len() implies published(
                #[trigger] rest[i],
                timeline,
            ) <= published(#[trigger] rest[j], timeline) by {
                assert(rest[i] == s[i] && rest[j] == s[j]);
            }
            law_the_latest_published_is_in_force(rest, timeline, query, mode);
            match in_force(rest, timeline, query, mode) {
                Some(x) => {
                    let k = choose|k: int|
                        #![trigger rest[k]]
                        {
                            &&& 0 <= k < rest.len()
                            &&& rest[k] == x
                            &&& published_by(x, timeline, query, mode)
                            &&& forall|j: int|
                                k < j < rest.len() ==> !published_by(
                                    #[trigger] rest[j],
                                    timeline,
                                    query,
                                    mode,
                                )
                            &&& forall|j: int|
                                0 <= j < rest.len() && published_by(
                                    #[trigger] rest[j],
                                    timeline,
                                    query,
                                    mode,
                                ) ==> published(rest[j], timeline) <= published(x, timeline)
                        };
                    assert(s[k] == x);
                    assert forall|j: int| k < j < s.len() implies !published_by(
                        #[trigger] s[j],
                        timeline,
                        query,
                        mode,
                    ) by {
                        if j < n {
                            assert(rest[j] == s[j]);
                        }
                    }
                    assert forall|j: int|
                        0 <= j < s.len() && published_by(
                            #[trigger] s[j],
                            timeline,
                            query,
                            mode,
                        ) implies published(s[j], timeline) <= published(x, timeline) by {
                        if j < n {
                            assert(rest[j] == s[j]);
                        }
                    }
                },
                None => {
                    assert forall|j: int| 0 <= j < s.len() implies !published_by(
                        #[trigger] s[j],
                        timeline,
                        query,
                        mode,
                    ) by {
                        if j < n {
                            assert(rest[j] == s[j]);
                        }
                    }
                },
            }
        }
    }
}

} // verus!
