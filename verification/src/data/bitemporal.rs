//! Reference data that remembers what was believed, and when.
//!
//! Two times matter for a fact that gets revised: when it applied, and when it
//! was learned. A run of March made in April, replayed today, must give the
//! answer it gave in April, even though more is known now.
use crate::sorting::{
    in_order_by, law_ordered_is_in_order, law_ordered_is_stable, law_ordered_keeps_elements,
    lemma_rank, lemma_rank_is, ordered, preorder, rank,
};
use crate::types::Nanos;
use vstd::prelude::*;

verus! {

/// One version of a fact.
#[derive(Clone, Copy, Debug, PartialEq, Eq)]
pub struct Version<T> {
    /// When the fact started applying in the world.
    pub valid_from: Nanos,
    /// When it was learned.
    pub known_from: Nanos,
    pub value: T,
}

impl<T> Version<T> {
    pub fn new(valid_from: Nanos, known_from: Nanos, value: T) -> (r: Self)
        ensures
            r == (Version { valid_from, known_from, value }),
    {
        Version { valid_from, known_from, value }
    }

    /// A fact learned at the moment it started applying.
    pub fn immediate(at: Nanos, value: T) -> (r: Self)
        ensures
            r == (Version { valid_from: at, known_from: at, value }),
    {
        Version { valid_from: at, known_from: at, value }
    }

    /// Whether the version applies at `valid` to one who knows what was known
    /// at `known`.
    pub open spec fn applies(self, valid: Nanos, known: Nanos) -> bool {
        self.valid_from.0 <= valid.0 && self.known_from.0 <= known.0
    }

    /// Valid time first, then known time.
    pub open spec fn no_later_than(self, other: Self) -> bool {
        self.valid_from.0 < other.valid_from.0 || (self.valid_from.0 == other.valid_from.0
            && self.known_from.0 <= other.known_from.0)
    }
}

/// The order versions are kept in.
pub open spec fn chronology<T>() -> spec_fn(Version<T>, Version<T>) -> bool {
    |a: Version<T>, b: Version<T>| a.no_later_than(b)
}

/// The version believed: the latest of those that apply, and of two alike the
/// one that came second.
pub open spec fn belief<T>(s: Seq<Version<T>>, valid: Nanos, known: Nanos) -> Option<Version<T>>
    decreases s.len(),
{
    if s.len() == 0 {
        None
    } else if s.last().applies(valid, known) {
        Some(s.last())
    } else {
        belief(s.drop_last(), valid, known)
    }
}

/// Versions of one fact over both time axes.
#[derive(Clone, Debug, PartialEq, Eq)]
pub struct Bitemporal<T> {
    versions: Vec<Version<T>>,
}

impl<T> View for Bitemporal<T> {
    type V = Seq<Version<T>>;

    closed spec fn view(&self) -> Seq<Version<T>> {
        self.versions@
    }
}

impl<T> Default for Bitemporal<T> {
    fn default() -> (r: Self)
        ensures
            r@ == Seq::<Version<T>>::empty(),
    {
        Bitemporal { versions: Vec::new() }
    }
}

proof fn lemma_chronology<T>()
    ensures
        preorder(chronology::<T>()),
{
    let le = chronology::<T>();
    assert forall|a: Version<T>, b: Version<T>| #[trigger] le(a, b) || le(b, a) by {}
    assert forall|a: Version<T>, b: Version<T>, c: Version<T>| #[trigger]
        le(a, b) && #[trigger] le(b, c) implies le(a, c) by {}
}

/// Where a version belongs: behind everything no later than it.
fn place<T>(versions: &Vec<Version<T>>, v: &Version<T>) -> (r: usize)
    ensures
        r == rank(versions@, *v, chronology()),
        r <= versions@.len(),
{
    let ghost le = chronology::<T>();
    let mut i: usize = 0;
    while i < versions.len() && (versions[i].valid_from.0 < v.valid_from.0 || (
    versions[i].valid_from.0 == v.valid_from.0 && versions[i].known_from.0 <= v.known_from.0))
        invariant
            i <= versions@.len(),
            le == chronology::<T>(),
            forall|k: int| 0 <= k < i ==> le(#[trigger] versions@[k], *v),
        decreases versions@.len() - i,
    {
        i += 1;
    }
    proof {
        lemma_rank_is(versions@, *v, le, i as int);
    }
    i
}

impl<T> Bitemporal<T> {
    /// The versions, in order of valid time and then of known time.
    pub fn new(versions: Vec<Version<T>>) -> (r: Self)
        ensures
            r@ == ordered(versions@, chronology()),
            in_order_by(r@, chronology()),
    {
        let ghost all = versions@;
        let ghost le = chronology::<T>();
        let mut left = versions;
        let mut kept: Vec<Version<T>> = Vec::new();
        let ghost mut n: int = 0;
        assert(all.subrange(0, 0) =~= Seq::<Version<T>>::empty());
        while left.len() > 0
            invariant
                le == chronology::<T>(),
                0 <= n <= all.len(),
                left@ == all.subrange(n, all.len() as int),
                kept@ == ordered(all.subrange(0, n), le),
            decreases left@.len(),
        {
            assert(left@[0] == all[n]);
            let v = left.remove(0);
            proof {
                assert(left@ =~= all.subrange(n + 1, all.len() as int));
                let now = all.subrange(0, n + 1);
                assert(now.drop_last() =~= all.subrange(0, n));
                assert(now.last() == v);
                n = n + 1;
            }
            let at: usize = place(&kept, &v);
            kept.insert(at, v);
        }
        proof {
            assert(all.subrange(0, n) =~= all);
            lemma_chronology::<T>();
            law_ordered_is_in_order(all, le);
        }
        Bitemporal { versions: kept }
    }

    /// Learn one more version.
    pub fn insert(&mut self, version: Version<T>)
        requires
            in_order_by(old(self)@, chronology()),
        ensures
            final(self)@ == ordered(old(self)@.push(version), chronology()),
            in_order_by(final(self)@, chronology()),
    {
        let ghost start = self@;
        let at: usize = place(&self.versions, &version);
        self.versions.insert(at, version);
        proof {
            let le = chronology::<T>();
            law_ordered_is_stable(start, le);
            assert(start.push(version).drop_last() =~= start);
            lemma_chronology::<T>();
            law_ordered_is_in_order(start.push(version), le);
        }
    }

    pub fn len(&self) -> (r: usize)
        ensures
            r == self@.len(),
    {
        self.versions.len()
    }

    pub fn is_empty(&self) -> (r: bool)
        ensures
            r == (self@.len() == 0),
    {
        self.versions.len() == 0
    }

    pub fn versions(&self) -> (r: &Vec<Version<T>>)
        ensures
            r@ == self@,
    {
        &self.versions
    }

    /// What applied at `valid`, according to what was known at `known`. None
    /// when nothing was known yet, never a fallback to the earliest version.
    pub fn as_believed_at(&self, valid: Nanos, known: Nanos) -> (r: Option<&T>)
        ensures
            match r {
                Some(value) => belief(self@, valid, known) matches Some(v) && v.value == *value,
                None => belief(self@, valid, known) is None,
            },
    {
        let mut i: usize = self.versions.len();
        assert(self@.subrange(0, i as int) =~= self@);
        while i > 0
            invariant
                i <= self.versions@.len(),
                belief(self@, valid, known) == belief(self@.subrange(0, i as int), valid, known),
            decreases i,
        {
            proof {
                let now = self@.subrange(0, i as int);
                assert(now.drop_last() =~= self@.subrange(0, i - 1));
                assert(now.last() == self@[i - 1]);
            }
            let v = &self.versions[i - 1];
            if v.valid_from.0 <= valid.0 && v.known_from.0 <= known.0 {
                return Some(&self.versions[i - 1].value);
            }
            i -= 1;
        }
        None
    }

    /// What applied at `valid`, according to everything known now. Not
    /// reproducible across corrections.
    pub fn current(&self, valid: Nanos) -> (r: Option<&T>)
        ensures
            match r {
                Some(value) => belief(self@, valid, Nanos(i64::MAX)) matches Some(v) && v.value
                    == *value,
                None => belief(self@, valid, Nanos(i64::MAX)) is None,
            },
    {
        self.as_believed_at(valid, Nanos(i64::MAX))
    }

    /// Every instant at which the answer changes on either axis.
    pub fn revisions(&self) -> (r: Vec<(Nanos, Nanos)>)
        ensures
            r@ == self@.map_values(|v: Version<T>| (v.valid_from, v.known_from)),
    {
        let ghost pair = |v: Version<T>| (v.valid_from, v.known_from);
        let mut out: Vec<(Nanos, Nanos)> = Vec::new();
        let mut i: usize = 0;
        while i < self.versions.len()
            invariant
                i <= self.versions@.len(),
                pair == (|v: Version<T>| (v.valid_from, v.known_from)),
                out@ == self@.map_values(pair).subrange(0, i as int),
            decreases self.versions@.len() - i,
        {
            out.push((self.versions[i].valid_from, self.versions[i].known_from));
            i += 1;
            assert(out@ =~= self@.map_values(pair).subrange(0, i as int));
        }
        assert(out@ =~= self@.map_values(pair));
        out
    }

    /// Whether a version was learned after the fact it describes had already
    /// started applying.
    pub fn has_retroactive_corrections(&self) -> (r: bool)
        ensures
            r == exists|i: int|
                0 <= i < self@.len() && (#[trigger] self@[i]).known_from.0 > self@[i].valid_from.0,
    {
        let mut i: usize = 0;
        while i < self.versions.len()
            invariant
                i <= self.versions@.len(),
                forall|k: int|
                    0 <= k < i ==> (#[trigger] self@[k]).known_from.0 <= self@[k].valid_from.0,
            decreases self.versions@.len() - i,
        {
            if self.versions[i].known_from.0 > self.versions[i].valid_from.0 {
                assert(self@[i as int].known_from.0 > self@[i as int].valid_from.0);
                return true;
            }
            i += 1;
        }
        false
    }
}

/// What a version that does not apply is inserted among does not change.
proof fn lemma_insert_silent<T>(
    s: Seq<Version<T>>,
    at: int,
    v: Version<T>,
    valid: Nanos,
    known: Nanos,
)
    requires
        0 <= at <= s.len(),
        !v.applies(valid, known),
    ensures
        belief(s.insert(at, v), valid, known) == belief(s, valid, known),
    decreases s.len(),
{
    let t = s.insert(at, v);
    if at == s.len() {
        assert(t.drop_last() =~= s);
    } else {
        assert(t.last() == s.last());
        assert(t.drop_last() =~= s.drop_last().insert(at, v));
        lemma_insert_silent(s.drop_last(), at, v, valid, known);
    }
}

/// What was learned later does not change what was believed earlier: a run
/// replayed today gives the answer it gave when it was made.
pub proof fn law_later_knowledge_changes_no_earlier_answer<T>(
    s: Seq<Version<T>>,
    v: Version<T>,
    valid: Nanos,
    known: Nanos,
)
    requires
        in_order_by(s, chronology()),
        v.known_from.0 > known.0,
    ensures
        belief(ordered(s.push(v), chronology()), valid, known) == belief(s, valid, known),
{
    let le = chronology::<T>();
    law_ordered_is_stable(s, le);
    assert(s.push(v).drop_last() =~= s);
    lemma_rank(s, v, le);
    lemma_insert_silent(s, rank(s, v, le), v, valid, known);
}

/// The belief is the latest of the versions that apply.
pub proof fn law_the_latest_applicable_is_believed<T>(
    s: Seq<Version<T>>,
    valid: Nanos,
    known: Nanos,
)
    requires
        in_order_by(s, chronology()),
    ensures
        match belief(s, valid, known) {
            Some(v) => {
                &&& s.contains(v)
                &&& v.applies(valid, known)
                &&& forall|w: Version<T>| #[trigger]
                    s.contains(w) && w.applies(valid, known) ==> w.no_later_than(v)
            },
            None => forall|w: Version<T>| #[trigger] s.contains(w) ==> !w.applies(valid, known),
        },
    decreases s.len(),
{
    if s.len() > 0 {
        let le = chronology::<T>();
        let rest = s.drop_last();
        assert forall|i: int, j: int| 0 <= i < j < rest.len() implies le(
            #[trigger] rest[i],
            #[trigger] rest[j],
        ) by {
            assert(le(s[i], s[j]));
        }
        law_the_latest_applicable_is_believed(rest, valid, known);
        assert(s[s.len() - 1] == s.last());
        assert(s.contains(s.last()));
        assert forall|w: Version<T>| #[trigger] s.contains(w) implies rest.contains(w) || w
            == s.last() by {
            let i = choose|i: int| 0 <= i < s.len() && s[i] == w;
            if i < rest.len() {
                assert(rest[i] == w);
            }
        }
        if s.last().applies(valid, known) {
            assert forall|w: Version<T>| #[trigger]
                s.contains(w) && w.applies(valid, known) implies w.no_later_than(s.last()) by {
                let i = choose|i: int| 0 <= i < s.len() && s[i] == w;
                if i < s.len() - 1 {
                    assert(le(s[i], s[s.len() - 1]));
                }
            }
        } else if belief(rest, valid, known) is Some {
            let v = belief(rest, valid, known)->0;
            let i = choose|i: int| 0 <= i < rest.len() && rest[i] == v;
            assert(s[i] == v);
        }
    }
}

/// The order versions were learned in does not change answers, where no two
/// share both times.
pub proof fn law_insertion_order_does_not_matter<T>(
    a: Seq<Version<T>>,
    b: Seq<Version<T>>,
    valid: Nanos,
    known: Nanos,
)
    requires
        forall|v: Version<T>| #[trigger] a.contains(v) <==> b.contains(v),
        forall|v: Version<T>, w: Version<T>|
            #![trigger a.contains(v), a.contains(w)]
            a.contains(v) && a.contains(w) && v.valid_from == w.valid_from && v.known_from
                == w.known_from ==> v == w,
    ensures
        belief(ordered(a, chronology()), valid, known) == belief(
            ordered(b, chronology()),
            valid,
            known,
        ),
{
    let le = chronology::<T>();
    let x = ordered(a, le);
    let y = ordered(b, le);
    lemma_chronology::<T>();
    law_ordered_is_in_order(a, le);
    law_ordered_is_in_order(b, le);
    law_ordered_keeps_elements(a, le);
    law_ordered_keeps_elements(b, le);
    law_the_latest_applicable_is_believed(x, valid, known);
    law_the_latest_applicable_is_believed(y, valid, known);
    match (belief(x, valid, known), belief(y, valid, known)) {
        (Some(v), Some(w)) => {
            assert(x.contains(v) && y.contains(w));
            assert(a.contains(v) && a.contains(w));
            assert(x.contains(w) && y.contains(v));
            assert(w.no_later_than(v) && v.no_later_than(w));
        },
        (Some(v), None) => {
            assert(x.contains(v));
            assert(a.contains(v));
            assert(y.contains(v));
        },
        (None, Some(w)) => {
            assert(y.contains(w));
            assert(b.contains(w));
            assert(x.contains(w));
        },
        _ => {},
    }
}

/// A belief was known and valid: what is believed starts no later than the
/// time asked about and was known no later than the time asked at, and nothing
/// is believed only where no version is both.
pub proof fn law_a_belief_was_known_and_valid<T>(s: Seq<Version<T>>, valid: Nanos, known: Nanos)
    ensures
        match belief(s, valid, known) {
            Some(v) => s.contains(v) && v.valid_from.0 <= valid.0 && v.known_from.0 <= known.0,
            None => forall|i: int|
                0 <= i < s.len() ==> (#[trigger] s[i]).valid_from.0 > valid.0
                    || s[i].known_from.0 > known.0,
        },
    decreases s.len(),
{
    if s.len() > 0 {
        let rest = s.drop_last();
        let n = s.len() - 1;
        law_a_belief_was_known_and_valid(rest, valid, known);
        assert(s[n] == s.last());
        if !s.last().applies(valid, known) {
            match belief(rest, valid, known) {
                Some(v) => {
                    let i = choose|i: int| 0 <= i < rest.len() && rest[i] == v;
                    assert(s[i] == v);
                },
                None => {
                    assert forall|i: int| 0 <= i < s.len() implies (#[trigger] s[i]).valid_from.0
                        > valid.0 || s[i].known_from.0 > known.0 by {
                        if i < n {
                            assert(rest[i] == s[i]);
                        }
                    }
                },
            }
        }
    }
}

/// Of versions kept in order of valid time and then of known time, the one
/// believed is valid latest, and of those valid from one time known latest.
pub proof fn law_the_latest_valid_is_believed<T>(
    s: Seq<Version<T>>,
    valid: Nanos,
    known: Nanos,
    i: int,
)
    requires
        in_order_by(s, chronology()),
        0 <= i < s.len(),
        s[i].valid_from.0 <= valid.0,
        s[i].known_from.0 <= known.0,
    ensures
        belief(s, valid, known) matches Some(v) && (s[i].valid_from.0 < v.valid_from.0
            || s[i].valid_from.0 == v.valid_from.0 && s[i].known_from.0 <= v.known_from.0),
{
    law_the_latest_applicable_is_believed(s, valid, known);
    assert(s.contains(s[i]));
}

} // verus!
