//! Putting a list in order without disturbing ties.
use vstd::prelude::*;

verus! {

/// How many of the leading elements of `t` stay in front of `x`.
pub open spec fn rank<T>(t: Seq<T>, x: T, le: spec_fn(T, T) -> bool) -> int
    decreases t.len(),
{
    if t.len() == 0 || !le(t[0], x) {
        0
    } else {
        1 + rank(t.drop_first(), x, le)
    }
}

/// `s` in order; elements that tie keep the order they came in.
pub open spec fn ordered<T>(s: Seq<T>, le: spec_fn(T, T) -> bool) -> Seq<T>
    decreases s.len(),
{
    if s.len() == 0 {
        s
    } else {
        let t = ordered(s.drop_last(), le);
        t.insert(rank(t, s.last(), le), s.last())
    }
}

/// Every two elements can be compared, and comparison chains.
pub open spec fn preorder<T>(le: spec_fn(T, T) -> bool) -> bool {
    &&& forall|a: T, b: T| #[trigger] le(a, b) || le(b, a)
    &&& forall|a: T, b: T, c: T| #[trigger] le(a, b) && #[trigger] le(b, c) ==> le(a, c)
}

/// Each element comes before every later one.
pub open spec fn in_order_by<T>(s: Seq<T>, le: spec_fn(T, T) -> bool) -> bool {
    forall|i: int, j: int| 0 <= i < j < s.len() ==> le(#[trigger] s[i], #[trigger] s[j])
}

pub proof fn lemma_rank<T>(t: Seq<T>, x: T, le: spec_fn(T, T) -> bool)
    ensures
        0 <= rank(t, x, le) <= t.len(),
        forall|i: int| 0 <= i < rank(t, x, le) ==> le(#[trigger] t[i], x),
        rank(t, x, le) < t.len() ==> !le(t[rank(t, x, le)], x),
    decreases t.len(),
{
    if t.len() > 0 && le(t[0], x) {
        let u = t.drop_first();
        lemma_rank(u, x, le);
        assert forall|i: int| 0 <= i < rank(t, x, le) implies le(#[trigger] t[i], x) by {
            if i > 0 {
                assert(u[i - 1] == t[i]);
            }
        }
    }
}

/// A place found by looking is the rank.
pub proof fn lemma_rank_is<T>(t: Seq<T>, x: T, le: spec_fn(T, T) -> bool, at: int)
    requires
        0 <= at <= t.len(),
        forall|i: int| 0 <= i < at ==> le(#[trigger] t[i], x),
        at < t.len() ==> !le(t[at], x),
    ensures
        rank(t, x, le) == at,
{
    lemma_rank(t, x, le);
    let r = rank(t, x, le);
    if r < at {
        assert(le(t[r], x));
    }
    if at < r {
        assert(le(t[at], x));
    }
}

pub proof fn lemma_ordered_len<T>(s: Seq<T>, le: spec_fn(T, T) -> bool)
    ensures
        ordered(s, le).len() == s.len(),
    decreases s.len(),
{
    if s.len() > 0 {
        lemma_ordered_len(s.drop_last(), le);
        lemma_rank(ordered(s.drop_last(), le), s.last(), le);
    }
}

/// A list put in order is in order.
pub proof fn law_ordered_is_in_order<T>(s: Seq<T>, le: spec_fn(T, T) -> bool)
    requires
        preorder(le),
    ensures
        in_order_by(ordered(s, le), le),
    decreases s.len(),
{
    if s.len() > 0 {
        let t = ordered(s.drop_last(), le);
        let x = s.last();
        law_ordered_is_in_order(s.drop_last(), le);
        lemma_rank(t, x, le);
        let at = rank(t, x, le);
        let u = t.insert(at, x);
        assert forall|i: int, j: int| 0 <= i < j < u.len() implies le(
            #[trigger] u[i],
            #[trigger] u[j],
        ) by {
            if j < at {
                assert(le(t[i], t[j]));
            } else if j == at {
                assert(le(t[i], x));
            } else if i == at {
                assert(le(t[at], x) || le(x, t[at]));
                if j - 1 > at {
                    assert(le(t[at], t[j - 1]));
                }
            } else if i < at {
                assert(le(t[i], t[j - 1]));
            } else {
                assert(le(t[i - 1], t[j - 1]));
            }
        }
    }
}

/// Putting a list in order loses nothing and adds nothing.
pub proof fn law_ordered_keeps_elements<T>(s: Seq<T>, le: spec_fn(T, T) -> bool)
    ensures
        ordered(s, le).len() == s.len(),
        ordered(s, le).to_multiset() == s.to_multiset(),
        forall|x: T| #[trigger] ordered(s, le).contains(x) <==> s.contains(x),
    decreases s.len(),
{
    broadcast use vstd::seq_lib::group_to_multiset_ensures;
    if s.len() > 0 {
        let t = ordered(s.drop_last(), le);
        let x = s.last();
        law_ordered_keeps_elements(s.drop_last(), le);
        lemma_rank(t, x, le);
        let at = rank(t, x, le);
        let u = t.insert(at, x);
        assert(u.remove(at) =~= t);
        assert(u[at] == x);
        t.insert_ensures(at, x);
        assert(u.to_multiset() =~= t.to_multiset().insert(x)) by {
            vstd::seq_lib::to_multiset_insert(t, at, x);
        }
        assert(s =~= s.drop_last().push(x));
        assert forall|y: T| #[trigger] u.contains(y) <==> s.contains(y) by {
            assert(u.contains(y) <==> u.to_multiset().count(y) > 0);
            assert(s.contains(y) <==> s.to_multiset().count(y) > 0);
        }
    }
}

/// A list that is in order already is left alone.
pub proof fn law_ordered_is_stable<T>(s: Seq<T>, le: spec_fn(T, T) -> bool)
    requires
        in_order_by(s, le),
    ensures
        ordered(s, le) == s,
    decreases s.len(),
{
    if s.len() > 0 {
        let t = s.drop_last();
        law_ordered_is_stable(t, le);
        assert forall|i: int| 0 <= i < t.len() implies le(#[trigger] t[i], s.last()) by {
            assert(le(s[i], s[s.len() - 1]));
        }
        lemma_rank_is(t, s.last(), le, t.len() as int);
        assert(t.insert(t.len() as int, s.last()) =~= s);
    }
}

} // verus!
