//! Rebuilding an order book from incremental depth.
//!
//! The reconstruction is strict: it refuses an update it cannot place in
//! sequence, and says which rule was broken. A book that quietly absorbs an
//! out-of-order message produces plausible prices that are wrong.
//!
//! Every update covers a range of ids, `first_id..=final_id`, and carries the
//! previous message's `final_id` as `prev_final_id`.
//!
//! - Updates entirely older than the snapshot are dropped: they are already
//!   reflected in it.
//! - The first update applied must straddle the snapshot:
//!   `first_id <= snapshot + 1 <= final_id`.
//! - Every update after that must continue the chain, its `prev_final_id`
//!   matching the last `final_id` seen.
use crate::text::{digits, put_digits};
use crate::types::{lemma_product_bound, magnitude};
use crate::venue::depth::{DepthUpdate, DepthView, Level};
use vstd::prelude::*;

verus! {

/// One side of a book, price-ordered.
#[derive(Clone, Debug, Default, PartialEq, Eq)]
pub struct Side {
    /// Levels, best first: descending for bids, ascending for asks.
    levels: Vec<Level>,
    descending: bool,
}

/// What one side holds.
#[verifier::ext_equal]
pub struct SideView {
    /// Levels, best first.
    pub levels: Seq<Level>,
    /// Whether the best price is the highest.
    pub descending: bool,
}

impl View for Side {
    type V = SideView;

    closed spec fn view(&self) -> SideView {
        SideView { levels: self.levels@, descending: self.descending }
    }
}

impl SideView {
    /// Whether price `p` stands in front of price `q`.
    pub open spec fn better(self, p: i64, q: i64) -> bool {
        if self.descending {
            p > q
        } else {
            p < q
        }
    }

    /// Levels are strictly ordered by price and none is empty.
    pub open spec fn wf(self) -> bool {
        &&& forall|i: int, j: int|
            0 <= i < j < self.levels.len() ==> self.better(
                #[trigger] self.levels[i].price,
                #[trigger] self.levels[j].price,
            )
        &&& forall|i: int|
            0 <= i < self.levels.len() ==> (#[trigger] self.levels[i]).qty != 0
    }

    /// Whether some level stands at `price`.
    pub open spec fn has(self, price: i64) -> bool {
        exists|i: int| 0 <= i < self.levels.len() && (#[trigger] self.levels[i]).price == price
    }

    /// The index of the level at `price`.
    pub open spec fn index_of(self, price: i64) -> int {
        choose|i: int| 0 <= i < self.levels.len() && (#[trigger] self.levels[i]).price == price
    }

    /// The side as a map from price to quantity.
    pub open spec fn book(self) -> Map<i64, i64> {
        Map::new(|p: i64| self.has(p), |p: i64| self.levels[self.index_of(p)].qty)
    }

    /// The side's map after one level change: a zero removes the level.
    pub open spec fn changed(self, level: Level) -> Map<i64, i64> {
        if level.qty == 0 {
            self.book().remove(level.price)
        } else {
            self.book().insert(level.price, level.qty)
        }
    }
}

/// A price map after a run of level changes, in order.
pub open spec fn changed_by(book: Map<i64, i64>, levels: Seq<Level>) -> Map<i64, i64>
    decreases levels.len(),
{
    if levels.len() == 0 {
        book
    } else {
        let before = changed_by(book, levels.drop_last());
        let level = levels.last();
        if level.qty == 0 {
            before.remove(level.price)
        } else {
            before.insert(level.price, level.qty)
        }
    }
}

/// What one level gives to a taker who still wants `want`.
pub open spec fn given(level: Level, want: int) -> int {
    if level.qty <= 0 {
        0
    } else if level.qty <= want {
        level.qty as int
    } else {
        want
    }
}

/// Quantity taken from the front of `levels` by a taker of `want`.
pub open spec fn taken_from(levels: Seq<Level>, want: int) -> int
    decreases levels.len(),
{
    if levels.len() == 0 {
        0
    } else {
        let take = given(levels[0], want);
        take + taken_from(levels.drop_first(), want - take)
    }
}

/// Price times quantity over what was taken.
pub open spec fn cost_from(levels: Seq<Level>, want: int) -> int
    decreases levels.len(),
{
    if levels.len() == 0 {
        0
    } else {
        let take = given(levels[0], want);
        levels[0].price * take + cost_from(levels.drop_first(), want - take)
    }
}

/// Levels left behind a taker of `want`: those emptied are gone, the one
/// partly taken is smaller, the rest are as they were.
pub open spec fn left_behind(levels: Seq<Level>, want: int) -> Seq<Level>
    decreases levels.len(),
{
    if levels.len() == 0 {
        Seq::empty()
    } else {
        let take = given(levels[0], want);
        let rest = left_behind(levels.drop_first(), want - take);
        if take > 0 && take == levels[0].qty {
            rest
        } else {
            seq![Level { price: levels[0].price, qty: (levels[0].qty - take) as i64 }] + rest
        }
    }
}

/// The result of taking size off one side of a book.
///
/// Prices are not averaged here: which way to round is for a caller that
/// knows which way it is trading.
#[derive(Clone, Copy, Debug, PartialEq, Eq, Structural)]
pub struct Sweep {
    /// Quantity actually taken, at most the quantity asked for.
    pub taken: i64,
    /// Total price times quantity over every level touched.
    pub cost: i128,
    /// The side ran out before the requested quantity was filled.
    pub exhausted: bool,
}

/// What a sweep of `qty` over `levels` reports.
pub open spec fn swept(levels: Seq<Level>, qty: int) -> Sweep {
    let want = if qty > 0 {
        qty
    } else {
        0
    };
    Sweep {
        taken: taken_from(levels, want) as i64,
        cost: cost_from(levels, want) as i128,
        exhausted: taken_from(levels, want) < want,
    }
}

/// The sums of a sweep stay within their machine types.
proof fn lemma_sweep_bounds(levels: Seq<Level>, want: int)
    requires
        0 <= want <= i64::MAX,
    ensures
        0 <= taken_from(levels, want) <= want,
        magnitude(cost_from(levels, want)) <= 0x8000_0000_0000_0000 * taken_from(levels, want),
    decreases levels.len(),
{
    if levels.len() > 0 {
        let take = given(levels[0], want);
        lemma_sweep_bounds(levels.drop_first(), want - take);
        lemma_product_bound(levels[0].price as int, take, 0x8000_0000_0000_0000, take);
    }
}

/// A sweep's report is its sums: neither is cut to fit.
pub proof fn lemma_sweep_fits(levels: Seq<Level>, qty: int)
    requires
        qty <= i64::MAX,
    ensures
        ({
            let want = if qty > 0 {
                qty
            } else {
                0
            };
            &&& swept(levels, qty).taken == taken_from(levels, want)
            &&& swept(levels, qty).cost == cost_from(levels, want)
            &&& magnitude(swept(levels, qty).cost as int)
                <= 0x4000_0000_0000_0000_0000_0000_0000_0000
        }),
{
    let want = if qty > 0 {
        qty
    } else {
        0
    };
    lemma_sweep_bounds(levels, want);
}

/// Nothing wanted takes nothing and leaves everything.
proof fn lemma_nothing_wanted(levels: Seq<Level>)
    ensures
        taken_from(levels, 0) == 0,
        cost_from(levels, 0) == 0,
        left_behind(levels, 0) == levels,
    decreases levels.len(),
{
    if levels.len() > 0 {
        lemma_nothing_wanted(levels.drop_first());
        assert(given(levels[0], 0) == 0);
        assert(levels[0].price * 0 == 0);
        assert(seq![levels[0]] + levels.drop_first() =~= levels);
    } else {
        assert(left_behind(levels, 0) =~= levels);
    }
}

/// On an ordered side, a level is where its price says.
proof fn lemma_book_at(s: SideView, i: int)
    requires
        s.wf(),
        0 <= i < s.levels.len(),
    ensures
        s.has(s.levels[i].price),
        s.index_of(s.levels[i].price) == i,
        s.book().contains_key(s.levels[i].price),
        s.book()[s.levels[i].price] == s.levels[i].qty,
{
    let p = s.levels[i].price;
    let j = s.index_of(p);
    assert(0 <= j < s.levels.len() && s.levels[j].price == p);
    if j < i {
        assert(s.better(s.levels[j].price, s.levels[i].price));
    }
    if i < j {
        assert(s.better(s.levels[i].price, s.levels[j].price));
    }
}

/// What a plan of how much to take from each level takes.
pub open spec fn planned(plan: Seq<int>) -> int
    decreases plan.len(),
{
    if plan.len() == 0 {
        0
    } else {
        plan[0] + planned(plan.drop_first())
    }
}

/// Price times quantity over what a plan takes.
pub open spec fn plan_cost(levels: Seq<Level>, plan: Seq<int>) -> int
    decreases levels.len(),
{
    if levels.len() == 0 {
        0
    } else {
        levels[0].price * plan[0] + plan_cost(levels.drop_first(), plan.drop_first())
    }
}

/// Whether a plan takes from each level no more than stands there.
pub open spec fn is_plan(levels: Seq<Level>, plan: Seq<int>) -> bool {
    &&& plan.len() == levels.len()
    &&& forall|i: int|
        0 <= i < plan.len() ==> 0 <= #[trigger] plan[i] && (plan[i] == 0 || plan[i]
            <= levels[i].qty)
}

/// A plan that takes `more` than the best-first walk does pays for that at least
/// the price `p` that no level is better than; `sign` is one where the best price
/// is the lowest, and minus one where it is the highest.
proof fn lemma_plan(levels: Seq<Level>, want: int, plan: Seq<int>, more: int, p: int, sign: int)
    requires
        is_plan(levels, plan),
        0 <= want,
        0 <= more,
        sign == 1 || sign == -1,
        planned(plan) == taken_from(levels, want) + more,
        forall|i: int| 0 <= i < levels.len() ==> p <= sign * (#[trigger] levels[i]).price,
        forall|i: int, j: int|
            0 <= i < j < levels.len() ==> sign * (#[trigger] levels[i]).price <= sign * (
            #[trigger] levels[j]).price,
    ensures
        sign * plan_cost(levels, plan) >= sign * cost_from(levels, want) + p * more,
    decreases levels.len(),
{
    if levels.len() == 0 {
        assert(more == 0);
        assert(p * 0 == 0);
    } else {
        let rest = levels.drop_first();
        let after = plan.drop_first();
        let price = levels[0].price as int;
        let q = sign * price;
        let g = given(levels[0], want);
        let t = plan[0];
        assert(is_plan(rest, after)) by {
            assert forall|i: int| 0 <= i < after.len() implies 0 <= #[trigger] after[i] && (after[i]
                == 0 || after[i] <= rest[i].qty) by {
                assert(after[i] == plan[i + 1]);
            }
        }
        assert forall|i: int| 0 <= i < rest.len() implies q <= sign * (#[trigger] rest[i]).price by {
            assert(rest[i] == levels[i + 1]);
        }
        assert forall|i: int, j: int| 0 <= i < j < rest.len() implies sign * (
        #[trigger] rest[i]).price <= sign * (#[trigger] rest[j]).price by {
            assert(rest[i] == levels[i + 1] && rest[j] == levels[j + 1]);
        }
        lemma_planned(rest, after);
        let over = more + g - t;
        if t <= g {
            lemma_plan(rest, want - g, after, over, q, sign);
        } else {
            assert(g == want);
            lemma_nothing_wanted(rest);
            lemma_plan(rest, 0, after, over, q, sign);
        }
        let had = cost_from(rest, want - g);
        let paid = plan_cost(rest, after);
        assert(sign * (price * t + paid) >= sign * (price * g + had) + p * more) by (nonlinear_arith)
            requires
                sign * paid >= sign * had + q * over,
                q == sign * price,
                over == more + g - t,
                p <= q,
                more >= 0,
        ;
    }
}

proof fn lemma_planned(levels: Seq<Level>, plan: Seq<int>)
    requires
        is_plan(levels, plan),
    ensures
        planned(plan) >= 0,
    decreases plan.len(),
{
    if plan.len() > 0 {
        let rest = levels.drop_first();
        let after = plan.drop_first();
        assert(is_plan(rest, after)) by {
            assert forall|i: int| 0 <= i < after.len() implies 0 <= #[trigger] after[i] && (after[i]
                == 0 || after[i] <= rest[i].qty) by {
                assert(after[i] == plan[i + 1]);
            }
        }
        lemma_planned(rest, after);
    }
}

/// No way of taking as much as a sweep takes is better than the sweep: a buyer
/// pays no less for it, and a seller is paid no more.
pub proof fn law_a_sweep_is_the_best_way(side: SideView, qty: int, plan: Seq<int>)
    requires
        side.wf(),
        qty <= i64::MAX,
        is_plan(side.levels, plan),
        planned(plan) == swept(side.levels, qty).taken,
    ensures
        side.descending ==> plan_cost(side.levels, plan) <= swept(side.levels, qty).cost,
        !side.descending ==> plan_cost(side.levels, plan) >= swept(side.levels, qty).cost,
{
    lemma_sweep_fits(side.levels, qty);
    let want = if qty > 0 {
        qty
    } else {
        0
    };
    let sign: int = if side.descending {
        -1
    } else {
        1
    };
    let p: int = if side.levels.len() > 0 {
        sign * side.levels[0].price
    } else {
        0
    };
    assert forall|i: int, j: int| 0 <= i < j < side.levels.len() implies sign * (
    #[trigger] side.levels[i]).price <= sign * (#[trigger] side.levels[j]).price by {
        assert(side.better(side.levels[i].price, side.levels[j].price));
    }
    lemma_plan(side.levels, want, plan, 0, p, sign);
}

impl Side {
    /// An empty bid side (best = highest price).
    pub fn bids() -> (r: Self)
        ensures
            r@.wf(),
            r@ == (SideView { levels: Seq::empty(), descending: true }),
    {
        Side { levels: Vec::new(), descending: true }
    }

    /// An empty ask side (best = lowest price).
    pub fn asks() -> (r: Self)
        ensures
            r@.wf(),
            r@ == (SideView { levels: Seq::empty(), descending: false }),
    {
        Side { levels: Vec::new(), descending: false }
    }

    /// Where `price` stands, or where it would be put.
    fn position(&self, price: i64) -> (r: Result<usize, usize>)
        requires
            self@.wf(),
        ensures
            match r {
                Ok(i) => i < self@.levels.len() && self@.levels[i as int].price == price,
                Err(i) => {
                    &&& i <= self@.levels.len()
                    &&& forall|j: int|
                        0 <= j < i ==> self@.better((#[trigger] self@.levels[j]).price, price)
                    &&& forall|j: int|
                        i <= j < self@.levels.len() ==> self@.better(
                            price,
                            (#[trigger] self@.levels[j]).price,
                        )
                },
            },
    {
        let mut lo: usize = 0;
        let mut hi: usize = self.levels.len();
        while lo < hi
            invariant
                self@.wf(),
                lo <= hi <= self@.levels.len(),
                forall|j: int|
                    0 <= j < lo ==> self@.better((#[trigger] self@.levels[j]).price, price),
                forall|j: int|
                    hi <= j < self@.levels.len() ==> self@.better(
                        price,
                        (#[trigger] self@.levels[j]).price,
                    ),
            decreases hi - lo,
        {
            let mid: usize = lo + (hi - lo) / 2;
            let at: i64 = self.levels[mid].price;
            assert(at == self@.levels[mid as int].price);
            if at == price {
                return Ok(mid);
            }
            let in_front = if self.descending {
                at > price
            } else {
                at < price
            };
            if in_front {
                lo = mid + 1;
            } else {
                hi = mid;
            }
        }
        Err(lo)
    }

    /// Apply one level change. A zero quantity removes the level; removing a
    /// level that was never there is normal.
    pub fn apply(&mut self, level: Level)
        requires
            old(self)@.wf(),
        ensures
            final(self)@.wf(),
            final(self)@.descending == old(self)@.descending,
            final(self)@.book() == old(self)@.changed(level),
    {
        let ghost before = self@;
        match self.position(level.price) {
            Ok(index) => {
                if level.qty == 0 {
                    let _gone = self.levels.remove(index);
                    proof {
                        lemma_removed(before, self@, index as int);
                    }
                } else {
                    self.levels.set(index, level);
                    proof {
                        lemma_replaced(before, self@, index as int, level);
                    }
                }
            },
            Err(index) => {
                if level.qty == 0 {
                    proof {
                        assert(!before.has(level.price));
                        assert(before.book().remove(level.price) =~= before.book());
                    }
                } else {
                    self.levels.insert(index, level);
                    proof {
                        lemma_inserted(before, self@, index as int, level);
                    }
                }
            },
        }
    }

    /// Levels, best first.
    pub fn levels(&self) -> (r: &Vec<Level>)
        ensures
            r@ == self@.levels,
    {
        &self.levels
    }

    /// The best price and quantity, if the side is not empty.
    pub fn best(&self) -> (r: Option<Level>)
        ensures
            r == (if self@.levels.len() == 0 {
                None
            } else {
                Some(self@.levels[0])
            }),
    {
        if self.levels.len() == 0 {
            None
        } else {
            Some(self.levels[0])
        }
    }

    /// Number of levels held.
    pub fn depth(&self) -> (r: usize)
        ensures
            r == self@.levels.len(),
    {
        self.levels.len()
    }

    /// A side of its own with the same levels.
    pub fn duplicate(&self) -> (r: Self)
        ensures
            r@ == self@,
    {
        let mut levels: Vec<Level> = Vec::new();
        let mut i: usize = 0;
        while i < self.levels.len()
            invariant
                i <= self.levels@.len(),
                levels@ == self.levels@.subrange(0, i as int),
            decreases self.levels@.len() - i,
        {
            levels.push(self.levels[i]);
            i += 1;
            assert(self.levels@.subrange(0, i as int) =~= self.levels@.subrange(0, i - 1).push(
                self.levels@[i - 1],
            ));
        }
        assert(levels@ =~= self.levels@);
        Side { levels, descending: self.descending }
    }

    /// What taking `qty` from this side would cost, best price first.
    ///
    /// The side is not modified: this answers a question, it does not execute
    /// anything. A buy sweeps the asks and a sell sweeps the bids.
    pub fn sweep(&self, qty: i64) -> (r: Sweep)
        ensures
            r == swept(self@.levels, qty as int),
    {
        let want0: i64 = if qty > 0 {
            qty
        } else {
            0
        };
        let mut want: i64 = want0;
        let mut taken: i64 = 0;
        let mut cost: i128 = 0;
        let mut i: usize = 0;
        proof {
            assert(self.levels@.subrange(0, self.levels@.len() as int) =~= self.levels@);
        }
        while i < self.levels.len() && want > 0
            invariant
                i <= self.levels@.len(),
                0 <= want <= want0,
                taken == want0 - want,
                magnitude(cost as int) <= 0x8000_0000_0000_0000 * taken,
                taken_from(self.levels@, want0 as int) == taken + taken_from(
                    self.levels@.subrange(i as int, self.levels@.len() as int),
                    want as int,
                ),
                cost_from(self.levels@, want0 as int) == cost + cost_from(
                    self.levels@.subrange(i as int, self.levels@.len() as int),
                    want as int,
                ),
            decreases self.levels@.len() - i,
        {
            let level = self.levels[i];
            let give: i64 = if level.qty > 0 {
                level.qty
            } else {
                0
            };
            let take: i64 = if want < give {
                want
            } else {
                give
            };
            proof {
                let rest = self.levels@.subrange(i as int, self.levels@.len() as int);
                assert(rest.drop_first() =~= self.levels@.subrange(
                    i + 1,
                    self.levels@.len() as int,
                ));
                assert(take == given(rest[0], want as int));
                lemma_product_bound(
                    level.price as int,
                    take as int,
                    0x8000_0000_0000_0000,
                    take as int,
                );
            }
            // Wide, because price times quantity leaves `i64` at plausible
            // sizes.
            let step: i128 = level.price as i128 * take as i128;
            cost = cost + step;
            taken = taken + take;
            want = want - take;
            i += 1;
        }
        proof {
            let rest = self.levels@.subrange(i as int, self.levels@.len() as int);
            if want == 0 {
                lemma_nothing_wanted(rest);
            } else {
                assert(rest =~= Seq::<Level>::empty());
            }
        }
        Sweep { taken, cost, exhausted: want > 0 }
    }

    /// Take `qty` off this side, removing what was consumed.
    ///
    /// The consuming half of [`sweep`](Self::sweep), for a caller filling
    /// several orders against one snapshot of the book: each takes what the
    /// ones before it left.
    pub fn take(&mut self, qty: i64) -> (r: Sweep)
        requires
            old(self)@.wf(),
        ensures
            r == swept(old(self)@.levels, qty as int),
            final(self)@.wf(),
            final(self)@.descending == old(self)@.descending,
            final(self)@.levels == left_behind(
                old(self)@.levels,
                if qty > 0 {
                    qty as int
                } else {
                    0
                },
            ),
    {
        let sweep = self.sweep(qty);
        let want0: i64 = if qty > 0 {
            qty
        } else {
            0
        };
        let ghost all = self.levels@;
        let mut left: Vec<Level> = Vec::new();
        let mut want: i64 = want0;
        let mut i: usize = 0;
        proof {
            assert(all.subrange(0, all.len() as int) =~= all);
            assert(Seq::<Level>::empty() + left_behind(all, want0 as int) =~= left_behind(
                all,
                want0 as int,
            ));
        }
        while i < self.levels.len()
            invariant
                self.levels@ == all,
                i <= all.len(),
                0 <= want <= want0,
                left_behind(all, want0 as int) == left@ + left_behind(
                    all.subrange(i as int, all.len() as int),
                    want as int,
                ),
            decreases all.len() - i,
        {
            let level = self.levels[i];
            let give: i64 = if level.qty > 0 {
                level.qty
            } else {
                0
            };
            let take: i64 = if want < give {
                want
            } else {
                give
            };
            let ghost rest = all.subrange(i as int, all.len() as int);
            let ghost held = left@;
            proof {
                assert(rest.drop_first() =~= all.subrange(i + 1, all.len() as int));
                assert(take == given(rest[0], want as int));
            }
            if !(take > 0 && take == level.qty) {
                left.push(Level { price: level.price, qty: level.qty - take });
            }
            want = want - take;
            i += 1;
            proof {
                assert(left@ + left_behind(all.subrange(i as int, all.len() as int), want as int)
                    =~= held + left_behind(rest, want + take));
            }
        }
        proof {
            assert(all.subrange(i as int, all.len() as int) =~= Seq::<Level>::empty());
            assert(left@ =~= left_behind(all, want0 as int));
            lemma_left_ordered(
                SideView { levels: all, descending: self.descending },
                want0 as int,
            );
        }
        self.levels = left;
        sweep
    }
}

proof fn lemma_removed(before: SideView, after: SideView, at: int)
    requires
        before.wf(),
        0 <= at < before.levels.len(),
        after == (SideView { levels: before.levels.remove(at), ..before }),
    ensures
        after.wf(),
        after.book() == before.book().remove(before.levels[at].price),
{
    let price = before.levels[at].price;
    assert forall|i: int, j: int| 0 <= i < j < after.levels.len() implies after.better(
        #[trigger] after.levels[i].price,
        #[trigger] after.levels[j].price,
    ) by {
        let i0 = if i < at {
            i
        } else {
            i + 1
        };
        let j0 = if j < at {
            j
        } else {
            j + 1
        };
        assert(before.better(before.levels[i0].price, before.levels[j0].price));
    }
    assert(after.wf());
    assert forall|p: i64| #![auto] after.has(p) == (before.has(p) && p != price) by {
        if after.has(p) {
            let i = after.index_of(p);
            let i0 = if i < at {
                i
            } else {
                i + 1
            };
            assert(before.levels[i0].price == p);
            lemma_book_at(before, i0);
            lemma_book_at(before, at);
        }
        if before.has(p) && p != price {
            let i0 = before.index_of(p);
            let i = if i0 < at {
                i0
            } else {
                i0 - 1
            };
            assert(after.levels[i].price == p);
        }
    }
    assert forall|p: i64| #[trigger] after.has(p) implies after.book()[p] == before.book()[p] by {
        let i = after.index_of(p);
        let i0 = if i < at {
            i
        } else {
            i + 1
        };
        lemma_book_at(after, i);
        lemma_book_at(before, i0);
    }
    assert(after.book() =~= before.book().remove(price));
}

proof fn lemma_replaced(before: SideView, after: SideView, at: int, level: Level)
    requires
        before.wf(),
        0 <= at < before.levels.len(),
        before.levels[at].price == level.price,
        level.qty != 0,
        after == (SideView { levels: before.levels.update(at, level), ..before }),
    ensures
        after.wf(),
        after.book() == before.book().insert(level.price, level.qty),
{
    assert forall|i: int, j: int| 0 <= i < j < after.levels.len() implies after.better(
        #[trigger] after.levels[i].price,
        #[trigger] after.levels[j].price,
    ) by {
        assert(before.better(before.levels[i].price, before.levels[j].price));
    }
    lemma_book_at(before, at);
    lemma_book_at(after, at);
    assert forall|p: i64| #![auto] after.has(p) == before.has(p) by {
        if after.has(p) {
            assert(before.levels[after.index_of(p)].price == p);
        }
        if before.has(p) {
            assert(after.levels[before.index_of(p)].price == p);
        }
    }
    assert forall|p: i64| #[trigger] after.has(p) && p != level.price implies after.book()[p]
        == before.book()[p] by {
        let i = after.index_of(p);
        lemma_book_at(after, i);
        lemma_book_at(before, i);
    }
    assert(after.book() =~= before.book().insert(level.price, level.qty));
}

proof fn lemma_inserted(before: SideView, after: SideView, at: int, level: Level)
    requires
        before.wf(),
        0 <= at <= before.levels.len(),
        level.qty != 0,
        forall|j: int| 0 <= j < at ==> before.better((#[trigger] before.levels[j]).price, level.price),
        forall|j: int|
            at <= j < before.levels.len() ==> before.better(
                level.price,
                (#[trigger] before.levels[j]).price,
            ),
        after == (SideView { levels: before.levels.insert(at, level), ..before }),
    ensures
        after.wf(),
        after.book() == before.book().insert(level.price, level.qty),
{
    assert forall|i: int, j: int| 0 <= i < j < after.levels.len() implies after.better(
        #[trigger] after.levels[i].price,
        #[trigger] after.levels[j].price,
    ) by {
        let i0 = if i < at {
            i
        } else {
            i - 1
        };
        let j0 = if j < at {
            j
        } else {
            j - 1
        };
        if i != at && j != at {
            assert(before.better(before.levels[i0].price, before.levels[j0].price));
        } else if i == at {
            assert(before.better(level.price, before.levels[j0].price));
        } else {
            assert(before.better(before.levels[i0].price, level.price));
        }
    }
    assert(after.wf());
    assert(after.levels[at] == level);
    lemma_book_at(after, at);
    assert forall|p: i64| #![auto] after.has(p) == (before.has(p) || p == level.price) by {
        if after.has(p) && p != level.price {
            let i = after.index_of(p);
            let i0 = if i < at {
                i
            } else {
                i - 1
            };
            assert(before.levels[i0].price == p);
        }
        if before.has(p) {
            let i0 = before.index_of(p);
            let i = if i0 < at {
                i0
            } else {
                i0 + 1
            };
            assert(after.levels[i].price == p);
        }
    }
    assert forall|p: i64| #[trigger] after.has(p) && p != level.price implies after.book()[p]
        == before.book()[p] by {
        let i = after.index_of(p);
        let i0 = if i < at {
            i
        } else {
            i - 1
        };
        lemma_book_at(after, i);
        lemma_book_at(before, i0);
    }
    assert(after.book() =~= before.book().insert(level.price, level.qty));
}

/// What is left behind keeps its order, and its prices come from the side.
proof fn lemma_left_ordered(s: SideView, want: int)
    requires
        s.wf(),
        0 <= want,
    ensures
        (SideView { levels: left_behind(s.levels, want), ..s }).wf(),
        forall|i: int|
            0 <= i < left_behind(s.levels, want).len() ==> s.has(
                (#[trigger] left_behind(s.levels, want)[i]).price,
            ),
    decreases s.levels.len(),
{
    if s.levels.len() > 0 {
        let first = s.levels[0];
        let take = given(first, want);
        let tail = SideView { levels: s.levels.drop_first(), ..s };
        assert forall|i: int, j: int| 0 <= i < j < tail.levels.len() implies tail.better(
            #[trigger] tail.levels[i].price,
            #[trigger] tail.levels[j].price,
        ) by {
            assert(s.better(s.levels[i + 1].price, s.levels[j + 1].price));
        }
        lemma_left_ordered(tail, want - take);
        let rest = left_behind(tail.levels, want - take);
        let all = left_behind(s.levels, want);
        assert forall|i: int| 0 <= i < rest.len() implies s.has((#[trigger] rest[i]).price)
            && s.better(first.price, rest[i].price) by {
            assert(tail.has(rest[i].price));
            let k = tail.index_of(rest[i].price);
            assert(s.levels[k + 1].price == rest[i].price);
            assert(s.better(s.levels[0].price, s.levels[k + 1].price));
        }
        if take > 0 && take == first.qty {
            assert(all =~= rest);
        } else {
            assert(all.len() == rest.len() + 1);
            assert(all[0].price == first.price);
            assert(forall|i: int| 1 <= i < all.len() ==> #[trigger] all[i] == rest[i - 1]);
            assert(s.levels[0].price == first.price);
            let after = SideView { levels: all, ..s };
            let kept = SideView { levels: rest, ..s };
            assert(kept.wf());
            assert forall|i: int, j: int| 0 <= i < j < after.levels.len() implies after.better(
                #[trigger] after.levels[i].price,
                #[trigger] after.levels[j].price,
            ) by {
                if i > 0 {
                    assert(kept.better(kept.levels[i - 1].price, kept.levels[j - 1].price));
                } else {
                    assert(s.better(first.price, rest[j - 1].price));
                }
            }
            assert forall|i: int| 0 <= i < after.levels.len() implies (
            #[trigger] after.levels[i]).qty != 0 by {
                if i > 0 {
                    assert(kept.levels[i - 1].qty != 0);
                }
            }
        }
    }
}

/// Why an update could not be applied.
#[derive(Clone, Copy, Debug, PartialEq, Eq, Structural)]
pub enum SequenceError {
    /// The book has no snapshot yet, so there is nothing to apply to.
    NoSnapshot,
    /// The first update after a snapshot did not straddle it.
    DoesNotStraddleSnapshot { snapshot: u64, first_id: u64, final_id: u64 },
    /// The chain broke: messages were lost between these two ids.
    Gap { expected: u64, found: u64 },
}

impl SequenceError {
    /// The error in words.
    pub open spec fn text(self) -> Seq<char> {
        match self {
            SequenceError::NoSnapshot => "no snapshot: nothing to apply updates to"@,
            SequenceError::DoesNotStraddleSnapshot { snapshot, first_id, final_id } =>
                "first update "@ + digits(first_id as nat) + "..="@ + digits(final_id as nat)
                + " does not straddle snapshot "@ + digits(snapshot as nat),
            SequenceError::Gap { expected, found } =>
                "sequence gap: expected to continue from "@ + digits(expected as nat) + ", got "@
                + digits(found as nat),
        }
    }

    /// The error in words.
    pub fn to_text(&self) -> (r: String)
        ensures
            r@ == self.text(),
    {
        let mut out = String::new();
        match *self {
            SequenceError::NoSnapshot => {
                out.append("no snapshot: nothing to apply updates to");
            },
            SequenceError::DoesNotStraddleSnapshot { snapshot, first_id, final_id } => {
                out.append("first update ");
                put_digits(&mut out, first_id);
                out.append("..=");
                put_digits(&mut out, final_id);
                out.append(" does not straddle snapshot ");
                put_digits(&mut out, snapshot);
            },
            SequenceError::Gap { expected, found } => {
                out.append("sequence gap: expected to continue from ");
                put_digits(&mut out, expected);
                out.append(", got ");
                put_digits(&mut out, found);
            },
        }
        assert(out@ =~= self.text());
        out
    }
}

/// What applying an update did.
#[derive(Clone, Copy, Debug, PartialEq, Eq, Structural)]
pub enum Applied {
    /// The book advanced.
    Updated,
    /// The update predates the snapshot and was already reflected in it.
    AlreadyInSnapshot,
}

/// A book rebuilt from a snapshot plus incremental updates.
#[derive(Clone, Debug)]
pub struct Book {
    bids: Side,
    asks: Side,
    last_id: Option<u64>,
    snapshot_id: Option<u64>,
    applied: u64,
}

/// What a book holds.
#[verifier::ext_equal]
pub struct BookView {
    pub bids: SideView,
    pub asks: SideView,
    /// The last update applied since the snapshot.
    pub last_id: Option<u64>,
    pub snapshot_id: Option<u64>,
    /// Updates applied since the snapshot.
    pub applied: u64,
}

impl View for Book {
    type V = BookView;

    closed spec fn view(&self) -> BookView {
        BookView {
            bids: self.bids@,
            asks: self.asks@,
            last_id: self.last_id,
            snapshot_id: self.snapshot_id,
            applied: self.applied,
        }
    }
}

impl BookView {
    /// A book with nothing in it and no snapshot to build on.
    pub open spec fn fresh() -> BookView {
        BookView {
            bids: SideView { levels: Seq::empty(), descending: true },
            asks: SideView { levels: Seq::empty(), descending: false },
            last_id: None,
            snapshot_id: None,
            applied: 0,
        }
    }

    /// Both sides are in order.
    pub open spec fn wf(self) -> bool {
        &&& self.bids.wf()
        &&& self.asks.wf()
        &&& self.bids.descending
        &&& !self.asks.descending
    }

    /// The id an update claims to follow: the one it names, or the one before
    /// its first.
    pub open spec fn follows(update: DepthView) -> u64 {
        match update.prev_final_id {
            Some(p) => p,
            None => if update.first_id == 0 {
                0
            } else {
                (update.first_id - 1) as u64
            },
        }
    }

    /// What the sequencing rules say of an update.
    pub open spec fn verdict(self, update: DepthView) -> Result<Applied, SequenceError> {
        match (self.snapshot_id, self.last_id) {
            (None, _) => Err(SequenceError::NoSnapshot),
            (Some(snapshot), None) => if update.final_id <= snapshot {
                Ok(Applied::AlreadyInSnapshot)
            } else if update.first_id > snapshot + 1 {
                Err(
                    SequenceError::DoesNotStraddleSnapshot {
                        snapshot,
                        first_id: update.first_id,
                        final_id: update.final_id,
                    },
                )
            } else {
                Ok(Applied::Updated)
            },
            (Some(_), Some(last)) => if Self::follows(update) != last {
                Err(SequenceError::Gap { expected: last, found: Self::follows(update) })
            } else {
                Ok(Applied::Updated)
            },
        }
    }

    /// Whether `self` is `before` with one update applied.
    pub open spec fn advanced(self, before: BookView, update: DepthView) -> bool {
        &&& self.wf()
        &&& self.bids.book() == changed_by(before.bids.book(), update.bids)
        &&& self.asks.book() == changed_by(before.asks.book(), update.asks)
        &&& self.last_id == Some(update.final_id)
        &&& self.snapshot_id == before.snapshot_id
        &&& self.applied == (if before.applied == u64::MAX {
            u64::MAX as int
        } else {
            before.applied + 1
        })
    }

    /// Whether `self` is a snapshot with nothing applied to it yet.
    pub open spec fn seeded(self, update_id: u64, bids: Seq<Level>, asks: Seq<Level>) -> bool {
        &&& self.wf()
        &&& self.bids.book() == changed_by(Map::empty(), bids)
        &&& self.asks.book() == changed_by(Map::empty(), asks)
        &&& self.snapshot_id == Some(update_id)
        &&& self.last_id is None
        &&& self.applied == 0
    }

    /// Both sides hold something and a snapshot was installed.
    pub open spec fn ready(self) -> bool {
        self.snapshot_id is Some && self.bids.levels.len() > 0 && self.asks.levels.len() > 0
    }
}

impl Default for Book {
    fn default() -> (r: Self)
        ensures
            r@.wf(),
            r@ == BookView::fresh(),
    {
        Book::new()
    }
}

fn apply_all(side: &mut Side, levels: &[Level])
    requires
        old(side)@.wf(),
    ensures
        final(side)@.wf(),
        final(side)@.descending == old(side)@.descending,
        final(side)@.book() == changed_by(old(side)@.book(), levels@),
{
    let ghost start = side@;
    let mut i: usize = 0;
    assert(levels@.subrange(0, 0) =~= Seq::<Level>::empty());
    while i < levels.len()
        invariant
            i <= levels@.len(),
            side@.wf(),
            side@.descending == start.descending,
            side@.book() == changed_by(start.book(), levels@.subrange(0, i as int)),
        decreases levels@.len() - i,
    {
        side.apply(levels[i]);
        i += 1;
        proof {
            let now = levels@.subrange(0, i as int);
            assert(now.drop_last() =~= levels@.subrange(0, i - 1));
        }
    }
    assert(levels@.subrange(0, i as int) =~= levels@);
}

impl Book {
    /// An empty book, awaiting a snapshot.
    pub fn new() -> (r: Self)
        ensures
            r@.wf(),
            r@ == BookView::fresh(),
    {
        Book {
            bids: Side::bids(),
            asks: Side::asks(),
            last_id: None,
            snapshot_id: None,
            applied: 0,
        }
    }

    /// Install a snapshot, discarding whatever was there.
    ///
    /// Resetting rather than merging: a book that survived a gap has unknown
    /// state, and merging into unknown state produces a book that looks right
    /// and is not.
    pub fn install_snapshot(&mut self, update_id: u64, bids: &[Level], asks: &[Level])
        ensures
            final(self)@.wf(),
            final(self)@.seeded(update_id, bids@, asks@),
    {
        let mut b = Side::bids();
        let mut a = Side::asks();
        proof {
            assert(b@.book() =~= Map::<i64, i64>::empty());
            assert(a@.book() =~= Map::<i64, i64>::empty());
        }
        apply_all(&mut b, bids);
        apply_all(&mut a, asks);
        self.bids = b;
        self.asks = a;
        self.snapshot_id = Some(update_id);
        self.last_id = None;
        self.applied = 0;
    }

    /// Apply an incremental update.
    ///
    /// An update that cannot be placed in sequence is refused and leaves the
    /// book untouched, so a caller that resynchronizes from a fresh snapshot
    /// loses nothing.
    pub fn apply(&mut self, update: &DepthUpdate) -> (r: Result<Applied, SequenceError>)
        requires
            old(self)@.wf(),
        ensures
            final(self)@.wf(),
            r == old(self)@.verdict(update@),
            r == Ok::<Applied, SequenceError>(Applied::Updated) ==> final(self)@.advanced(
                old(self)@,
                update@,
            ),
            r != Ok::<Applied, SequenceError>(Applied::Updated) ==> final(self)@ == old(self)@,
    {
        let snapshot: u64 = match self.snapshot_id {
            None => {
                return Err(SequenceError::NoSnapshot);
            },
            Some(s) => s,
        };
        match self.last_id {
            None => {
                if update.final_id <= snapshot {
                    return Ok(Applied::AlreadyInSnapshot);
                }
                if update.first_id as u128 > snapshot as u128 + 1 {
                    return Err(
                        SequenceError::DoesNotStraddleSnapshot {
                            snapshot,
                            first_id: update.first_id,
                            final_id: update.final_id,
                        },
                    );
                }
            },
            Some(last) => {
                let previous: u64 = match update.prev_final_id {
                    Some(p) => p,
                    None => update.first_id.saturating_sub(1),
                };
                if previous != last {
                    return Err(SequenceError::Gap { expected: last, found: previous });
                }
            },
        }
        apply_all(&mut self.bids, update.bids.as_slice());
        apply_all(&mut self.asks, update.asks.as_slice());
        self.last_id = Some(update.final_id);
        self.applied = self.applied.saturating_add(1);
        Ok(Applied::Updated)
    }

    /// The bid side.
    pub fn bids(&self) -> (r: &Side)
        ensures
            r@ == self@.bids,
    {
        &self.bids
    }

    /// The ask side.
    pub fn asks(&self) -> (r: &Side)
        ensures
            r@ == self@.asks,
    {
        &self.asks
    }

    /// Updates applied since the last snapshot.
    pub fn applied(&self) -> (r: u64)
        ensures
            r == self@.applied,
    {
        self.applied
    }

    /// Whether the book is ready to be read.
    pub fn is_ready(&self) -> (r: bool)
        ensures
            r == self@.ready(),
    {
        self.snapshot_id.is_some() && self.bids.depth() > 0 && self.asks.depth() > 0
    }

    /// Whether the best bid is at or above the best ask.
    ///
    /// A crossed book is not a market condition, it is a reconstruction bug.
    pub fn is_crossed(&self) -> (r: bool)
        ensures
            r == (self@.bids.levels.len() > 0 && self@.asks.levels.len() > 0
                && self@.bids.levels[0].price >= self@.asks.levels[0].price),
    {
        match (self.bids.best(), self.asks.best()) {
            (Some(bid), Some(ask)) => bid.price >= ask.price,
            _ => false,
        }
    }
}

/// Two ordered sides of one direction that hold the same quantities at the
/// same prices are level for level the same.
pub proof fn law_levels_are_determined(a: SideView, b: SideView)
    requires
        a.wf(),
        b.wf(),
        a.descending == b.descending,
        a.book() == b.book(),
    ensures
        a == b,
    decreases a.levels.len() + b.levels.len(),
{
    if a.levels.len() == 0 {
        if b.levels.len() > 0 {
            lemma_book_at(b, 0);
            assert(a.book().contains_key(b.levels[0].price));
        }
        assert(a.levels =~= b.levels);
    } else {
        lemma_book_at(a, 0);
        let p = a.levels[0].price;
        assert(b.has(p));
        let j = b.index_of(p);
        lemma_book_at(b, j);
        lemma_book_at(b, 0);
        let q = b.levels[0].price;
        assert(a.has(q));
        let i = a.index_of(q);
        lemma_book_at(a, i);
        if j > 0 {
            assert(b.better(q, p));
            if i > 0 {
                assert(a.better(p, q));
            }
        }
        assert(j == 0);
        assert(a.levels[0] == b.levels[0]);
        let a1 = SideView { levels: a.levels.remove(0), ..a };
        let b1 = SideView { levels: b.levels.remove(0), ..b };
        lemma_removed(a, a1, 0);
        lemma_removed(b, b1, 0);
        law_levels_are_determined(a1, b1);
        assert(a.levels =~= seq![a.levels[0]] + a1.levels);
        assert(b.levels =~= seq![b.levels[0]] + b1.levels);
    }
}

/// Quantity on a side that a taker can have.
pub open spec fn displayed(levels: Seq<Level>) -> int
    decreases levels.len(),
{
    if levels.len() == 0 {
        0
    } else {
        displayed(levels.drop_first()) + (if levels[0].qty > 0 {
            levels[0].qty as int
        } else {
            0
        })
    }
}

/// A taker gets what it asked for or everything there is, whichever is less,
/// and what it takes is gone from what it leaves.
pub proof fn law_taking_depletes(levels: Seq<Level>, want: int)
    requires
        0 <= want,
    ensures
        taken_from(levels, want) == (if want < displayed(levels) {
            want
        } else {
            displayed(levels)
        }),
        displayed(left_behind(levels, want)) == displayed(levels) - taken_from(levels, want),
    decreases levels.len(),
{
    if levels.len() > 0 {
        let take = given(levels[0], want);
        law_taking_depletes(levels.drop_first(), want - take);
        lemma_displayed_nonneg(levels.drop_first());
        let rest = left_behind(levels.drop_first(), want - take);
        let all = left_behind(levels, want);
        if take > 0 && take == levels[0].qty {
        } else {
            assert(all.drop_first() =~= rest);
        }
    }
}

proof fn lemma_displayed_nonneg(levels: Seq<Level>)
    ensures
        displayed(levels) >= 0,
    decreases levels.len(),
{
    if levels.len() > 0 {
        lemma_displayed_nonneg(levels.drop_first());
    }
}

/// Taking twice costs what taking once would: the second taker walks what the
/// first one left.
pub proof fn law_two_takes_are_one(levels: Seq<Level>, a: int, b: int)
    requires
        0 <= a,
        0 <= b,
        forall|i: int| 0 <= i < levels.len() ==> (#[trigger] levels[i]).qty != 0,
    ensures
        ({
            let left = left_behind(levels, a);
            let b2 = a + b - taken_from(levels, a);
            &&& taken_from(levels, a + b) == taken_from(levels, a) + taken_from(left, b2)
            &&& cost_from(levels, a + b) == cost_from(levels, a) + cost_from(left, b2)
            &&& left_behind(levels, a + b) == left_behind(left, b2)
        }),
    decreases levels.len(),
{
    if levels.len() == 0 {
        assert(left_behind(levels, a) =~= levels);
    } else {
        let first = levels[0];
        let tail = levels.drop_first();
        let take = given(first, a);
        let left = left_behind(levels, a);
        assert(forall|i: int| 0 <= i < tail.len() ==> #[trigger] tail[i] == levels[i + 1]);
        law_taking_depletes(levels, a);
        lemma_displayed_nonneg(levels);
        let b2 = a + b - taken_from(levels, a);
        if first.qty <= 0 {
            law_two_takes_are_one(tail, a, b);
            assert(first.price * 0 == 0);
            let rest = left_behind(tail, a);
            assert(left =~= seq![first] + rest);
            assert(left.drop_first() =~= rest);
        } else if first.qty <= a {
            law_two_takes_are_one(tail, a - take, b);
            assert(left =~= left_behind(tail, a - take));
        } else {
            // The first taker stops inside this level.
            assert(take == a);
            lemma_nothing_wanted(tail);
            let cut = Level { price: first.price, qty: (first.qty - a) as i64 };
            assert(left =~= seq![cut] + tail);
            assert(left.drop_first() =~= tail);
            assert(taken_from(levels, a) == a);
            assert(b2 == b);
            let more = given(first, a + b);
            let then = given(cut, b);
            assert(more == a + then);
            assert(first.price * more == first.price * a + first.price * then) by (nonlinear_arith)
                requires
                    more == a + then,
            ;
            assert(left_behind(levels, a + b) =~= left_behind(left, b));
        }
    }
}

/// A lost message is always noticed: behind an applied update, the book takes
/// the update that names it as its predecessor and no other.
pub proof fn law_the_chain_has_no_gaps(
    before: BookView,
    update: DepthView,
    after: BookView,
    next: DepthView,
)
    requires
        before.verdict(update) == Ok::<Applied, SequenceError>(Applied::Updated),
        after.advanced(before, update),
    ensures
        after.verdict(next) == (if BookView::follows(next) == update.final_id {
            Ok::<Applied, SequenceError>(Applied::Updated)
        } else {
            Err(
                SequenceError::Gap {
                    expected: update.final_id,
                    found: BookView::follows(next),
                },
            )
        }),
{
}

/// The last change to a price wins: what a run of changes leaves at a price is
/// the quantity of the last of them that names it, nothing where that is
/// nought, and what stood there before where none does.
pub proof fn law_the_last_change_wins(book: Map<i64, i64>, levels: Seq<Level>, price: i64, at: int)
    requires
        -1 <= at < levels.len(),
        at >= 0 ==> levels[at].price == price,
        forall|i: int| at < i < levels.len() ==> (#[trigger] levels[i]).price != price,
    ensures
        at >= 0 && levels[at].qty != 0 ==> changed_by(book, levels).dom().contains(price)
            && changed_by(book, levels)[price] == levels[at].qty,
        at >= 0 && levels[at].qty == 0 ==> !changed_by(book, levels).dom().contains(price),
        at < 0 ==> changed_by(book, levels).dom().contains(price) == book.dom().contains(price),
        at < 0 && book.dom().contains(price) ==> changed_by(book, levels)[price] == book[price],
    decreases levels.len(),
{
    if levels.len() > 0 && at < levels.len() - 1 {
        let rest = levels.drop_last();
        assert forall|i: int| at < i < rest.len() implies (#[trigger] rest[i]).price != price by {
            assert(rest[i] == levels[i]);
        }
        if at >= 0 {
            assert(rest[at] == levels[at]);
        }
        law_the_last_change_wins(book, rest, price, at);
        assert(levels[levels.len() - 1].price != price);
    }
}

/// An update is judged by its ids alone. Without a snapshot there is nothing
/// to build on. Behind a snapshot, one that ends in it is skipped, one that
/// starts later than the next id is refused, and one that reaches over its end
/// is applied. Behind an update, only one that follows it is applied.
pub proof fn law_an_update_is_judged_by_its_ids(b: BookView, u: DepthView)
    ensures
        b.snapshot_id is None ==> b.verdict(u) == Err::<Applied, SequenceError>(
            SequenceError::NoSnapshot,
        ),
        b.last_id is None ==> (b.snapshot_id matches Some(s) ==> {
            &&& u.final_id <= s ==> b.verdict(u) == Ok::<Applied, SequenceError>(
                Applied::AlreadyInSnapshot,
            )
            &&& u.first_id <= s + 1 && s < u.final_id ==> b.verdict(u) == Ok::<
                Applied,
                SequenceError,
            >(Applied::Updated)
            &&& u.first_id > s + 1 && s < u.final_id ==> b.verdict(u) == Err::<
                Applied,
                SequenceError,
            >(
                SequenceError::DoesNotStraddleSnapshot {
                    snapshot: s,
                    first_id: u.first_id,
                    final_id: u.final_id,
                },
            )
        }),
        b.snapshot_id is Some ==> (b.last_id matches Some(last) ==> {
            &&& u.prev_final_id matches Some(p) ==> (b.verdict(u) == Ok::<Applied, SequenceError>(
                Applied::Updated,
            ) <==> p == last)
            &&& u.prev_final_id is None && u.first_id > 0 ==> (b.verdict(u) == Ok::<
                Applied,
                SequenceError,
            >(Applied::Updated) <==> u.first_id == last + 1)
        }),
{
}

} // verus!
