//! What every event keeps.
use crate::engine::l0::L0Fill;
use crate::engine::tick::Tick;
use crate::ledger::event::EventView;
use crate::ledger::kernel::{
    lemma_fill_keeps, lesser, sign_of, size_of_qty, without_id, KernelView, Matching, Output, PositionMode,
    RejectReason, StateView, Step,
};
use crate::margin::FundingRate;
use crate::types::{
    clamp_i64, Cash, Fill, Nanos, Offset, OrderId, PriceTicks, QtyLots, Ratio, Working,
};
use vstd::prelude::*;

verus! {

/// Whether an amount is representable, so that no sum giving it saturates.
pub open spec fn fits(x: int) -> bool {
    i64::MIN <= x <= i64::MAX
}

/// What an account was given: its balance, less what trading and funding
/// brought, and with what fees took put back.
pub open spec fn paid_in(s: StateView) -> int {
    s.balance.0 - s.realized.0 - s.funding.0 + s.fees.0
}

/// What a fill realizes: the gain on what it closes.
pub open spec fn profit(s: StateView, fill: Fill) -> Cash {
    match s.mode {
        PositionMode::OneWay => {
            let change = fill.spec_delta();
            if s.qty.0 != 0 && (s.qty.0 > 0) != (change.0 > 0) {
                let closed = lesser(size_of_qty(change.0), size_of_qty(s.qty.0));
                let qty = QtyLots(clamp_i64(closed * sign_of(s.qty.0)));
                s.contract.gain(s.entry, fill.price, qty)
            } else {
                Cash(0)
            }
        },
        PositionMode::Hedge => {
            let (held, entry) = if StateView::on_long_leg(fill) {
                (s.qty, s.entry)
            } else {
                (s.short_qty, s.short_entry)
            };
            if fill.offset == Offset::Close && held.0 != 0 {
                let closing = lesser(fill.qty.0, size_of_qty(held.0));
                let qty = QtyLots(clamp_i64(closing * sign_of(held.0)));
                s.contract.gain(entry, fill.price, qty)
            } else {
                Cash(0)
            }
        },
    }
}

/// Whether a fill is charged and booked with no sum saturating.
pub open spec fn books_exactly(s: StateView, fill: Fill) -> bool {
    let fee = s.fee_schedule.fee(s.contract, fill);
    &&& fits(s.fees.0 + fee.0)
    &&& fits(s.balance.0 - fee.0)
    &&& fits(s.balance.0 - fee.0 + profit(s, fill).0)
    &&& fits(s.realized.0 + profit(s, fill).0)
}

/// Whether a run of fills is charged and booked with no sum saturating.
pub open spec fn all_book_exactly(start: Step, fills: Seq<L0Fill>) -> bool
    decreases fills.len(),
{
    fills.len() == 0 || {
        &&& all_book_exactly(start, fills.drop_last())
        &&& books_exactly(start.book_all(fills.drop_last()).kernel.state, fills.last().fill)
    }
}

/// Whether a liquidation at `mark`, if one is due, saturates no sum.
pub open spec fn closes_exactly(s: StateView, mark: PriceTicks) -> bool {
    let pnl = s.contract.gain(s.entry, mark, s.qty).plus(
        s.contract.gain(s.short_entry, mark, s.short_qty),
    );
    s.must_close(mark) ==> fits(s.realized.0 + pnl.0) && fits(s.balance.0 + pnl.0)
}

/// Whether an event saturates none of an account's sums.
pub open spec fn applies_exactly(k: KernelView, event: EventView) -> bool {
    match event {
        EventView::Tick(tick) => {
            let seen = StateView { now: tick.stamp.exch, mark: tick.last, ..k.state };
            if k.state.matching == Matching::Venue {
                closes_exactly(seen, tick.last)
            } else {
                let matched = k.state.engine.on_tick(tick);
                let start = k.start().with_state(StateView { engine: matched.engine, ..seen });
                &&& all_book_exactly(start, matched.fills)
                &&& closes_exactly(start.book_all(matched.fills).kernel.state, tick.last)
            }
        },
        EventView::Funding { at, rate, mark } => k.state.qty.0 != 0 ==> {
            let s = StateView { now: at, ..k.state };
            let amount = FundingRate { at, rate, mark }.payment(s.contract, s.qty);
            &&& fits(s.balance.0 + amount.0)
            &&& fits(s.funding.0 + amount.0)
            &&& closes_exactly(
                StateView {
                    balance: s.balance.plus(amount),
                    funding: s.funding.plus(amount),
                    ..s
                },
                mark,
            )
        },
        EventView::MarginDeposit { amount, .. } => fits(k.state.balance.0 + amount),
        EventView::VenueFill(fill) => k.state.matching == Matching::Venue ==> {
            let start = k.start().with_state(
                StateView {
                    now: fill.stamp.exch,
                    engine: k.state.engine.cancel(fill.order),
                    ..k.state
                },
            );
            &&& books_exactly(start.kernel.state, fill)
            &&& closes_exactly(start.book_fill(fill).kernel.state, fill.price)
        },
        _ => true,
    }
}

/// What an event adds to what an account was given.
pub open spec fn deposited(event: EventView) -> int {
    match event {
        EventView::MarginDeposit { amount, .. } => amount as int,
        _ => 0,
    }
}

proof fn lemma_booking_balances(s: StateView, fill: Fill)
    requires
        books_exactly(s, fill),
    ensures
        paid_in(s.settle(fill)) == paid_in(s),
        s.settle(fill).realized.0 == s.realized.0 + profit(s, fill).0,
{
    let fee = s.fee_schedule.fee(s.contract, fill);
    let charged = StateView {
        fees: s.fees.plus(fee),
        balance: s.balance.minus(fee),
        ..s
    };
    lemma_fill_keeps(charged, fill);
}

proof fn lemma_bookings_balance(start: Step, fills: Seq<L0Fill>)
    requires
        all_book_exactly(start, fills),
    ensures
        paid_in(start.book_all(fills).kernel.state) == paid_in(start.kernel.state),
    decreases fills.len(),
{
    if fills.len() > 0 {
        lemma_bookings_balance(start, fills.drop_last());
        lemma_booking_balances(
            start.book_all(fills.drop_last()).kernel.state,
            fills.last().fill,
        );
    }
}

/// The ledger balances: only a deposit changes what the balance comes to once
/// realized profit and funding are taken off and fees are put back. Fees and
/// funding therefore stay apart from trading profit, through every event that
/// saturates no sum.
pub proof fn law_the_ledger_balances(k: KernelView, event: EventView)
    requires
        applies_exactly(k, event),
    ensures
        paid_in(k.apply(event).kernel.state) == paid_in(k.state) + deposited(event),
{
    reveal(KernelView::apply);
    match event {
        EventView::Tick(tick) => {
            if k.state.matching != Matching::Venue {
                let seen = StateView { now: tick.stamp.exch, mark: tick.last, ..k.state };
                let matched = k.state.engine.on_tick(tick);
                let start = k.start().with_state(StateView { engine: matched.engine, ..seen });
                lemma_bookings_balance(start, matched.fills);
            }
        },
        EventView::VenueFill(fill) => {
            if k.state.matching == Matching::Venue {
                let start = k.start().with_state(
                    StateView {
                        now: fill.stamp.exch,
                        engine: k.state.engine.cancel(fill.order),
                        ..k.state
                    },
                );
                lemma_booking_balances(start.kernel.state, fill);
            }
        },
        _ => {},
    }
}

/// A refused submission leaves the kernel as it was and says why.
pub proof fn law_a_refusal_changes_nothing(k: KernelView, order: Working)
    ensures
        k.refusal(order.id, order.remaining) matches Some(reason) ==> k.on_submit(order)
            == (Step {
            kernel: k,
            outputs: seq![Output::Rejected { id: order.id, reason }],
        }),
        k.refusal(order.id, order.remaining) is None ==> k.on_submit(order).outputs.len() == 0,
{
    if let Some(reason) = k.refusal(order.id, order.remaining) {
        assert(k.on_submit(order).outputs =~= seq![Output::Rejected { id: order.id, reason }]);
    }
}

/// Whether a leg that holds nothing has no entry.
pub open spec fn flat_has_no_entry(s: StateView) -> bool {
    &&& s.qty.0 == 0 ==> s.entry.0 == 0
    &&& s.short_qty.0 == 0 ==> s.short_entry.0 == 0
}

proof fn lemma_a_fill_keeps_entries(s: StateView, fill: Fill)
    requires
        flat_has_no_entry(s),
    ensures
        flat_has_no_entry(s.settle(fill)),
{
    let fee = s.fee_schedule.fee(s.contract, fill);
    let charged = StateView {
        fees: s.fees.plus(fee),
        balance: s.balance.minus(fee),
        ..s
    };
    lemma_fill_keeps(charged, fill);
}

proof fn lemma_fills_keep_entries(start: Step, fills: Seq<L0Fill>)
    requires
        flat_has_no_entry(start.kernel.state),
    ensures
        flat_has_no_entry(start.book_all(fills).kernel.state),
    decreases fills.len(),
{
    if fills.len() > 0 {
        lemma_fills_keep_entries(start, fills.drop_last());
        lemma_a_fill_keeps_entries(
            start.book_all(fills.drop_last()).kernel.state,
            fills.last().fill,
        );
    }
}

/// A leg that has been closed carries no entry price into the next one.
pub proof fn law_flat_has_no_entry(k: KernelView, event: EventView)
    requires
        flat_has_no_entry(k.state),
    ensures
        flat_has_no_entry(k.apply(event).kernel.state),
{
    reveal(KernelView::apply);
    match event {
        EventView::Tick(tick) => {
            if k.state.matching != Matching::Venue {
                let seen = StateView { now: tick.stamp.exch, mark: tick.last, ..k.state };
                let matched = k.state.engine.on_tick(tick);
                let start = k.start().with_state(StateView { engine: matched.engine, ..seen });
                lemma_fills_keep_entries(start, matched.fills);
            }
        },
        EventView::VenueFill(fill) => {
            if k.state.matching == Matching::Venue {
                let start = k.start().with_state(
                    StateView {
                        now: fill.stamp.exch,
                        engine: k.state.engine.cancel(fill.order),
                        ..k.state
                    },
                );
                lemma_a_fill_keeps_entries(start.kernel.state, fill);
            }
        },
        _ => {},
    }
}

/// The mark an event checks the margin at, where it checks it.
pub open spec fn checked_at(k: KernelView, event: EventView) -> Option<PriceTicks> {
    match event {
        EventView::Tick(tick) => Some(tick.last),
        EventView::Funding { mark, .. } => if k.state.qty.0 != 0 {
            Some(mark)
        } else {
            None
        },
        EventView::VenueFill(fill) => if k.state.matching == Matching::Venue {
            Some(fill.price)
        } else {
            None
        },
        _ => None,
    }
}

proof fn lemma_check_settles(step: Step, mark: PriceTicks)
    ensures
        !step.check(mark).kernel.state.must_close(mark),
{
}

/// Margin is applied at every price the account sees: no event that checks it
/// leaves an account standing that should have been closed.
pub proof fn law_nothing_is_left_under_water(k: KernelView, event: EventView)
    ensures
        checked_at(k, event) matches Some(mark) ==> !k.apply(event).kernel.state.must_close(mark),
{
    reveal(KernelView::apply);
    match event {
        EventView::Tick(tick) => {
            let seen = StateView { now: tick.stamp.exch, mark: tick.last, ..k.state };
            if k.state.matching == Matching::Venue {
                lemma_check_settles(k.start().with_state(seen), tick.last);
            } else {
                let matched = k.state.engine.on_tick(tick);
                let start = k.start().with_state(StateView { engine: matched.engine, ..seen });
                lemma_check_settles(start.book_all(matched.fills), tick.last);
            }
        },
        _ => {},
    }
}

/// A liquidation leaves nothing: no position, no order working, and none held
/// by the matcher anywhere.
pub proof fn law_a_liquidation_leaves_nothing(step: Step, mark: PriceTicks)
    requires
        step.kernel.state.must_close(mark),
    ensures
        step.check(mark).kernel.state.flat(),
        step.check(mark).kernel.working.len() == 0,
        step.check(mark).kernel.state.engine.held() == 0,
        step.check(mark).outputs.len() == step.outputs.len() + 1,
        step.check(mark).outputs.last() is Liquidated,
{
}

/// With enforcement off, a margin check changes nothing and says nothing.
pub proof fn law_unenforced_margin_never_closes(step: Step, mark: PriceTicks)
    requires
        !step.kernel.state.enforce_liquidation,
    ensures
        step.check(mark) == step,
{
}

/// Funding is charged only on a position, and is accounted apart from trading
/// profit.
pub proof fn law_funding_is_kept_apart(k: KernelView, at: Nanos, rate: Ratio, mark: PriceTicks)
    ensures
        k.state.qty.0 == 0 ==> k.on_funding(at, rate, mark).kernel.state == (StateView {
            now: at,
            ..k.state
        }),
        !k.state.enforce_liquidation ==> k.on_funding(at, rate, mark).kernel.state.realized
            == k.state.realized,
{
}

proof fn lemma_without_keeps_apart(working: Seq<OrderId>, id: OrderId)
    requires
        working.no_duplicates(),
    ensures
        without_id(working, id).no_duplicates(),
        !without_id(working, id).contains(id),
    decreases working.len(),
{
    reveal(Seq::filter);
    let rest = working.drop_last();
    if working.len() > 0 {
        assert(rest.no_duplicates()) by {
            assert forall|i: int, j: int|
                0 <= i < rest.len() && 0 <= j < rest.len() && i != j implies rest[i] != rest[j] by {
                assert(rest[i] == working[i] && rest[j] == working[j]);
            }
        }
        lemma_without_keeps_apart(rest, id);
        lemma_without_is_part(rest, id);
        let kept = without_id(rest, id);
        if working.last() != id {
            assert(!kept.contains(working.last())) by {
                if kept.contains(working.last()) {
                    let i = choose|i: int| 0 <= i < rest.len() && rest[i] == working.last();
                    assert(working[i] == working[working.len() - 1]);
                }
            }
            let now = without_id(working, id);
            assert(now =~= kept.push(working.last()));
            if now.contains(id) {
                let i = choose|i: int| 0 <= i < now.len() && now[i] == id;
                assert(i < kept.len());
                assert(kept[i] == id);
            }
        }
    }
}

proof fn lemma_without_is_part(working: Seq<OrderId>, id: OrderId)
    ensures
        forall|w: OrderId| #[trigger]
            without_id(working, id).contains(w) ==> working.contains(w) && w != id,
    decreases working.len(),
{
    reveal(Seq::filter);
    if working.len() > 0 {
        let rest = working.drop_last();
        lemma_without_is_part(rest, id);
        assert forall|w: OrderId| #[trigger] without_id(working, id).contains(w) implies
            working.contains(w) && w != id by {
            let now = without_id(working, id);
            let kept = without_id(rest, id);
            let i = choose|i: int| 0 <= i < now.len() && now[i] == w;
            if working.last() == id {
                assert(now =~= kept);
                assert(kept.contains(w));
            } else {
                assert(now =~= kept.push(working.last()));
                if i < kept.len() {
                    assert(kept[i] == w);
                    assert(kept.contains(w));
                } else {
                    assert(working[working.len() - 1] == w);
                }
            }
            if rest.contains(w) {
                let j = choose|j: int| 0 <= j < rest.len() && rest[j] == w;
                assert(working[j] == w);
            }
        }
    }
}

proof fn lemma_bookings_keep_apart(start: Step, fills: Seq<L0Fill>)
    requires
        start.kernel.working.no_duplicates(),
    ensures
        start.book_all(fills).kernel.working.no_duplicates(),
    decreases fills.len(),
{
    if fills.len() > 0 {
        lemma_bookings_keep_apart(start, fills.drop_last());
        lemma_without_keeps_apart(
            start.book_all(fills.drop_last()).kernel.working,
            fills.last().fill.order,
        );
    }
}

/// No two working orders share an id, whatever is submitted.
pub proof fn law_working_ids_are_distinct(k: KernelView, event: EventView)
    requires
        k.working.no_duplicates(),
    ensures
        k.apply(event).kernel.working.no_duplicates(),
{
    reveal(KernelView::apply);
    match event {
        EventView::Tick(tick) => {
            if k.state.matching != Matching::Venue {
                let seen = StateView { now: tick.stamp.exch, mark: tick.last, ..k.state };
                let matched = k.state.engine.on_tick(tick);
                let start = k.start().with_state(StateView { engine: matched.engine, ..seen });
                lemma_bookings_keep_apart(start, matched.fills);
            }
        },
        EventView::VenueFill(fill) => {
            lemma_without_keeps_apart(k.working, fill.order);
        },
        EventView::Cancel { id, .. } => {
            lemma_without_keeps_apart(k.working, id);
        },
        _ => {},
    }
}

/// Where the venue matches, an observation produces no fill: the matcher does
/// not run.
pub proof fn law_a_venue_matched_kernel_fills_nothing_itself(k: KernelView, tick: Tick)
    requires
        k.state.matching == Matching::Venue,
    ensures
        forall|i: int|
            0 <= i < k.on_tick(tick).outputs.len() ==> !(#[trigger] k.on_tick(
                tick,
            ).outputs[i] is Filled),
        !k.on_tick(tick).kernel.state.must_close(tick.last),
        k.on_tick(tick).outputs.len() == 0 ==> k.on_tick(tick).kernel.state.engine
            == k.state.engine,
{
}

/// A kernel that matches for itself refuses a venue's fill and is not changed
/// by it.
pub proof fn law_a_venue_fill_needs_a_venue(k: KernelView, fill: Fill)
    requires
        k.state.matching != Matching::Venue,
    ensures
        k.on_venue_fill(fill) == (Step {
            kernel: k,
            outputs: seq![
                Output::Rejected { id: fill.order, reason: RejectReason::NotVenueMatched },
            ],
        }),
{
    assert(k.on_venue_fill(fill).outputs =~= seq![
        Output::Rejected { id: fill.order, reason: RejectReason::NotVenueMatched },
    ]);
}

/// A fill reported by the venue and the same fill from the matcher are booked
/// alike: the account is the same, whoever matched it.
pub proof fn law_a_fill_is_booked_alike(a: Step, b: Step, fill: Fill)
    requires
        a.kernel.state == (StateView {
            engine: a.kernel.state.engine,
            matching: a.kernel.state.matching,
            now: a.kernel.state.now,
            mark: a.kernel.state.mark,
            ..b.kernel.state
        }),
    ensures
        a.book_fill(fill).kernel.state == (StateView {
            engine: a.kernel.state.engine,
            matching: a.kernel.state.matching,
            now: a.kernel.state.now,
            mark: a.kernel.state.mark,
            ..b.book_fill(fill).kernel.state
        }),
{
    assert(a.book_fill(fill).kernel.state =~= (StateView {
        engine: a.kernel.state.engine,
        matching: a.kernel.state.matching,
        now: a.kernel.state.now,
        mark: a.kernel.state.mark,
        ..b.book_fill(fill).kernel.state
    }));
}

/// Under hedge accounting a fill touches the leg its side and offset name, and
/// leaves the other as it was.
pub proof fn law_legs_are_separate(s: StateView, fill: Fill)
    requires
        s.mode == PositionMode::Hedge,
    ensures
        StateView::on_long_leg(fill) ==> s.fill(fill).short_qty == s.short_qty && s.fill(
            fill,
        ).short_entry == s.short_entry,
        !StateView::on_long_leg(fill) ==> s.fill(fill).qty == s.qty && s.fill(fill).entry
            == s.entry,
        fill.offset == Offset::Open ==> s.fill(fill).realized == s.realized && s.fill(fill).balance
            == s.balance,
{
}

/// Under hedge accounting a close stops at flat: it never turns a leg over.
pub proof fn law_a_close_stops_at_flat(s: StateView, fill: Fill)
    requires
        s.mode == PositionMode::Hedge,
        fill.offset == Offset::Close,
        fill.qty.0 >= 0,
        s.qty.0 >= 0,
        s.short_qty.0 <= 0,
    ensures
        0 <= s.fill(fill).qty.0 <= s.qty.0,
        s.short_qty.0 <= s.fill(fill).short_qty.0 <= 0,
        StateView::on_long_leg(fill) && fill.qty.0 >= s.qty.0 ==> s.fill(fill).qty.0 == 0,
{
    let held = if StateView::on_long_leg(fill) {
        s.qty.0
    } else {
        s.short_qty.0
    };
    let size = size_of_qty(held);
    let closing = lesser(fill.qty.0, size);
    assert(closing * 1 == closing) by (nonlinear_arith);
    assert(closing * (-1int) == -closing) by (nonlinear_arith);
}

} // verus!
