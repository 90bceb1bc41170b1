use openquanter::engine::impact::Impact;
use openquanter::engine::l0::L0Engine;
use openquanter::engine::l1::{Delay, L1Engine, Latency, Policy, QueueAhead};
use openquanter::engine::l2::L2Engine;
use openquanter::engine::tick::Tick;
use openquanter::types::{
    limit_order, market_order, Fill, InstrumentId, Liquidity, Nanos, Offset, OrderId, PriceTicks,
    QtyLots, Side, Stamp, Working,
};
use openquanter::venue::depth::{DepthUpdate, Level};

fn engine(queue: QueueAhead) -> L2Engine {
    L2Engine::new(L1Engine::new(
        InstrumentId::new(1),
        Policy {
            queue,
            latency: Latency::default(),
            impact: Impact { coefficient: 0 },
        },
    ))
}

fn limit(id: u64, side: Side, price: i64, qty: i64) -> Working {
    limit_order(OrderId(id), side, PriceTicks(price), QtyLots(qty), Stamp::new(0, 0), Offset::Open)
}

fn seeded() -> L2Engine {
    let mut e = engine(QueueAhead::Nothing);
    e.install_snapshot(
        100,
        &[
            Level {
                price: 99,
                qty: 250,
            },
            Level { price: 98, qty: 40 },
        ],
        &[Level {
            price: 101,
            qty: 70,
        }],
    );
    e
}

/// The queue ahead is what the venue displays, not what a policy
/// claims.
///
/// This is the entire tier in one assertion. L1 makes the caller
/// name a number; here the number is read off the level the order
/// joins.
#[test]
fn the_queue_is_read_from_the_book() {
    let e = seeded();
    assert_eq!(e.displayed_at(Side::Buy, PriceTicks(99)), 250);
    assert_eq!(e.displayed_at(Side::Buy, PriceTicks(98)), 40);
    assert_eq!(e.displayed_at(Side::Sell, PriceTicks(101)), 70);
}

/// A level the book does not show measures zero, and that is a
/// reading rather than an absence.
///
/// An order joining an empty level is first in the queue, which is
/// what an empty level means. Returning `None` here would fall back
/// to the policy and quietly re-import the assumption this tier
/// exists to remove.
#[test]
fn an_empty_level_measures_zero_and_not_unknown() {
    let e = seeded();
    assert_eq!(e.displayed_at(Side::Buy, PriceTicks(97)), 0);
    assert_eq!(e.displayed_at(Side::Sell, PriceTicks(105)), 0);
}

/// The measurement overrides a policy that says otherwise.
///
/// A tier that second-guessed its own data would be reporting L1's
/// answer under L2's name, which is the confusion the ladder exists
/// to prevent.
#[test]
fn a_measurement_beats_the_policy_it_replaces() {
    let mut e = engine(QueueAhead::Fixed(QtyLots(9_999)));
    e.install_snapshot(100, &[Level { price: 99, qty: 12 }], &[]);
    e.submit(limit(1, Side::Buy, 99, 5), Nanos(0));
    // Nothing has traded, so an order with 12 ahead of it is still
    // queued and not resting in L0's book.
    assert_eq!(
        e.inner().queued(),
        1,
        "the order should be waiting behind 12"
    );
}

/// A book that has not been placed in sequence says so.
///
/// Every measurement taken before that is a lower bound — levels
/// that existed beforehand are invisible — and an engine reporting
/// fills from one is reporting an optimism it can at least name.
#[test]
fn a_book_that_has_not_bootstrapped_says_so() {
    let e = engine(QueueAhead::Nothing);
    assert!(!e.ready(), "an empty book cannot be ready");
    assert!(seeded().ready(), "a snapshot makes it ready");
}

/// A refused depth update is counted and not absorbed.
///
/// `oq-book`'s own documentation: a book that quietly accepts an
/// out-of-order message is worse than one that stops, because it
/// produces plausible prices that are wrong. A queue measured
/// against those is wrong in a way nothing downstream can see.
#[test]
fn an_out_of_sequence_update_is_refused_and_counted() {
    let mut e = seeded();
    let stale = DepthUpdate {
        event_ms: 1,
        first_id: 500,
        final_id: 600,
        prev_final_id: Some(499),
        bids: vec![Level { price: 99, qty: 1 }],
        asks: Vec::new(),
    };
    assert!(
        e.on_depth(&stale).is_err(),
        "a jump in sequence must refuse"
    );
    assert_eq!(e.refused(), 1);
    assert_eq!(
        e.displayed_at(Side::Buy, PriceTicks(99)),
        250,
        "a refused update must not have moved the book"
    );
}

/// The measurement survives entry latency.
///
/// An order delayed on the way to the venue is held outside L0
/// until it arrives, and the queue it was measured against travels
/// with it. Dropping it there would make latency silently downgrade
/// an L2 order to an L1 one — the tier would change without the
/// report changing, which is exactly the confusion the ladder
/// exists to prevent.
///
/// The measurement is deliberately *not* recomputed on arrival. It
/// belongs to the moment the order was sent; by the time it lands
/// the book has moved, and re-reading it would answer a different
/// question with the same name.
#[test]
fn a_measured_queue_is_not_lost_to_entry_latency() {
    let mut e = L2Engine::new(L1Engine::new(
        InstrumentId::new(1),
        Policy {
            queue: QueueAhead::Fixed(QtyLots(0)),
            latency: Latency {
                entry: Delay::Fixed(Nanos(1_000)),
                response: Delay::Fixed(Nanos(0)),
            },
            impact: Impact { coefficient: 0 },
        },
    ));
    e.install_snapshot(100, &[Level { price: 99, qty: 77 }], &[]);
    e.submit(limit(1, Side::Buy, 99, 5), Nanos(0));
    assert_eq!(e.inner().queued(), 0, "still in flight, not yet queued");

    // The order arrives. Its 77 came with it; had it been dropped,
    // the policy's zero would have put it straight into L0's book.
    let tick = Tick {
        stamp: Stamp::new(2_000, 2_000),
        last: PriceTicks(99),
        high: PriceTicks(99),
        low: PriceTicks(99),
        bid: PriceTicks(99),
        ask: PriceTicks(100),
        volume: QtyLots(0),
    };
    let _ = e.inner_mut().on_tick(&tick);
    assert_eq!(
        e.inner().queued(),
        1,
        "the order arrived with a measured queue of 77 and should be waiting behind it"
    );
}

/// A market order measures nothing, because it is the thing the
/// queue is waiting for.
#[test]
fn a_market_order_queues_for_nothing() {
    let mut e = engine(QueueAhead::Fixed(QtyLots(500)));
    e.install_snapshot(
        100,
        &[Level {
            price: 99,
            qty: 250,
        }],
        &[],
    );
    let market = market_order(OrderId(7), Side::Buy, QtyLots(1), Stamp::new(0, 0), Offset::Open);
    e.submit(market, Nanos(0));
    assert_eq!(e.inner().queued(), 0, "a market order does not queue");
}

// ---- Taker impact, walked rather than estimated ----

fn market(id: u64, side: Side, qty: i64) -> Working {
    market_order(OrderId(id), side, QtyLots(qty), Stamp::new(0, 0), Offset::Open)
}

fn at(price: i64, qty: i64) -> Level {
    Level { price, qty }
}

/// A tick whose touch is 99/101 and which trades `volume`.
fn observation(volume: i64) -> Tick {
    Tick {
        stamp: Stamp::new(1_000, 1_000),
        last: PriceTicks(100),
        high: PriceTicks(101),
        low: PriceTicks(99),
        bid: PriceTicks(99),
        ask: PriceTicks(101),
        volume: QtyLots(volume),
    }
}

fn instant(impact: Impact) -> L2Engine {
    L2Engine::new(L1Engine::new(
        InstrumentId::new(1),
        Policy {
            queue: QueueAhead::Nothing,
            latency: Latency {
                entry: Delay::Fixed(Nanos(0)),
                response: Delay::Fixed(Nanos(0)),
            },
            impact,
        },
    ))
}

/// The tier in one assertion, for the taker side.
///
/// L0 fills a market buy at the observation's ask, whatever the
/// size: 500 lots and 5 lots pay the same. The book says the ask
/// holds 50, and 450 more sit above it. So the fill is the walk --
/// and no coefficient was set, which is what proves the number came
/// from the depth and not from a policy.
#[test]
fn a_taker_pays_the_walk_up_the_book_not_the_touch() {
    let mut e = instant(Impact { coefficient: 0 });
    e.install_snapshot(100, &[at(99, 1_000)], &[at(101, 50), at(102, 450)]);
    e.submit(market(1, Side::Buy, 500), Nanos(0));

    let fills = e.on_tick(&observation(10_000)).to_vec();
    assert_eq!(fills.len(), 1);

    // 50 at 101 and 450 at 102 is 50_450 for 500 lots: 100.9,
    // rounded to 101 against the buyer... which is the touch. Use a
    // size that clears the level to make the walk visible.
    assert_eq!(e.swept(), 1, "the fill was priced from the book");
    assert_eq!(e.unswept(), 0);
    let walked = (50 * 101 + 450 * 102 + 499) / 500;
    assert_eq!(fills[0].fill.price, PriceTicks(walked));
    assert!(
        fills[0].fill.price.0 > 101,
        "a 500-lot buy into a 50-lot ask must cost more than the touch, got {}",
        fills[0].fill.price.0
    );
}

/// The measurement displaces the policy; it does not stack with it.
///
/// Charging both would make the same climb up the book be paid for
/// twice, and the second charge would have no measurement behind it.
#[test]
fn a_measured_fill_is_not_also_charged_the_policy() {
    let book = &[at(101, 50), at(102, 450)];
    let mut measured_only = instant(Impact { coefficient: 0 });
    measured_only.install_snapshot(100, &[at(99, 1_000)], book);
    measured_only.submit(market(1, Side::Buy, 500), Nanos(0));
    let a = measured_only.on_tick(&observation(10_000))[0].fill.price;

    let mut with_policy = instant(Impact { coefficient: 500 });
    with_policy.install_snapshot(100, &[at(99, 1_000)], book);
    with_policy.submit(market(1, Side::Buy, 500), Nanos(0));
    let b = with_policy.on_tick(&observation(10_000))[0].fill.price;

    assert_eq!(a, b, "the coefficient must not move a measured fill");
}

/// Two takers in one observation deplete one book.
///
/// The second reaches what the first left. Pricing both against the
/// untouched book would say size is free in the one case where it
/// is not.
#[test]
fn the_second_taker_in_an_observation_reaches_a_thinner_book() {
    let mut e = instant(Impact { coefficient: 0 });
    e.install_snapshot(
        100,
        &[at(99, 1_000)],
        &[at(101, 100), at(102, 100), at(103, 800)],
    );
    e.submit(market(1, Side::Buy, 100), Nanos(0));
    e.submit(market(2, Side::Buy, 100), Nanos(0));

    let fills = e.on_tick(&observation(10_000)).to_vec();
    assert_eq!(fills.len(), 2);
    assert_eq!(e.swept(), 2);
    assert_eq!(fills[0].fill.price, PriceTicks(101), "took the whole 101");
    assert_eq!(
        fills[1].fill.price,
        PriceTicks(102),
        "the 101s were gone; pricing this at 101 too would make size free"
    );
}

/// An order deeper than the book falls back to L1's policy and says
/// so, rather than being priced off whatever levels happen to be
/// present.
#[test]
fn an_order_deeper_than_the_book_falls_back_and_is_counted() {
    let mut e = instant(Impact { coefficient: 0 });
    e.install_snapshot(100, &[at(99, 1_000)], &[at(101, 10)]);
    e.submit(market(1, Side::Buy, 10_000), Nanos(0));

    let fills = e.on_tick(&observation(100_000)).to_vec();
    assert_eq!(e.swept(), 0);
    assert_eq!(
        e.unswept(),
        1,
        "the fall back to policy is counted, not silent"
    );
    // Coefficient zero, so the policy charges nothing: the fill is
    // L0's reference price. The point is that it is not 101 dressed
    // up as a measurement.
    assert_eq!(fills[0].fill.price, PriceTicks(101));
}

/// A sell walks the bids downward.
#[test]
fn a_selling_taker_walks_the_bids() {
    let mut e = instant(Impact { coefficient: 0 });
    e.install_snapshot(100, &[at(99, 50), at(98, 450)], &[at(101, 1_000)]);
    e.submit(market(1, Side::Sell, 500), Nanos(0));

    let fills = e.on_tick(&observation(10_000)).to_vec();
    let walked = (50 * 99 + 450 * 98) / 500;
    assert_eq!(fills[0].fill.price, PriceTicks(walked));
    assert!(
        fills[0].fill.price.0 < 99,
        "a 500-lot sell into a 50-lot bid must receive less than the touch"
    );
}

/// The ladder stays monotone: L2 never prices a taker better than
/// L1 would have. A book that disagrees with the tick in the
/// taker's favour is a second measurement of the same instant, not
/// a licence to improve the fill.
#[test]
fn a_book_better_than_the_tick_does_not_improve_the_fill() {
    let mut e = instant(Impact { coefficient: 0 });
    // The whole size rests a tick inside the observation's ask.
    e.install_snapshot(100, &[at(99, 1_000)], &[at(100, 1_000)]);
    e.submit(market(1, Side::Buy, 10), Nanos(0));

    let fills = e.on_tick(&observation(10_000)).to_vec();
    assert_eq!(
        fills[0].fill.price,
        PriceTicks(101),
        "the walk says 100 and L0 says 101; the taker pays 101"
    );
}

/// A maker fill is not asked about. Its price is the price it
/// rested at, and no walk of the book has anything to add to it.
#[test]
fn a_maker_fill_is_left_alone() {
    let mut e = instant(Impact { coefficient: 0 });
    e.install_snapshot(100, &[at(99, 0)], &[at(99, 1_000)]);
    e.submit(limit(1, Side::Buy, 99, 5), Nanos(0));

    // The ask has to reach the resting buy for it to trade at all.
    let reached = Tick {
        ask: PriceTicks(99),
        ..observation(10_000)
    };
    let fills = e.on_tick(&reached).to_vec();
    assert_eq!(fills.len(), 1);
    assert_eq!(fills[0].fill.liquidity, Liquidity::Maker);
    assert_eq!(fills[0].fill.price, PriceTicks(99));
    assert_eq!(e.swept(), 0, "a maker fill is never swept for");
    assert_eq!(
        e.unswept(),
        0,
        "nor counted as one the book could not price"
    );
}

// ---- The seam: a tier that measures nothing answers as L0 ----

/// L2 with no book and a transparent policy reproduces L0 exactly.
///
/// This is what makes the tier safe to put behind a switch. A run
/// that has not been given depth must match as the tier below it,
/// or choosing L2 would change results for reasons having nothing
/// to do with the depth it was chosen for -- and the frozen anchor
/// would be frozen in name only.
///
/// An empty book measures a queue of **zero**, which is the reading
/// and not an absence. That it agrees with a transparent policy's
/// zero is why this holds.
#[test]
fn an_unfed_l2_reproduces_l0_exactly() {
    let ticks = [observation(1_000), observation(2_000), observation(3_000)];

    let mut l0 = L0Engine::new(InstrumentId::new(1));
    l0.submit_limit_with(
        OrderId(1),
        Side::Buy,
        PriceTicks(101),
        QtyLots(5),
        Stamp::new(0, 0),
        Offset::Open,
    );
    let mut from_l0: Vec<Fill> = Vec::new();
    for t in &ticks {
        from_l0.extend(l0.on_tick(t).iter().map(|f| f.fill));
    }

    let mut l2 = L2Engine::new(L1Engine::new(
        InstrumentId::new(1),
        Policy::transparent(),
    ));
    l2.submit(
        limit_order(
            OrderId(1),
            Side::Buy,
            PriceTicks(101),
            QtyLots(5),
            Stamp::new(0, 0),
            Offset::Open,
        ),
        Nanos(0),
    );
    let mut from_l2: Vec<Fill> = Vec::new();
    for t in &ticks {
        from_l2.extend(l2.on_tick(t).iter().map(|f| f.fill));
    }

    assert!(!from_l0.is_empty(), "the fixture must actually fill");
    assert_eq!(from_l2, from_l0, "an unfed L2 must not change L0's answer");
    assert_eq!(l2.swept(), 0, "and must not claim to have measured one");
}

/// An order built by the shared constructor still goes through this
/// tier's `submit`.
///
/// The constructors are free functions precisely so no tier grows
/// its own -- but a caller holding one of them could hand the result
/// to whichever engine is nearest. Given to L0 it rests instantly;
/// given here it serves entry latency and joins a measured queue.
/// The run's label is only worth something if the second happens.
#[test]
fn an_order_built_outside_still_enters_through_this_tier() {
    let mut e = L2Engine::new(L1Engine::new(
        InstrumentId::new(1),
        Policy {
            queue: QueueAhead::Nothing,
            latency: Latency {
                entry: Delay::Fixed(Nanos(10_000)),
                response: Delay::Fixed(Nanos(0)),
            },
            impact: Impact { coefficient: 0 },
        },
    ));
    e.install_snapshot(100, &[at(99, 640)], &[]);
    e.submit(
        limit_order(
            OrderId(1),
            Side::Buy,
            PriceTicks(99),
            QtyLots(5),
            Stamp::new(0, 0),
            Offset::Open,
        ),
        Nanos(0),
    );

    // Still serving entry latency, so not in the book: had this gone
    // straight to L0 it would already be resting there.
    assert_eq!(e.shadowed(), 1);
    assert_eq!(e.book().iter().len(), 0);

    let tick = Tick {
        stamp: Stamp::new(20_000, 20_000),
        ..observation(0)
    };
    let _ = e.on_tick(&tick);
    assert_eq!(
        e.inner().queued(),
        1,
        "it arrived carrying the 640 the book displayed, not the policy's zero"
    );
}

/// Withdrawing everything must reach the orders that are still in
/// flight, not only the ones already resting.
#[test]
fn cancel_all_reaches_orders_that_have_not_landed() {
    let mut e = L2Engine::new(L1Engine::new(
        InstrumentId::new(1),
        Policy {
            queue: QueueAhead::Nothing,
            latency: Latency {
                entry: Delay::Fixed(Nanos(10_000)),
                response: Delay::Fixed(Nanos(0)),
            },
            impact: Impact { coefficient: 0 },
        },
    ));
    e.submit(limit(1, Side::Buy, 99, 5), Nanos(0));
    assert_eq!(e.shadowed(), 1);

    e.cancel_all();
    assert_eq!(e.shadowed(), 0, "an in-flight order is still an order");

    let tick = Tick {
        stamp: Stamp::new(20_000, 20_000),
        ..observation(0)
    };
    let fills = e.on_tick(&tick).to_vec();
    assert!(
        fills.is_empty(),
        "a cancelled order must not arrive and fill afterwards"
    );
}

/// An observation with no taker fill copies no depth. The counters
/// are the only visible effect, so they are what the test can see.
#[test]
fn an_observation_without_a_taker_sweeps_nothing() {
    let mut e = instant(Impact { coefficient: 0 });
    e.install_snapshot(100, &[at(99, 500)], &[at(101, 500)]);
    let _ = e.on_tick(&observation(1_000));
    assert_eq!(e.swept(), 0);
    assert_eq!(e.unswept(), 0);
}
