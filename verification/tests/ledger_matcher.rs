use openquanter::engine::impact::Impact;
use openquanter::engine::l1::{Delay, L1Engine, Latency, Policy, QueueAhead};
use openquanter::engine::l2::L2Engine;
use openquanter::engine::tick::Tick;
use openquanter::ledger::matcher::{DepthOutcome, Matcher};
use openquanter::types::{
    limit_order, Fill, InstrumentId, Nanos, Offset, OrderId, PriceTicks, QtyLots, Side, Stamp, Working,
};
use openquanter::venue::book::SequenceError;
use openquanter::venue::depth::{DepthUpdate, Level};

fn tick(n: i64, price: i64) -> Tick {
    Tick {
        stamp: Stamp::new(n, n),
        last: PriceTicks(price),
        high: PriceTicks(price),
        low: PriceTicks(price),
        bid: PriceTicks(price - 1),
        ask: PriceTicks(price + 1),
        volume: QtyLots(1_000),
    }
}

/// Priced at the ask the fixture quotes, so it actually trades: a
/// buy is triggered by the ask, and one a tick below it never fills
/// at any tier.
fn order(id: u64) -> Working {
    limit_order(
        OrderId(id),
        Side::Buy,
        PriceTicks(101),
        QtyLots(5),
        Stamp::new(0, 0),
        Offset::Open,
    )
}

fn fills_from(mut m: Matcher) -> Vec<Fill> {
    m.submit(order(1), Nanos(0));
    let mut out = Vec::new();
    for n in 1..=3 {
        out.extend(m.on_tick(&tick(n * 1_000, 100)).iter().map(|f| f.fill));
    }
    out
}

/// Choosing a tier that was given nothing extra must not change the
/// answer. Otherwise the tiers are a menu to shop among rather than
/// a claim about fidelity, and the frozen anchor is frozen in name.
#[test]
fn the_upper_tiers_answer_as_l0_when_given_nothing_extra() {
    let l0 = fills_from(Matcher::l0(InstrumentId::new(1)));
    assert!(!l0.is_empty(), "the fixture must actually fill");

    let l1 = fills_from(Matcher::L1(Box::new(L1Engine::new(
        InstrumentId::new(1),
        Policy::transparent(),
    ))));
    assert_eq!(l1, l0, "a transparent L1 must reproduce L0");

    let l2 = fills_from(Matcher::L2(Box::new(L2Engine::new(L1Engine::new(
        InstrumentId::new(1),
        Policy::transparent(),
    )))));
    assert_eq!(l2, l0, "an L2 with no book must reproduce L0");
}

/// A tier that cannot read depth says so rather than accepting it.
///
/// Silently ignoring it is how a run reads an L2 archive, reports
/// L1's answer, and gives nobody a reason to look.
#[test]
fn depth_offered_to_a_tier_that_cannot_use_it_is_refused() {
    let update = DepthUpdate {
        event_ms: 0,
        first_id: 1,
        final_id: 1,
        prev_final_id: None,
        bids: vec![Level {
            price: 99,
            qty: 100,
        }],
        asks: Vec::new(),
    };

    assert_eq!(
        Matcher::l0(InstrumentId::new(1)).on_depth(&update),
        DepthOutcome::NotRead
    );
    assert_eq!(
        Matcher::L1(Box::new(L1Engine::new(
            InstrumentId::new(1),
            Policy::transparent()
        )))
        .on_depth(&update),
        DepthOutcome::NotRead
    );

    // L2 reads it -- and refuses this one, because a book with no
    // snapshot has nothing for an incremental update to change.
    // "Read it and rejected it" is a different fact from "does not
    // read depth", which is why they are different variants.
    let mut l2 = Matcher::L2(Box::new(L2Engine::new(L1Engine::new(
        InstrumentId::new(1),
        Policy::transparent(),
    ))));
    assert_eq!(
        l2.on_depth(&update),
        DepthOutcome::Refused(SequenceError::NoSnapshot)
    );

    // Seeded, it applies.
    assert!(l2.install_snapshot(0, &[], &[]));
    assert_eq!(l2.on_depth(&update), DepthOutcome::Applied);
    assert!(
        !Matcher::l0(InstrumentId::new(1)).install_snapshot(0, &[], &[]),
        "a tier with no book has nowhere to put a snapshot"
    );
}

/// L0 has no in-flight state, so the count is zero rather than
/// unavailable — a caller adding book and shadowed gets the right
/// total at every tier.
#[test]
fn an_order_in_flight_is_counted_at_the_tiers_that_have_one() {
    let mut l0 = Matcher::l0(InstrumentId::new(1));
    l0.submit(order(1), Nanos(0));
    assert_eq!(l0.shadowed(), 0);
    assert_eq!(l0.book().iter().len(), 1, "L0 rests it immediately");

    let mut l1 = Matcher::L1(Box::new(L1Engine::new(
        InstrumentId::new(1),
        Policy {
            queue: QueueAhead::Nothing,
            latency: Latency {
                entry: Delay::Fixed(Nanos(10_000)),
                response: Delay::Fixed(Nanos(0)),
            },
            impact: Impact { coefficient: 0 },
        },
    )));
    l1.submit(order(1), Nanos(0));
    assert_eq!(l1.shadowed(), 1, "still in flight");
    assert_eq!(l1.book().iter().len(), 0, "so not in the book");
}

/// The tier is reportable, because fills without a named matcher are
/// numbers with no provenance.
#[test]
fn a_matcher_names_its_tier() {
    assert_eq!(Matcher::l0(InstrumentId::new(1)).tier(), "L0");
    assert_eq!(
        Matcher::L1(Box::new(L1Engine::new(
            InstrumentId::new(1),
            Policy::transparent()
        )))
        .tier(),
        "L1"
    );
}
