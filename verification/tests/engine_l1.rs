use openquanter::engine::impact::Impact;
use openquanter::engine::l0::L0Engine;
use openquanter::engine::l1::{Delay, L1Engine, Latency, Policy, QueueAhead};
use openquanter::engine::tick::Tick;
use openquanter::types::{
    limit_order, market_order, Fill, InstrumentId, Nanos, Offset, OrderId, PriceTicks, QtyLots, Side,
    Stamp, Working,
};

/// A drawn delay depends on the key and on nothing else.
///
/// This is the property replay rests on. A generator carried in the
/// matcher would make one order's delay depend on how many came
/// before it, so a run resumed from a snapshot — which starts
/// mid-sequence — would fill differently from the same events.
#[test]
fn the_same_key_draws_the_same_delay() {
    let d = Delay::Measured {
        p50: Nanos(1),
        p90: Nanos(2),
        p99: Nanos(3),
        p999: Nanos(4),
    };
    for key in [0, 1, 7, 12_345, u64::MAX] {
        assert_eq!(d.at(key), d.at(key));
    }
}

/// Every draw is one of the four measured points.
///
/// Nearest-rank, never interpolated — the convention everywhere a
/// quantile appears in this workspace. An interpolated quantile is
/// a value nothing was observed at, and a latency nobody measured
/// is exactly what this type exists to avoid inventing.
#[test]
fn a_draw_is_always_a_measured_point() {
    let d = Delay::Measured {
        p50: Nanos(10),
        p90: Nanos(20),
        p99: Nanos(30),
        p999: Nanos(40),
    };
    for key in 0..5_000 {
        let n = d.at(key).0;
        assert!(
            [10, 20, 30, 40].contains(&n),
            "drew {n}, which nothing measured"
        );
    }
}

/// And the four appear at roughly the frequencies they name.
///
/// Loose bounds on purpose: the point is that the bands are wired
/// to the right points, not that a hash is uniform to three
/// decimals. A tight bound here would fail on a future hash change
/// that was not a defect.
#[test]
fn the_bands_have_roughly_the_frequencies_they_claim() {
    let d = Delay::Measured {
        p50: Nanos(1),
        p90: Nanos(2),
        p99: Nanos(3),
        p999: Nanos(4),
    };
    let mut count = [0u32; 5];
    for key in 0..100_000u64 {
        count[d.at(key).0 as usize] += 1;
    }
    assert!((45_000..55_000).contains(&count[1]), "p50: {}", count[1]);
    assert!((35_000..45_000).contains(&count[2]), "p90: {}", count[2]);
    assert!((7_000..11_000).contains(&count[3]), "p99: {}", count[3]);
    assert!((500..1_500).contains(&count[4]), "p999: {}", count[4]);
}

/// A distribution of zeroes delays nothing, so the transparent
/// policy stays transparent however it is written.
#[test]
fn a_distribution_of_zeroes_is_zero() {
    assert!(Delay::Fixed(Nanos(0)).is_zero());
    assert!(
        Delay::Measured {
            p50: Nanos(0),
            p90: Nanos(0),
            p99: Nanos(0),
            p999: Nanos(0),
        }
        .is_zero()
    );
    assert!(
        !Delay::Measured {
            p50: Nanos(0),
            p90: Nanos(0),
            p99: Nanos(0),
            p999: Nanos(1),
        }
        .is_zero(),
        "a tail that delays is not no delay"
    );
}

/// The assumptions line shows all four points.
///
/// Collapsing to a median would print the same sentence for a run
/// that modelled dispersion and one that did not, and the
/// difference is the choice the caller made.
#[test]
fn the_report_line_distinguishes_a_distribution_from_a_constant() {
    let fixed = Delay::Fixed(Nanos(5)).describe();
    let drawn = Delay::Measured {
        p50: Nanos(5),
        p90: Nanos(50),
        p99: Nanos(500),
        p999: Nanos(5_000),
    }
    .describe();
    assert_ne!(fixed, drawn);
    assert!(drawn.contains("5000"), "the tail must be visible: {drawn}");
}

const SEC: i64 = 1_000_000_000;

fn tick(i: i64, last: i64, high: i64, low: i64, volume: i64) -> Tick {
    Tick {
        stamp: Stamp {
            exch: Nanos(i * SEC),
            local: Nanos(i * SEC),
        },
        last: PriceTicks(last),
        high: PriceTicks(high),
        low: PriceTicks(low),
        bid: PriceTicks(last - 1),
        ask: PriceTicks(last + 1),
        volume: QtyLots(volume),
    }
}

/// A price path with volume, used by every test below so the
/// differences are the policy and nothing else.
fn series() -> Vec<Tick> {
    vec![
        tick(1, 100, 101, 99, 1_000),
        tick(2, 102, 103, 101, 1_100),
        tick(3, 105, 106, 102, 1_250),
        tick(4, 103, 106, 102, 1_400),
        tick(5, 99, 104, 98, 1_600),
        tick(6, 97, 100, 96, 1_900),
    ]
}

fn limit_buy(id: u64, price: i64, qty: i64) -> Working {
    limit_order(
        OrderId(id),
        Side::Buy,
        PriceTicks(price),
        QtyLots(qty),
        Stamp::synthetic(0),
        Offset::Open,
    )
}

fn market_buy(id: u64, qty: i64) -> Working {
    market_order(
        OrderId(id),
        Side::Buy,
        QtyLots(qty),
        Stamp::synthetic(0),
        Offset::Open,
    )
}

#[test]
fn a_transparent_policy_reproduces_l0_exactly() {
    let ticks = series();

    let mut l0 = L0Engine::new(InstrumentId::new(1));
    l0.submit(limit_buy(1, 100, 5));
    let mut from_l0: Vec<Fill> = Vec::new();
    for t in &ticks {
        from_l0.extend(l0.on_tick(t).iter().map(|f| f.fill));
    }

    let mut l1 = L1Engine::new(InstrumentId::new(1), Policy::transparent());
    l1.submit(limit_buy(1, 100, 5), Nanos(0));
    let mut from_l1: Vec<Fill> = Vec::new();
    for t in &ticks {
        from_l1.extend(l1.on_tick(t).iter().map(|f| f.fill));
    }

    assert!(!from_l0.is_empty(), "the fixture must actually fill");
    assert_eq!(from_l1, from_l0, "L1 must not change L0's answer");
}

/// And it says so, rather than a transparent run looking like a
/// higher-fidelity one in a report.
#[test]
fn a_transparent_policy_admits_what_it_is() {
    assert!(Policy::transparent().models_nothing());
    assert!(
        Policy::transparent()
            .describe()
            .contains("L0 wearing L1's name"),
        "{}",
        Policy::transparent().describe()
    );
}

/// The maker strategy's whole problem: L0 fills when the price
/// arrives, and a real book fills when the queue clears.
#[test]
fn a_queue_delays_a_fill_that_l0_would_have_given_immediately() {
    let ticks = series();
    let policy = Policy {
        queue: QueueAhead::Fixed(QtyLots(400)),
        ..Policy::transparent()
    };

    let mut transparent = L1Engine::new(InstrumentId::new(1), Policy::transparent());
    transparent.submit(limit_buy(1, 100, 5), Nanos(0));
    let mut queued = L1Engine::new(InstrumentId::new(1), policy);
    queued.submit(limit_buy(1, 100, 5), Nanos(0));

    let mut first_transparent = None;
    let mut first_queued = None;
    for (i, t) in ticks.iter().enumerate() {
        if first_transparent.is_none() && !transparent.on_tick(t).is_empty() {
            first_transparent = Some(i);
        }
        if first_queued.is_none() && !queued.on_tick(t).is_empty() {
            first_queued = Some(i);
        }
    }

    let a = first_transparent.expect("L0 fills this");
    let b = first_queued.expect("the queue clears eventually");
    assert!(
        b > a,
        "the queue must delay the fill: transparent {a}, queued {b}"
    );
}

/// An order still in a queue is an order that exists. A risk gate
/// counting only the book would let a strategy hold more than its
/// cap, because the excess is invisible.
#[test]
fn an_order_waiting_in_a_queue_is_still_counted() {
    let policy = Policy {
        queue: QueueAhead::Fixed(QtyLots(10_000)),
        ..Policy::transparent()
    };
    let mut e = L1Engine::new(InstrumentId::new(1), policy);
    e.submit(limit_buy(1, 100, 5), Nanos(0));
    assert_eq!(e.shadowed(), 1, "queued, not resting, and not invisible");
    assert_eq!(e.inner().book().len(), 0, "and not in the book");
}

/// A cancel has to reach an order wherever it is. One that only
/// searched the book would silently fail for an order in flight or
/// in a queue, leaving a resting order nobody can remove.
#[test]
fn a_cancel_reaches_an_order_in_every_place_it_can_be() {
    let policy = Policy {
        queue: QueueAhead::Fixed(QtyLots(10_000)),
        latency: Latency {
            entry: Delay::Fixed(Nanos(10 * SEC)),
            response: Delay::Fixed(Nanos(0)),
        },
        ..Policy::transparent()
    };

    // In flight.
    let mut e = L1Engine::new(InstrumentId::new(1), policy);
    e.submit(limit_buy(1, 100, 5), Nanos(0));
    assert_eq!(e.shadowed(), 1);
    assert!(e.cancel(OrderId(1)), "in flight");
    assert_eq!(e.shadowed(), 0);

    // In a queue.
    let mut e = L1Engine::new(
        InstrumentId::new(1),
        Policy {
            latency: Latency::default(),
            ..policy
        },
    );
    e.submit(limit_buy(1, 100, 5), Nanos(0));
    assert_eq!(e.shadowed(), 1);
    assert!(e.cancel(OrderId(1)), "queued");

    // Resting.
    let mut e = L1Engine::new(InstrumentId::new(1), Policy::transparent());
    e.submit(limit_buy(1, 100, 5), Nanos(0));
    assert!(e.cancel(OrderId(1)), "resting");
    assert!(!e.cancel(OrderId(1)), "and not twice");
}

/// An order that has not arrived cannot trade, however good the
/// price gets in the meantime.
#[test]
fn entry_latency_keeps_an_order_out_of_a_market_it_has_not_reached() {
    let policy = Policy {
        latency: Latency {
            entry: Delay::Fixed(Nanos(4 * SEC)),
            response: Delay::Fixed(Nanos(0)),
        },
        ..Policy::transparent()
    };
    let mut e = L1Engine::new(InstrumentId::new(1), policy);
    // Submitted at t=1, so it is not live until t=5.
    e.submit(market_buy(1, 1), Nanos(SEC));

    let ticks = series();
    assert!(e.on_tick(&ticks[1]).is_empty(), "t=2: not arrived");
    assert!(e.on_tick(&ticks[2]).is_empty(), "t=3: not arrived");
    assert!(e.on_tick(&ticks[3]).is_empty(), "t=4: not arrived");
    assert!(!e.on_tick(&ticks[4]).is_empty(), "t=5: arrived and filled");
}

/// The fill has happened and the account has it; the strategy does
/// not yet know. That gap is the state a restart has to reconcile,
/// so it is counted rather than smoothed away.
#[test]
fn response_latency_holds_a_fill_back_and_says_how_many() {
    let policy = Policy {
        latency: Latency {
            entry: Delay::Fixed(Nanos(0)),
            response: Delay::Fixed(Nanos(2 * SEC)),
        },
        ..Policy::transparent()
    };
    let mut e = L1Engine::new(InstrumentId::new(1), policy);
    e.submit(market_buy(1, 1), Nanos(0));

    let ticks = series();
    assert!(e.on_tick(&ticks[0]).is_empty(), "filled, not yet reported");
    assert_eq!(e.unreported(), 1, "and the run knows it is owed one");
    assert!(e.on_tick(&ticks[1]).is_empty(), "still inside the delay");
    assert_eq!(e.on_tick(&ticks[2]).len(), 1, "now reported");
    assert_eq!(e.unreported(), 0);
}

/// Impact is always against the taker. One that could help would not
/// be impact.
#[test]
fn impact_worsens_a_taker_fill_and_never_improves_it() {
    let ticks = series();
    let mut plain = L1Engine::new(InstrumentId::new(1), Policy::transparent());
    plain.submit(market_buy(1, 1), Nanos(0));
    plain.on_tick(&ticks[0]);
    let base = plain.on_tick(&ticks[1]);
    let base_price = base.first().map(|f| f.fill.price);

    let policy = Policy {
        impact: Impact { coefficient: 100 },
        ..Policy::transparent()
    };
    let mut hit = L1Engine::new(InstrumentId::new(1), policy);
    hit.submit(market_buy(1, 100), Nanos(0));
    hit.on_tick(&ticks[0]);
    let with = hit.on_tick(&ticks[1]);

    if let (Some(b), Some(w)) = (base_price, with.first().map(|f| f.fill.price)) {
        assert!(
            w.0 >= b.0,
            "a buy must not fill better under impact: {} vs {}",
            w.0,
            b.0
        );
    }
}

/// A share needs a denominator. Charging a penalty against volume
/// nobody observed would be inventing one.
#[test]
fn impact_is_not_charged_when_there_is_no_volume_to_be_a_share_of() {
    let policy = Policy {
        impact: Impact { coefficient: 500 },
        ..Policy::transparent()
    };
    // The very first observation has no previous volume to
    // difference against, so nothing traded as far as this engine
    // knows. Compared against a transparent run rather than a
    // hard-coded price, because the unpenalised price is the ask and
    // asserting a number would be asserting the fixture.
    let flat = tick(1, 100, 100, 100, 1_000);

    let mut charged = L1Engine::new(InstrumentId::new(1), policy);
    charged.submit(market_buy(1, 50), Nanos(0));
    let with: Vec<PriceTicks> = charged
        .on_tick(&flat)
        .iter()
        .map(|f| f.fill.price)
        .collect();

    let mut plain = L1Engine::new(InstrumentId::new(1), Policy::transparent());
    plain.submit(market_buy(1, 50), Nanos(0));
    let without: Vec<PriceTicks> = plain.on_tick(&flat).iter().map(|f| f.fill.price).collect();

    assert!(!without.is_empty(), "the fixture must fill");
    assert_eq!(with, without, "no volume, no penalty");
}

/// Cumulative volume that goes backwards would refund a queue,
/// letting an order fill sooner because the feed glitched.
#[test]
fn volume_going_backwards_does_not_refund_a_queue() {
    let policy = Policy {
        queue: QueueAhead::Fixed(QtyLots(500)),
        ..Policy::transparent()
    };
    let mut e = L1Engine::new(InstrumentId::new(1), policy);
    e.submit(limit_buy(1, 100, 1), Nanos(0));
    e.on_tick(&tick(1, 100, 101, 99, 5_000));
    // A reset: cumulative volume drops.
    e.on_tick(&tick(2, 100, 101, 99, 10));
    assert_eq!(e.shadowed(), 1, "the queue must not have been credited");
}

/// A price that gapped clean through the order lifted everything
/// ahead of it, whatever the assumed queue was.
#[test]
fn a_price_gapping_through_empties_the_queue() {
    let policy = Policy {
        queue: QueueAhead::Fixed(QtyLots(1_000_000)),
        ..Policy::transparent()
    };
    let mut e = L1Engine::new(InstrumentId::new(1), policy);
    e.submit(limit_buy(1, 100, 1), Nanos(0));
    assert_eq!(e.shadowed(), 1);
    // The market traded entirely below the order.
    e.on_tick(&tick(1, 90, 95, 85, 1_000));
    assert_eq!(
        e.shadowed(),
        0,
        "everything queued at 100 was taken on the way down"
    );
}

/// The description is what reaches a fidelity report, so it has to
/// carry every assumption rather than a summary of them.
#[test]
fn the_policy_describes_every_assumption_it_holds() {
    let p = Policy {
        queue: QueueAhead::VolumeMultiple(150),
        latency: Latency {
            entry: Delay::Fixed(Nanos(3_000_000)),
            response: Delay::Fixed(Nanos(7_000_000)),
        },
        impact: Impact { coefficient: 250 },
    };
    let text = p.describe();
    assert!(text.contains("1.50x"), "{text}");
    assert!(
        text.contains("3000000") && text.contains("7000000"),
        "{text}"
    );
    assert!(text.contains("2.50"), "{text}");
    assert!(
        text.contains("assumption about this market, not a measurement"),
        "{text}"
    );
}

#[test]
fn a_policy_of_zeroes_models_nothing_however_it_is_written() {
    let still = Delay::Measured {
        p50: Nanos(0),
        p90: Nanos(0),
        p99: Nanos(0),
        p999: Nanos(0),
    };
    let written = Policy {
        latency: Latency {
            entry: still,
            response: Delay::Fixed(Nanos(0)),
        },
        ..Policy::transparent()
    };
    assert!(written.models_nothing());
    assert_eq!(written.describe(), Policy::transparent().describe());
    let queued = Policy {
        queue: QueueAhead::Fixed(QtyLots(0)),
        ..written
    };
    assert!(!queued.models_nothing());
}
