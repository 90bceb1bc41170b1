use openquanter::engine::impact::{penalty, Impact};
use openquanter::engine::l0::{FillReason, L0Engine};
use openquanter::engine::l1::{with_impact, Delay, L1Engine, Latency, Policy, QueueAhead};
use openquanter::engine::tick::Tick;
use openquanter::types::{
    Fill, InstrumentId, Liquidity, Nanos, OrderId, PriceTicks, QtyLots, Side, Stamp,
};

/// A small generator, so that a failure is found again from its seed.
struct Draws(u64);

impl Draws {
    fn next(&mut self) -> u64 {
        self.0 = self.0.wrapping_add(0x9E37_79B9_7F4A_7C15);
        let mut z = self.0;
        z = (z ^ (z >> 30)).wrapping_mul(0xBF58_476D_1CE4_E5B9);
        z = (z ^ (z >> 27)).wrapping_mul(0x94D0_49BB_1331_11EB);
        z ^ (z >> 31)
    }

    fn between(&mut self, from: i64, to: i64) -> i64 {
        from + (self.next() % (to - from) as u64) as i64
    }
}

/// What a run did: its fills, and what each order asked for.
struct Played {
    fills: Vec<Fill>,
    asked: Vec<(u64, Side, i64)>,
    cancelled: Vec<(u64, usize)>,
}

fn play(seed: u64) -> Played {
    let mut draws = Draws(seed);
    let mut e = L0Engine::new(InstrumentId::new(1));
    let mut out = Played {
        fills: Vec::new(),
        asked: Vec::new(),
        cancelled: Vec::new(),
    };
    for id in 1..200u64 {
        let stamp = Stamp::synthetic(id as i64 * 1_000);
        let side = if draws.next() % 2 == 0 {
            Side::Buy
        } else {
            Side::Sell
        };
        let qty = draws.between(1, 50);
        let price = draws.between(5_900_000, 6_100_000);
        match draws.next() % 4 {
            0 => {
                e.submit_limit(OrderId(id), side, PriceTicks(price), QtyLots(qty), stamp);
                out.asked.push((id, side, qty));
            }
            1 => {
                e.submit_market(OrderId(id), side, QtyLots(qty), stamp);
                out.asked.push((id, side, qty));
            }
            2 => {
                let victim = 1 + draws.next() % id;
                if e.cancel(OrderId(victim)) {
                    out.cancelled.push((victim, out.fills.len()));
                }
            }
            _ => {
                let spread = draws.between(1, 200);
                let tick = Tick::quoted(
                    stamp,
                    price,
                    price + spread,
                    price - spread,
                    price - spread,
                    price + spread,
                );
                out.fills.extend(e.on_tick(&tick).iter().map(|f| f.fill));
            }
        }
    }
    out
}

#[test]
fn every_fill_is_of_an_order_and_no_order_fills_for_more_than_it_asked() {
    let mut seen = 0;
    for seed in 0..32 {
        let run = play(seed);
        for f in &run.fills {
            let (_, side, qty) = *run
                .asked
                .iter()
                .find(|(id, _, _)| OrderId(*id) == f.order)
                .expect("asked for");
            assert_eq!(f.side, side);
            assert!(f.qty.0 > 0 && f.qty.0 <= qty);
        }
        for (id, _, qty) in &run.asked {
            let filled: i64 = run
                .fills
                .iter()
                .filter(|f| f.order == OrderId(*id))
                .map(|f| f.qty.0)
                .sum();
            assert!(filled <= *qty, "seed {seed}: order {id} filled {filled} of {qty}");
        }
        seen += run.fills.len();
    }
    assert!(seen > 100, "the runs must trade, and traded {seen} times");
}

#[test]
fn trade_ids_count_up_whatever_traded() {
    for seed in 0..8 {
        let run = play(seed);
        for (i, f) in run.fills.iter().enumerate() {
            assert_eq!(f.trade.0, i as u64 + 1);
        }
    }
}

#[test]
fn what_was_cancelled_never_fills_afterwards() {
    for seed in 0..32 {
        let run = play(seed);
        for (id, at) in &run.cancelled {
            assert!(run.fills[*at..].iter().all(|f| f.order != OrderId(*id)));
        }
    }
}

#[test]
fn the_penalty_follows_the_square_root_of_the_share() {
    // 1.00 * 100 * sqrt(25 / 100)
    assert_eq!(penalty(100, 100, 25, 100), 50);
    // 2.50 * 40 * sqrt(1 / 16)
    assert_eq!(penalty(250, 40, 1, 16), 25);
    // Rounded down: 100 * sqrt(1 / 2) is 70.7.
    assert_eq!(penalty(100, 100, 1, 2), 70);
    assert_eq!(penalty(0, 100, 25, 100), 0);
    assert!(penalty(100, 100, 26, 100) >= penalty(100, 100, 25, 100));
    assert!(penalty(100, 100, 25, 101) <= penalty(100, 100, 25, 100));
}

#[test]
fn a_taker_pays_the_penalty_and_a_maker_does_not() {
    let mut e = L0Engine::new(InstrumentId::new(1));
    let tick = Tick::quoted(Stamp::synthetic(1), 1_000, 1_050, 950, 999, 1_001).with_volume(400);
    e.submit_market(OrderId(1), Side::Buy, QtyLots(100), Stamp::synthetic(0));
    let taken = e.on_tick(&tick)[0];
    assert_eq!(taken.reason, FillReason::Market);
    assert_eq!(taken.fill.price, PriceTicks(1_001));
    let policy = Policy {
        impact: Impact { coefficient: 100 },
        ..Policy::transparent()
    };
    // A quarter of the volume moves the price by half of the range of 100.
    let hit = with_impact(&policy, taken, &tick, 400);
    assert_eq!(hit.fill.price, PriceTicks(1_051));
    let mut made = taken;
    made.fill.liquidity = Liquidity::Maker;
    assert_eq!(with_impact(&policy, made, &tick, 400).fill.price, PriceTicks(1_001));
}

#[test]
fn a_drawn_delay_is_the_one_its_key_names() {
    let d = Delay::Measured {
        p50: Nanos(1),
        p90: Nanos(2),
        p99: Nanos(3),
        p999: Nanos(4),
    };
    assert_eq!(d.worst(), Nanos(4));
    assert_eq!(Delay::Fixed(Nanos(7)).at(123), Nanos(7));
    assert_eq!(Delay::Fixed(Nanos(7)).worst(), Nanos(7));
}

#[test]
fn an_order_in_flight_is_not_in_the_book_until_it_arrives() {
    let policy = Policy {
        queue: QueueAhead::Nothing,
        latency: Latency {
            entry: Delay::Fixed(Nanos(5_000)),
            response: Delay::Fixed(Nanos(0)),
        },
        ..Policy::transparent()
    };
    let mut e = L1Engine::new(InstrumentId::new(1), policy);
    e.submit(
        openquanter::types::limit_order(
            OrderId(1),
            Side::Buy,
            PriceTicks(100),
            QtyLots(1),
            Stamp::synthetic(0),
            openquanter::types::Offset::Open,
        ),
        Nanos(0),
    );
    assert!(e.on_tick(&Tick::trades_only(Stamp::synthetic(4_999), 90, 90, 90)).is_empty());
    assert_eq!(e.shadowed(), 1);
    e.on_tick(&Tick::trades_only(Stamp::synthetic(5_000), 90, 90, 90));
    assert_eq!(e.shadowed(), 0);
}

#[test]
fn a_book_lists_what_it_holds() {
    let mut e = L0Engine::new(InstrumentId::new(1));
    e.submit_limit(OrderId(3), Side::Buy, PriceTicks(90), QtyLots(1), Stamp::synthetic(0));
    assert!(!e.book().has_market_orders());
    e.submit_market(OrderId(1), Side::Sell, QtyLots(2), Stamp::synthetic(0));
    assert!(e.book().has_market_orders());
    let mut ids = e.book().resting_ids();
    ids.sort();
    assert_eq!(ids, vec![OrderId(1), OrderId(3)]);
    let fills = e.on_tick(&Tick::trades_only(Stamp::synthetic(1), 100, 100, 100)).to_vec();
    assert_eq!(
        openquanter::engine::l1::fills_of(&fills),
        fills.iter().map(|f| f.fill).collect::<Vec<Fill>>()
    );
}
