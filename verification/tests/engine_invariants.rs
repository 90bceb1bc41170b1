//! What holds of every script, on scripts drawn from fixed seeds.
use openquanter::engine::l0::L0Engine;
use openquanter::engine::tick::Tick;
use openquanter::types::{Fill, InstrumentId, OrderId, PriceTicks, QtyLots, Side, Stamp};
use std::collections::HashMap;

/// One instruction to the engine.
#[derive(Debug, Clone, Copy)]
enum Step {
    /// Rest a limit order.
    Limit {
        id: u64,
        side: Side,
        price: i64,
        qty: i64,
    },
    /// Send a market order.
    Market { id: u64, side: Side, qty: i64 },
    /// Cancel by id.
    Cancel { id: u64 },
    /// Advance the market.
    Observe { last: i64, spread: i64 },
}

/// A small generator, so that every run draws the same scripts.
struct Draw(u64);

impl Draw {
    fn next(&mut self) -> u64 {
        self.0 ^= self.0 << 13;
        self.0 ^= self.0 >> 7;
        self.0 ^= self.0 << 17;
        self.0
    }

    fn between(&mut self, low: i64, high: i64) -> i64 {
        low + (self.next() % (high - low) as u64) as i64
    }

    fn side(&mut self) -> Side {
        if self.next() % 2 == 0 {
            Side::Buy
        } else {
            Side::Sell
        }
    }

    /// Prices in a band the engine can cross in either direction, so orders
    /// actually fill rather than the whole run resting untouched.
    fn step(&mut self) -> Step {
        match self.next() % 4 {
            0 => Step::Limit {
                id: self.between(1, 40) as u64,
                side: self.side(),
                price: self.between(5_900_000, 6_100_000),
                qty: self.between(1, 50),
            },
            1 => Step::Market {
                id: self.between(1, 40) as u64,
                side: self.side(),
                qty: self.between(1, 50),
            },
            2 => Step::Cancel {
                id: self.between(1, 40) as u64,
            },
            _ => Step::Observe {
                last: self.between(5_900_000, 6_100_000),
                spread: self.between(1, 200),
            },
        }
    }

    fn script(&mut self) -> Vec<Step> {
        let n = self.between(1, 60);
        (0..n).map(|_| self.step()).collect()
    }
}

fn scripts() -> Vec<Vec<Step>> {
    (1..400u64)
        .map(|seed| Draw(seed.wrapping_mul(0x9E37_79B9_7F4A_7C15)).script())
        .collect()
}

/// What a run produced, with everything the invariants are about.
struct Run {
    /// Every fill, in order.
    fills: Vec<Fill>,
    /// Quantity submitted per order id.
    submitted: HashMap<u64, i64>,
    /// Book extremes observed after every observation.
    crossings: Vec<(PriceTicks, PriceTicks)>,
}

/// Drive the engine through a script.
fn play(steps: &[Step]) -> Run {
    let mut e = L0Engine::new(InstrumentId::new(1));
    let mut fills = Vec::new();
    let mut submitted: HashMap<u64, i64> = HashMap::new();
    let mut crossings = Vec::new();
    let mut now = 0i64;

    for step in steps {
        now += 1_000_000_000;
        let stamp = Stamp::new(now, now);
        match *step {
            Step::Limit {
                id,
                side,
                price,
                qty,
            } => {
                // An id already working is refused by the book, so only
                // count what the engine accepted.
                if !e.book().contains(OrderId(id)) {
                    e.submit_limit(OrderId(id), side, PriceTicks(price), QtyLots(qty), stamp);
                    *submitted.entry(id).or_default() += qty;
                }
            }
            Step::Market { id, side, qty } => {
                if !e.book().contains(OrderId(id)) {
                    e.submit_market(OrderId(id), side, QtyLots(qty), stamp);
                    *submitted.entry(id).or_default() += qty;
                }
            }
            Step::Cancel { id } => {
                e.cancel(OrderId(id));
            }
            Step::Observe { last, spread } => {
                let tick = Tick {
                    stamp,
                    last: PriceTicks(last),
                    high: PriceTicks(last + spread),
                    low: PriceTicks(last - spread),
                    bid: PriceTicks(last - spread),
                    ask: PriceTicks(last + spread),
                    volume: QtyLots(0),
                };
                fills.extend(e.on_tick(&tick).iter().map(|f| f.fill));
                if let (Some(b), Some(a)) = (e.book().best_bid(), e.book().best_ask()) {
                    crossings.push((b, a));
                }
            }
        }
    }
    Run {
        fills,
        submitted,
        crossings,
    }
}

/// **Quantity conservation.** No order fills for more than it asked
/// for, whatever the price path does.
///
/// Over-filling is the defect that manufactures a position out of
/// nothing, and it is invisible in a P&L that happens to be
/// profitable.
#[test]
fn no_order_fills_for_more_than_it_asked() {
    for steps in scripts() {
        let run = play(&steps);
        let mut filled: HashMap<u64, i64> = HashMap::new();
        for f in &run.fills {
            *filled.entry(f.order.0).or_default() += f.qty.0;
        }
        for (id, got) in filled {
            let asked = run.submitted.get(&id).copied().unwrap_or(0);
            assert!(got <= asked, "order {id} asked for {asked} and filled {got}");
        }
    }
}

/// **No negative fills.** Every fill has a positive quantity and a
/// positive price.
#[test]
fn every_fill_has_a_positive_price_and_quantity() {
    let mut seen = 0;
    for steps in scripts() {
        let run = play(&steps);
        for f in &run.fills {
            assert!(f.qty.0 > 0, "a fill of {} lots", f.qty.0);
            assert!(f.price.0 > 0, "a fill at {}", f.price.0);
            seen += 1;
        }
    }
    assert!(seen > 1_000, "the scripts must fill orders: {seen}");
}

/// **No crossed book.** Among resting orders the best bid never
/// reaches the best ask.
///
/// A crossed book is two orders that should have traded with each
/// other and did not, so every fill after it is against a market
/// that could not have existed.
#[test]
fn the_resting_book_is_never_crossed() {
    let mut seen = 0;
    for steps in scripts() {
        let run = play(&steps);
        for (bid, ask) in run.crossings {
            assert!(
                bid.0 < ask.0,
                "the book is crossed: bid {} at or above ask {}",
                bid.0,
                ask.0
            );
            seen += 1;
        }
    }
    assert!(seen > 50, "both sides must rest together: {seen}");
}

/// **Price-time priority.** Two orders resting at the same price on
/// the same side fill in the order they arrived.
///
/// Without it a backtest silently rewards whichever order the data
/// structure happened to reach first, which is a property of the
/// implementation rather than of the market.
#[test]
fn same_price_orders_fill_in_arrival_order() {
    let mut draw = Draw(0x0A11_1A1B_1C1D);
    for _ in 0..200 {
        let price = draw.between(5_950_000, 6_050_000);
        let n = draw.between(2, 6);
        let qty = draw.between(1, 20);
        let mut e = L0Engine::new(InstrumentId::new(1));
        for i in 0..n {
            let now = (i + 1) * 1_000_000_000;
            e.submit_limit(
                OrderId(i as u64 + 1),
                Side::Buy,
                PriceTicks(price),
                QtyLots(qty),
                Stamp::new(now, now),
            );
        }
        // A price path that reaches every one of them.
        let now = 100_000_000_000i64;
        let tick = Tick {
            stamp: Stamp::new(now, now),
            last: PriceTicks(price - 1_000),
            high: PriceTicks(price + 1_000),
            low: PriceTicks(price - 1_000),
            bid: PriceTicks(price - 1_001),
            ask: PriceTicks(price - 999),
            volume: QtyLots(0),
        };
        let order: Vec<u64> = e.on_tick(&tick).iter().map(|f| f.fill.order.0).collect();
        let mut expected: Vec<u64> = order.clone();
        expected.sort_unstable();
        assert_eq!(order, expected, "orders at one price filled out of arrival order");
        assert_eq!(order.len(), n as usize);
    }
}

/// A cancelled order never fills afterwards.
///
/// A fill on a withdrawn order is a position the strategy believes it
/// closed.
#[test]
fn a_cancelled_order_never_fills() {
    let mut draw = Draw(0x0B22_2A2B_2C2D);
    for _ in 0..200 {
        let price = draw.between(5_950_000, 6_050_000);
        let qty = draw.between(1, 20);
        let ticks = draw.between(1, 10);
        let mut e = L0Engine::new(InstrumentId::new(1));
        e.submit_limit(
            OrderId(1),
            Side::Buy,
            PriceTicks(price),
            QtyLots(qty),
            Stamp::new(0, 0),
        );
        assert!(e.cancel(OrderId(1)));

        for i in 0..ticks {
            let now = (i + 1) * 1_000_000_000;
            let tick = Tick {
                stamp: Stamp::new(now, now),
                last: PriceTicks(price - 5_000),
                high: PriceTicks(price + 5_000),
                low: PriceTicks(price - 5_000),
                bid: PriceTicks(price - 5_001),
                ask: PriceTicks(price - 4_999),
                volume: QtyLots(0),
            };
            assert!(
                e.on_tick(&tick).is_empty(),
                "a cancelled order filled at observation {i}"
            );
        }
    }
}

/// The same script twice produces the same fills.
///
/// Determinism is what makes replay and parity mean anything, and it
/// is asserted over generated scripts rather than the handful
/// somebody wrote.
#[test]
fn the_same_script_produces_the_same_fills() {
    for steps in scripts() {
        let a = play(&steps);
        let b = play(&steps);
        assert_eq!(a.fills.len(), b.fills.len());
        for (x, y) in a.fills.iter().zip(&b.fills) {
            assert_eq!(x, y);
        }
    }
}

/// Two orders that reach one another and that the market reached neither of
/// trade, each at its own price.
#[test]
fn orders_that_reach_one_another_do_not_both_rest() {
    let mut e = L0Engine::new(InstrumentId::new(1));
    let stamp = Stamp::new(1, 1);
    e.submit_limit(OrderId(1), Side::Buy, PriceTicks(100), QtyLots(3), stamp);
    e.submit_limit(OrderId(2), Side::Sell, PriceTicks(95), QtyLots(2), stamp);
    e.submit_limit(OrderId(3), Side::Buy, PriceTicks(90), QtyLots(1), stamp);
    e.submit_limit(OrderId(4), Side::Sell, PriceTicks(110), QtyLots(1), stamp);
    let tick = Tick {
        stamp: Stamp::new(2, 2),
        last: PriceTicks(97),
        high: PriceTicks(117),
        low: PriceTicks(77),
        bid: PriceTicks(77),
        ask: PriceTicks(117),
        volume: QtyLots(0),
    };
    let fills: Vec<(u64, i64, i64)> = e
        .on_tick(&tick)
        .iter()
        .map(|f| (f.fill.order.0, f.fill.price.0, f.fill.qty.0))
        .collect();
    assert_eq!(fills, vec![(1, 100, 3), (2, 95, 2)]);
    assert_eq!(e.book().best_bid(), Some(PriceTicks(90)));
    assert_eq!(e.book().best_ask(), Some(PriceTicks(110)));
}
