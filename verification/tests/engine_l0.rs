use openquanter::engine::l0::{FillReason, L0Engine};
use openquanter::engine::tick::Tick;
use openquanter::types::{InstrumentId, Liquidity, OrderId, PriceTicks, QtyLots, Side, Stamp};

fn engine() -> L0Engine {
    L0Engine::new(InstrumentId::new(1))
}

fn tick(n: i64, last: i64, high: i64, low: i64) -> Tick {
    Tick::trades_only(Stamp::synthetic(n), last, high, low)
}

#[test]
fn the_first_tick_only_establishes_a_reference() {
    let mut e = engine();
    e.submit_limit(
        OrderId::new(1),
        Side::Buy,
        PriceTicks(100),
        QtyLots(1),
        Stamp::synthetic(0),
    );
    // A buy at 100 with the market at 500 must not fill, and the
    // absent previous price must not be treated as zero.
    let fills = e.on_tick(&tick(1, 500, 500, 500));
    assert!(fills.is_empty());
    assert_eq!(e.last_price(), Some(PriceTicks(500)));
}

#[test]
fn a_resting_buy_fills_when_the_market_reaches_it() {
    let mut e = engine();
    e.on_tick(&tick(1, 100, 100, 100));
    e.submit_limit(
        OrderId::new(1),
        Side::Buy,
        PriceTicks(95),
        QtyLots(2),
        Stamp::synthetic(1),
    );
    let fills = e.on_tick(&tick(2, 94, 100, 94)).to_vec();
    assert_eq!(fills.len(), 1);
    assert_eq!(fills[0].fill.qty, QtyLots(2));
    assert!(e.book().is_empty(), "a filled order leaves the book");
}

#[test]
fn a_gap_crossed_fill_carries_the_previous_tick_time() {
    let mut e = engine();
    e.on_tick(&tick(1_000, 100, 100, 100));
    e.submit_limit(
        OrderId::new(1),
        Side::Buy,
        PriceTicks(95),
        QtyLots(1),
        Stamp::synthetic(1_000),
    );
    let fills = e.on_tick(&tick(2_000, 99, 100, 90)).to_vec();
    assert_eq!(fills.len(), 1);
    assert_eq!(fills[0].reason, FillReason::GapCrossed);
    assert_eq!(
        fills[0].fill.stamp,
        Stamp::synthetic(1_000),
        "gap-crossed fills carry the previous tick's stamp"
    );
}

#[test]
fn an_ordinary_crossing_carries_the_current_tick_time() {
    let mut e = engine();
    e.on_tick(&tick(1_000, 100, 100, 100));
    e.submit_limit(
        OrderId::new(1),
        Side::Buy,
        PriceTicks(100),
        QtyLots(1),
        Stamp::synthetic(1_000),
    );
    let fills = e.on_tick(&tick(2_000, 110, 110, 100)).to_vec();
    assert_eq!(fills.len(), 1);
    assert_eq!(fills[0].reason, FillReason::Crossed);
    assert_eq!(fills[0].fill.stamp, Stamp::synthetic(2_000));
}

#[test]
fn a_gap_crossed_order_fills_at_its_own_price() {
    let mut e = engine();
    e.on_tick(&tick(1, 100, 100, 100));
    e.submit_limit(
        OrderId::new(1),
        Side::Buy,
        PriceTicks(95),
        QtyLots(1),
        Stamp::synthetic(1),
    );
    // The window dips to 90 and closes back at 99: the order was
    // swept on the way down and must fill at 95, not at 99.
    let fills = e.on_tick(&tick(2, 99, 100, 90)).to_vec();
    assert_eq!(fills.len(), 1);
    assert_eq!(fills[0].reason, FillReason::GapCrossed);
    assert_eq!(fills[0].fill.price, PriceTicks(95));
}

#[test]
fn a_limit_buy_above_the_market_gets_price_improvement() {
    let mut e = engine();
    e.on_tick(&Tick::quoted(Stamp::synthetic(1), 100, 100, 100, 99, 101));
    e.submit_limit(
        OrderId::new(1),
        Side::Buy,
        PriceTicks(105),
        QtyLots(1),
        Stamp::synthetic(1),
    );
    let fills = e
        .on_tick(&Tick::quoted(Stamp::synthetic(2), 100, 100, 100, 99, 101))
        .to_vec();
    assert_eq!(fills.len(), 1);
    assert_eq!(
        fills[0].fill.price,
        PriceTicks(101),
        "buying at the ask, not at the worse limit price"
    );
}

#[test]
fn a_limit_sell_below_the_market_gets_price_improvement() {
    let mut e = engine();
    e.on_tick(&Tick::quoted(Stamp::synthetic(1), 100, 100, 100, 99, 101));
    e.submit_limit(
        OrderId::new(1),
        Side::Sell,
        PriceTicks(95),
        QtyLots(1),
        Stamp::synthetic(1),
    );
    let fills = e
        .on_tick(&Tick::quoted(Stamp::synthetic(2), 100, 100, 100, 99, 101))
        .to_vec();
    assert_eq!(fills.len(), 1);
    assert_eq!(fills[0].fill.price, PriceTicks(99), "selling at the bid");
}

#[test]
fn market_orders_fill_as_taker_at_the_reference_price() {
    let mut e = engine();
    e.on_tick(&Tick::quoted(Stamp::synthetic(1), 100, 100, 100, 99, 101));
    e.submit_market(OrderId::new(1), Side::Buy, QtyLots(3), Stamp::synthetic(1));
    let fills = e
        .on_tick(&Tick::quoted(Stamp::synthetic(2), 100, 100, 100, 99, 101))
        .to_vec();
    assert_eq!(fills.len(), 1);
    assert_eq!(fills[0].reason, FillReason::Market);
    assert_eq!(fills[0].fill.liquidity, Liquidity::Taker);
    assert_eq!(fills[0].fill.price, PriceTicks(101));
}

#[test]
fn orders_are_not_eligible_on_the_tick_they_are_submitted() {
    // Guards against lookahead: a strategy reacting to a tick must
    // not be able to trade inside that same tick.
    let mut e = engine();
    e.on_tick(&tick(1, 100, 100, 100));
    e.submit_limit(
        OrderId::new(1),
        Side::Buy,
        PriceTicks(150),
        QtyLots(1),
        Stamp::synthetic(1),
    );
    // Deep in the money, but submitted after this tick was matched.
    assert_eq!(e.book().len(), 1);
}

#[test]
fn cancelled_orders_do_not_fill() {
    let mut e = engine();
    e.on_tick(&tick(1, 100, 100, 100));
    e.submit_limit(
        OrderId::new(1),
        Side::Buy,
        PriceTicks(95),
        QtyLots(1),
        Stamp::synthetic(1),
    );
    assert!(e.cancel(OrderId::new(1)));
    assert!(
        !e.cancel(OrderId::new(1)),
        "cancelling twice is not an error"
    );
    let fills = e.on_tick(&tick(2, 90, 100, 90));
    assert!(fills.is_empty());
}

#[test]
fn crossing_fills_the_best_price_first() {
    let mut e = engine();
    e.on_tick(&tick(1, 100, 100, 100));
    e.submit_limit(
        OrderId::new(1),
        Side::Buy,
        PriceTicks(100),
        QtyLots(1),
        Stamp::synthetic(1),
    );
    e.submit_limit(
        OrderId::new(2),
        Side::Buy,
        PriceTicks(105),
        QtyLots(1),
        Stamp::synthetic(1),
    );
    // The window never dips below the previous price, so nothing is
    // gap-crossed and the ordinary crossing path runs.
    let fills = e.on_tick(&tick(2, 110, 110, 100)).to_vec();
    assert_eq!(fills.len(), 2);
    assert!(fills.iter().all(|f| f.reason == FillReason::Crossed));
    assert_eq!(
        fills[0].fill.order,
        OrderId::new(2),
        "105 is the better bid"
    );
    assert_eq!(fills[1].fill.order, OrderId::new(1));
}

#[test]
fn gap_crossing_fills_in_arrival_order_not_price_order() {
    let mut e = engine();
    e.on_tick(&tick(1, 100, 100, 100));
    e.submit_limit(
        OrderId::new(1),
        Side::Buy,
        PriceTicks(90),
        QtyLots(1),
        Stamp::synthetic(1),
    );
    e.submit_limit(
        OrderId::new(2),
        Side::Buy,
        PriceTicks(95),
        QtyLots(1),
        Stamp::synthetic(1),
    );
    let fills = e.on_tick(&tick(2, 85, 100, 85)).to_vec();
    assert_eq!(fills.len(), 2);
    assert!(fills.iter().all(|f| f.reason == FillReason::GapCrossed));
    assert_eq!(fills[0].fill.order, OrderId::new(1), "submitted first");
    assert_eq!(fills[1].fill.order, OrderId::new(2));
    // Each still fills at its own price, which is the rule that
    // matters for P&L.
    assert_eq!(fills[0].fill.price, PriceTicks(90));
    assert_eq!(fills[1].fill.price, PriceTicks(95));
}

#[test]
fn trade_ids_are_dense_and_monotonic() {
    let mut e = engine();
    e.on_tick(&tick(1, 100, 100, 100));
    for i in 1..=5 {
        e.submit_limit(
            OrderId::new(i),
            Side::Buy,
            PriceTicks(99),
            QtyLots(1),
            Stamp::synthetic(1),
        );
    }
    let fills = e.on_tick(&tick(2, 98, 100, 98)).to_vec();
    let ids: Vec<u64> = fills.iter().map(|f| f.fill.trade.0).collect();
    assert_eq!(ids, vec![1, 2, 3, 4, 5]);
}
