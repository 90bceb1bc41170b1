use openquanter::engine::tick::Tick;
use openquanter::ledger::event::Event;
use openquanter::ledger::kernel::{Fees, Kernel, Output, RejectReason, State};
use openquanter::margin::{Contract, MarginTier, TierTable};
use openquanter::types::{
    Cash, Fill, InstrumentId, Liquidity, Nanos, Offset, OrderId, PriceTicks, QtyLots, Ratio, Side,
    Stamp, TradeId,
};

fn btc() -> Contract {
    Contract::new(10_000)
}

fn table() -> TierTable {
    TierTable::new(vec![MarginTier {
        max_notional: Cash(i64::MAX),
        rate: Ratio::from_percent(1),
        amount: Cash(0),
    }])
    .expect("single bracket")
}

fn kernel(balance_units: i64) -> Kernel {
    Kernel::new(State::new(
        InstrumentId::new(1),
        btc(),
        table(),
        Cash::from_units(balance_units),
    ))
}

fn tick(n: i64, last: i64) -> Event {
    Event::Tick(Tick::trades_only(Stamp::synthetic(n), last, last, last))
}

fn buy(id: u64, price: i64, qty: i64, n: i64) -> Event {
    Event::Submit {
        id: OrderId::new(id),
        side: Side::Buy,
        price: Some(PriceTicks(price)),
        qty: QtyLots(qty),
        stamp: Stamp::synthetic(n),
        offset: Offset::Open,
    }
}

#[test]
fn fees_are_charged_per_fill_and_tracked_separately() {
    // The gap a 608-day run surfaced: fills were free. Over a
    // window with hundreds of round trips on a doubling ladder, the
    // omission is not a rounding error — it was an order of
    // magnitude on the reported result.
    let mut k = Kernel::new(
        State::new(InstrumentId::new(1), btc(), table(), Cash::from_units(10_000))
            .with_fees(Fees::flat(Ratio::from_ppm(500))), // 0.05%
    );
    k.apply(&tick(1, 1_000_000));
    k.apply(&buy(1, 1_000_000, 10, 1));
    k.apply(&tick(2, 1_000_000));

    // The fixture's tick-lot is 0.0001 of quote currency, so
    // 1_000_000 ticks of price on 10 lots is 1000 USDT of notional,
    // and 0.05% of that is 0.50 USDT.
    let s = k.summary();
    assert_eq!(s.fees, Cash::from_units(1).scaled(Ratio::from_percent(50)));
    assert!(s.fees.0 > 0, "a fee is a cost, recorded positive");
    assert_eq!(
        s.balance,
        Cash::from_units(10_000).sub(s.fees),
        "the fee leaves the balance"
    );
}

#[test]
fn a_maker_rebate_is_carried_through_rather_than_clamped() {
    // Being paid to provide liquidity is the whole economics of
    // some strategies; a fee model that floors at zero cannot
    // express them.
    let fees = Fees {
        maker: Ratio::from_ppm(-200),
        taker: Ratio::from_ppm(500),
    };
    let fill = Fill {
        stamp: Stamp::synthetic(0),
        instrument: InstrumentId::new(1),
        order: OrderId::new(1),
        trade: TradeId(1),
        side: Side::Buy,
        offset: Offset::Open,
        price: PriceTicks(1_000_000),
        qty: QtyLots(10),
        liquidity: Liquidity::Maker,
    };
    assert!(fees.charge(btc(), &fill).0 < 0, "a rebate must stay negative");
}

#[test]
fn no_fee_schedule_means_no_fees() {
    let mut k = kernel(10_000);
    k.apply(&tick(1, 1_000_000));
    k.apply(&buy(1, 1_000_000, 10, 1));
    k.apply(&tick(2, 1_000_000));
    assert_eq!(k.summary().fees, Cash(0));
}

#[test]
fn a_fill_opens_a_position_at_the_fill_price() {
    let mut k = kernel(1_000);
    k.apply(&tick(1, 1_000_000));
    k.apply(&buy(1, 999_000, 10, 1));
    let outs = k.apply(&tick(2, 998_000)).to_vec();
    assert!(matches!(outs.as_slice(), [Output::Filled(_)]));
    assert_eq!(k.summary().qty, QtyLots(10));
    assert_eq!(k.summary().entry, PriceTicks(999_000));
}

#[test]
fn adding_to_a_position_averages_the_entry() {
    let mut k = kernel(10_000);
    k.apply(&tick(1, 1_000_000));
    k.apply(&buy(1, 1_000_000, 10, 1));
    k.apply(&tick(2, 1_000_000));
    k.apply(&buy(2, 900_000, 10, 2));
    k.apply(&tick(3, 900_000));
    assert_eq!(k.summary().qty, QtyLots(20));
    assert_eq!(
        k.summary().entry,
        PriceTicks(950_000),
        "size-weighted average of 1_000_000 and 900_000"
    );
}

#[test]
fn closing_realizes_profit_and_flattens() {
    let mut k = kernel(10_000);
    k.apply(&tick(1, 1_000_000));
    k.apply(&buy(1, 1_000_000, 10, 1));
    k.apply(&tick(2, 1_000_000));
    // Sell back higher.
    k.apply(&Event::Submit {
        id: OrderId::new(2),
        side: Side::Sell,
        price: Some(PriceTicks(1_010_000)),
        qty: QtyLots(10),
        stamp: Stamp::synthetic(2),
        offset: Offset::Open,
    });
    k.apply(&tick(3, 1_020_000));
    let s = k.summary();
    assert_eq!(s.qty, QtyLots(0));
    assert_eq!(s.entry, PriceTicks(0));
    assert!(s.realized.0 > 0, "a profitable round trip realizes profit");
}

#[test]
fn a_duplicate_order_id_is_rejected() {
    let mut k = kernel(1_000);
    k.apply(&tick(1, 1_000_000));
    k.apply(&buy(1, 900_000, 1, 1));
    let outs = k.apply(&buy(1, 900_000, 1, 1)).to_vec();
    assert!(matches!(
        outs.as_slice(),
        [Output::Rejected {
            reason: RejectReason::DuplicateId,
            ..
        }]
    ));
}

#[test]
fn a_non_positive_quantity_is_rejected() {
    let mut k = kernel(1_000);
    let outs = k.apply(&buy(1, 900_000, 0, 1)).to_vec();
    assert!(matches!(
        outs.as_slice(),
        [Output::Rejected {
            reason: RejectReason::NonPositiveQty,
            ..
        }]
    ));
}

#[test]
fn funding_moves_the_balance_and_is_tracked_separately() {
    let mut k = kernel(10_000);
    k.apply(&tick(1, 1_000_000));
    k.apply(&buy(1, 1_000_000, 10, 1));
    k.apply(&tick(2, 1_000_000));
    let before = k.summary().balance;
    k.apply(&Event::Funding {
        at: Nanos::from_secs(28_800),
        rate: Ratio::from_ppm(100),
        mark: PriceTicks(1_000_000),
    });
    let s = k.summary();
    assert!(s.balance < before, "a long pays a positive rate");
    assert_eq!(s.funding, s.balance.sub(before));
}

#[test]
fn a_position_is_liquidated_when_the_market_reaches_the_level() {
    // The behaviour that a backtest without margin cannot produce.
    let mut k = kernel(100);
    k.apply(&tick(1, 1_200_000));
    k.apply(&buy(1, 1_200_000, 10, 1));
    k.apply(&tick(2, 1_200_000));
    assert_eq!(k.summary().qty, QtyLots(10));

    let liq = k
        .state()
        .position()
        .liquidation_price(&table())
        .expect("has one");
    let outs = k.apply(&tick(3, liq.0)).to_vec();
    assert!(
        outs.iter().any(|o| matches!(o, Output::Liquidated { .. })),
        "expected a liquidation at {liq:?}, got {outs:?}"
    );
    assert_eq!(k.summary().qty, QtyLots(0), "the venue closed it");
}

#[test]
fn funding_alone_can_cause_liquidation() {
    // A position that price never stopped out, ended by financing.
    // Note the entry: the resting buy at 1_200_000 filled at
    // 1_150_000 because a limit order gets price improvement, so
    // the position is flat to the mark and only funding moves it.
    let mut k = kernel(100);
    k.apply(&tick(1, 1_200_000));
    k.apply(&buy(1, 1_200_000, 10, 1));
    k.apply(&tick(2, 1_150_000));
    assert_eq!(k.summary().qty, QtyLots(10));
    assert_eq!(k.summary().entry, PriceTicks(1_150_000));
    assert!(
        !k.state()
            .position()
            .is_liquidatable(&table(), PriceTicks(1_150_000)),
        "price alone leaves this position safe; the point is that funding does not"
    );

    // 1_150 USDT of notional at 10% is more than the whole balance.
    let outs = k
        .apply(&Event::Funding {
            at: Nanos::from_secs(28_800),
            rate: Ratio::from_percent(10), // a squeeze
            mark: PriceTicks(1_150_000),
        })
        .to_vec();
    assert!(
        outs.iter().any(|o| matches!(o, Output::Liquidated { .. })),
        "funding should have ended it, got {outs:?}"
    );
    assert_eq!(k.summary().qty, QtyLots(0));
}

#[test]
fn a_liquidated_account_cannot_keep_trading_on_no_collateral() {
    let mut k = kernel(1);
    k.apply(&tick(1, 1_200_000));
    k.apply(&buy(1, 1_200_000, 100, 1));
    k.apply(&tick(2, 1_200_000));
    // Drive the balance to zero or below.
    k.apply(&Event::MarginDeposit {
        amount: -Cash::from_units(1_000).0,
        at: Nanos(3),
    });
    let outs = k.apply(&buy(2, 1_000_000, 1, 3)).to_vec();
    assert!(matches!(
        outs.as_slice(),
        [Output::Rejected {
            reason: RejectReason::NoMargin,
            ..
        }]
    ));
}

#[test]
fn crossing_through_flat_starts_a_new_position_at_the_fill_price() {
    let mut k = kernel(100_000);
    k.apply(&tick(1, 1_000_000));
    k.apply(&buy(1, 1_000_000, 10, 1));
    k.apply(&tick(2, 1_000_000));
    assert_eq!(k.summary().qty, QtyLots(10));

    // Sell 30: closes 10 long, opens 20 short.
    k.apply(&Event::Submit {
        id: OrderId::new(2),
        side: Side::Sell,
        price: Some(PriceTicks(1_010_000)),
        qty: QtyLots(30),
        stamp: Stamp::synthetic(2),
        offset: Offset::Open,
    });
    k.apply(&tick(3, 1_020_000));
    let s = k.summary();
    assert_eq!(s.qty, QtyLots(-20));
    assert!(s.realized.0 > 0, "the closed leg realized");
    assert!(
        s.entry.0 >= 1_010_000,
        "the new short's entry is the fill price, not a blend"
    );
}
