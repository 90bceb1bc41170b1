use openquanter::ledger::kernel::{PositionMode, State};
use openquanter::margin::{Contract, TierTable};
use openquanter::types::{
    Cash, Fill, InstrumentId, Liquidity, Offset, OrderId, PriceTicks, QtyLots, Side, Stamp, TradeId,
};

fn fill(side: Side, offset: Offset, price: i64, qty: i64) -> Fill {
    Fill {
        stamp: Stamp::synthetic(0),
        instrument: InstrumentId::new(1),
        order: OrderId::new(1),
        trade: TradeId(1),
        side,
        offset,
        price: PriceTicks(price),
        qty: QtyLots(qty),
        liquidity: Liquidity::Maker,
    }
}

fn state() -> State {
    State::new(
        InstrumentId::new(1),
        Contract::new(1_000),
        TierTable::example_btcusdt(),
        Cash::from_units(20_000),
    )
    .with_mode(PositionMode::Hedge)
}

/// The point of the mode: opposing fills do not cancel out.
#[test]
fn a_long_and_a_short_stand_side_by_side() {
    let mut s = state();
    s.apply_fill(&fill(Side::Buy, Offset::Open, 6_000_000, 10));
    s.apply_fill(&fill(Side::Sell, Offset::Open, 6_100_000, 4));

    assert_eq!(s.qty, QtyLots(10), "the long is untouched by the short");
    assert_eq!(s.entry, PriceTicks(6_000_000));
    assert_eq!(s.short_qty, QtyLots(-4));
    assert_eq!(s.short_entry, PriceTicks(6_100_000));
    assert_eq!(
        s.realized,
        Cash(0),
        "opening a short against a long realizes nothing"
    );
}

/// Under netting the same fills leave one position and no short leg,
/// which is the difference the mode makes.
#[test]
fn netting_gives_a_different_position_from_the_same_fills() {
    let mut hedged = state();
    let mut netted = State::new(
        InstrumentId::new(1),
        Contract::new(1_000),
        TierTable::example_btcusdt(),
        Cash::from_units(20_000),
    );
    for f in [
        fill(Side::Buy, Offset::Open, 6_000_000, 10),
        fill(Side::Sell, Offset::Open, 6_100_000, 4),
    ] {
        hedged.apply_fill(&f);
        netted.apply_fill(&f);
    }
    assert_eq!(netted.qty, QtyLots(6), "netting offsets");
    assert_eq!(netted.short_qty, QtyLots(0));
    assert_eq!(hedged.qty, QtyLots(10));
    assert_eq!(hedged.short_qty, QtyLots(-4));
}

#[test]
fn closing_a_leg_realizes_against_that_legs_entry() {
    let mut s = state();
    s.apply_fill(&fill(Side::Buy, Offset::Open, 6_000_000, 10));
    s.apply_fill(&fill(Side::Sell, Offset::Open, 6_100_000, 10));
    // Close the short 100_000 ticks lower: a gain on the short leg,
    // computed against 6_100_000 and not against the long's entry.
    s.apply_fill(&fill(Side::Buy, Offset::Close, 6_000_000, 10));

    assert_eq!(s.short_qty, QtyLots(0));
    assert_eq!(s.qty, QtyLots(10), "the long is still open");
    let expected = Contract::new(1_000).unrealized(
        PriceTicks(6_100_000),
        PriceTicks(6_000_000),
        QtyLots(-10),
    );
    assert_eq!(s.realized, expected);
}

/// Closing more than a leg holds must not roll into the other side:
/// that side is a separate position with its own entry, and opening
/// it here would invent one.
#[test]
fn an_oversized_close_stops_at_flat() {
    let mut s = state();
    s.apply_fill(&fill(Side::Buy, Offset::Open, 6_000_000, 5));
    s.apply_fill(&fill(Side::Sell, Offset::Close, 6_050_000, 12));
    assert_eq!(s.qty, QtyLots(0));
    assert_eq!(s.short_qty, QtyLots(0), "no short was invented");
    assert_eq!(s.entry, PriceTicks(0));
}

/// Margin is held for both legs, so a hedged account requires more
/// than the net exposure suggests. This is the reason the mode
/// matters to a tail report.
#[test]
fn maintenance_covers_both_legs_rather_than_the_net() {
    let mut hedged = state();
    hedged.apply_fill(&fill(Side::Buy, Offset::Open, 6_000_000, 10));
    hedged.apply_fill(&fill(Side::Sell, Offset::Open, 6_000_000, 10));
    let mark = PriceTicks(6_000_000);

    assert_eq!(
        hedged.qty.0 + hedged.short_qty.0,
        0,
        "net exposure is zero, which is exactly the trap"
    );
    assert!(
        hedged.maintenance(mark) > Cash(0),
        "a flat net still posts margin on both legs"
    );
}

#[test]
fn equity_counts_both_legs() {
    let mut s = state();
    s.apply_fill(&fill(Side::Buy, Offset::Open, 6_000_000, 10));
    s.apply_fill(&fill(Side::Sell, Offset::Open, 6_000_000, 10));
    s.mark = PriceTicks(6_100_000);
    // Both entered at the same price, so the long's gain and the
    // short's loss are the same size and cancel.
    assert_eq!(s.unrealized(), Cash(0));
    assert_eq!(s.equity(), s.balance);

    // Entered on opposite sides of the mark they do not cancel —
    // they add, which is the case a netted view cannot express.
    let mut both_winning = state();
    both_winning.apply_fill(&fill(Side::Buy, Offset::Open, 6_000_000, 10));
    both_winning.apply_fill(&fill(Side::Sell, Offset::Open, 6_200_000, 10));
    both_winning.mark = PriceTicks(6_100_000);
    assert!(
        both_winning.unrealized() > Cash(0),
        "a long bought below the mark and a short sold above it are both ahead"
    );
}
