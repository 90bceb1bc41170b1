use openquanter::engine::tick::Tick;
use openquanter::types::{PriceTicks, QtyLots, Stamp};

#[test]
fn quotes_take_precedence_over_trade_extremes() {
    let t = Tick::quoted(Stamp::synthetic(0), 100, 110, 90, 99, 101);
    assert_eq!(t.buy_trigger(), PriceTicks(101));
    assert_eq!(t.sell_trigger(), PriceTicks(99));
}

#[test]
fn without_quotes_the_window_extremes_trigger() {
    let t = Tick::trades_only(Stamp::synthetic(0), 100, 110, 90);
    assert_eq!(
        t.buy_trigger(),
        PriceTicks(90),
        "a buy is reached by the low"
    );
    assert_eq!(
        t.sell_trigger(),
        PriceTicks(110),
        "a sell is reached by the high"
    );
    assert_eq!(t.buy_fill_reference(), PriceTicks(100));
    assert_eq!(t.sell_fill_reference(), PriceTicks(100));
}

#[test]
fn a_degenerate_tick_falls_back_to_last() {
    let t = Tick::trades_only(Stamp::synthetic(0), 100, 0, 0);
    assert_eq!(t.buy_trigger(), PriceTicks(100));
    assert_eq!(t.sell_trigger(), PriceTicks(100));
    assert_eq!(t.up_extent(), PriceTicks(100));
    assert_eq!(t.dn_extent(), PriceTicks(100));
}

#[test]
fn volume_deltas_are_differences() {
    let a = Tick::trades_only(Stamp::synthetic(1), 100, 100, 100).with_volume(500);
    let b = Tick::trades_only(Stamp::synthetic(2), 100, 100, 100).with_volume(1_200);
    assert_eq!(b.volume_since(&a), QtyLots(700));
}

#[test]
fn a_reset_reads_as_no_volume_not_negative_volume() {
    // Venues that reset an accumulator at a period boundary produce
    // a backwards step. Reporting that as negative traded volume
    // would make a volume trigger fire on the reset itself.
    let a = Tick::trades_only(Stamp::synthetic(1), 100, 100, 100).with_volume(9_000);
    let b = Tick::trades_only(Stamp::synthetic(2), 100, 100, 100).with_volume(0);
    assert_eq!(b.volume_since(&a), QtyLots(0));
}
