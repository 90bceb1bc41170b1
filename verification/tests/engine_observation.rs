use openquanter::engine::observation::Observation;
use openquanter::engine::tick::Tick;
use openquanter::types::{Nanos, PriceTicks, QtyLots, Stamp};
use openquanter::venue::depth::DepthUpdate;

fn tick(ns: i64) -> Tick {
    Tick {
        stamp: Stamp {
            exch: Nanos(ns),
            local: Nanos(ns),
        },
        last: PriceTicks(100),
        high: PriceTicks(100),
        low: PriceTicks(100),
        bid: PriceTicks(99),
        ask: PriceTicks(101),
        volume: QtyLots(0),
    }
}

fn update(ms: i64) -> DepthUpdate {
    DepthUpdate {
        event_ms: ms,
        first_id: 1,
        final_id: 1,
        prev_final_id: None,
        bids: Vec::new(),
        asks: Vec::new(),
    }
}

/// Both kinds report the same unit, or a merge sorting on it
/// interleaves them wrongly — and the failure is silent, because a
/// stream in the wrong order still runs.
#[test]
fn a_tick_and_an_update_report_time_in_the_same_unit() {
    assert_eq!(Observation::Tick(tick(5_000_000_000)).at_ms(), Some(5_000));
    assert_eq!(Observation::from(update(5_000)).at_ms(), Some(5_000));
}

/// A snapshot is a starting state, not an event. Giving it a time
/// would let a merge sort it into the middle, where it wipes the
/// book a hundred updates had built.
#[test]
fn a_snapshot_carries_no_time() {
    assert_eq!(
        Observation::Snapshot {
            update_id: 7,
            bids: Vec::new(),
            asks: Vec::new(),
        }
        .at_ms(),
        None
    );
}
