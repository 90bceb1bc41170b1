use openquanter::engine::tick::Tick;
use openquanter::ledger::event::Event;
use openquanter::ledger::kernel::{Output, PositionMode, RejectReason, State};
use openquanter::ledger::shard::Shards;
use openquanter::margin::{Contract, MarginTier, TierTable};
use openquanter::types::{
    Cash, InstrumentId, Offset, OrderId, PriceTicks, QtyLots, Ratio, Side, Stamp,
};

fn table() -> TierTable {
    TierTable::new(vec![MarginTier {
        max_notional: Cash(i64::MAX),
        rate: Ratio::from_percent(1),
        amount: Cash(0),
    }])
    .expect("single bracket")
}

fn state_for(id: u32, balance: i64) -> State {
    State::new(
        InstrumentId::new(id),
        Contract::new(1_000),
        table(),
        Cash::from_units(balance),
    )
    .with_mode(PositionMode::OneWay)
}

fn tick_at(at: i64, price: i64) -> Event {
    Event::Tick(Tick::trades_only(Stamp::synthetic(at), price, price, price))
}

fn on(id: u32) -> Option<InstrumentId> {
    Some(InstrumentId::new(id))
}

/// **The property sharding exists for.** What happens in one shard
/// does not reach another's balance.
///
/// This is isolated margin: a position that exhausts its own balance
/// is liquidated while the others continue. Under one shared balance
/// — which is `State` with several holdings — the loss would be paid
/// for out of the same money, which is cross margin and a different
/// account.
#[test]
fn a_loss_in_one_shard_does_not_reach_another() {
    let mut shards = Shards::new(vec![state_for(1, 10_000), state_for(2, 10_000)]);

    shards.apply(on(1), &tick_at(1_000, 100_000));
    shards.apply(on(1), &Event::Submit {
        id: OrderId::new(1),
        side: Side::Buy,
        price: None,
        qty: QtyLots(10),
        offset: Offset::Open,
        stamp: Stamp::synthetic(1_000),
    });
    // A market order fills on the *next* observation, so this one is
    // where it is bought — at the price it was submitted against.
    shards.apply(on(1), &tick_at(2_000, 100_000));
    // And this is the fall that costs the first shard.
    shards.apply(on(1), &tick_at(3_000, 50_000));

    let first = shards
        .shard(InstrumentId::new(1))
        .expect("held")
        .summary()
        .equity;
    let second = shards
        .shard(InstrumentId::new(2))
        .expect("held")
        .summary()
        .equity;

    assert!(
        first < Cash::from_units(10_000),
        "the first shard lost; equity {first:?}, position {:?}",
        shards
            .shard(InstrumentId::new(1))
            .expect("held")
            .summary()
            .qty
    );
    assert_eq!(
        second,
        Cash::from_units(10_000),
        "and the second is untouched"
    );
}

/// An event reaches the shard it names.
#[test]
fn an_event_routes_by_instrument() {
    let mut shards = Shards::new(vec![state_for(1, 10_000), state_for(2, 10_000)]);
    shards.apply(on(2), &tick_at(1_000, 77_000));

    assert_eq!(
        shards
            .shard(InstrumentId::new(2))
            .expect("held")
            .summary()
            .mark,
        PriceTicks(77_000)
    );
    assert_eq!(
        shards
            .shard(InstrumentId::new(1))
            .expect("held")
            .summary()
            .mark,
        PriceTicks(0),
        "the other shard saw nothing"
    );
}

/// An instrument no shard holds is refused, not dropped.
///
/// A shard set is a closed list of what this process trades, so an
/// event outside it is a routing mistake upstream — and one that
/// vanishes silently is a feed nobody notices is misconfigured.
#[test]
fn an_event_for_an_unheld_instrument_is_refused() {
    let mut shards = Shards::new(vec![state_for(1, 10_000)]);
    let out = shards.apply(on(99), &tick_at(1_000, 100_000));
    assert!(out.iter().any(|o| matches!(
        o,
        Output::Rejected {
            reason: RejectReason::UnroutableObservation,
            ..
        }
    )));
}

/// An unnamed event reaches a lone shard and is refused once there
/// are two — the same rule a single kernel applies to its holdings.
#[test]
fn an_unnamed_event_needs_exactly_one_shard() {
    let unnamed = tick_at(1_000, 100_000);

    let mut one = Shards::new(vec![state_for(1, 10_000)]);
    assert!(
        !one.apply(None, &unnamed)
            .iter()
            .any(|o| matches!(o, Output::Rejected { .. })),
        "one shard is unambiguous"
    );

    let mut two = Shards::new(vec![state_for(1, 10_000), state_for(2, 10_000)]);
    assert!(
        two.apply(None, &unnamed)
            .iter()
            .any(|o| matches!(o, Output::Rejected { .. })),
        "two are not"
    );
}

/// Stepping shards in order gives the same answer as stepping each
/// separately.
///
/// The property a host needs before putting them on threads: they
/// share nothing, so the interleaving cannot matter. Asserted rather
/// than assumed, because it is the whole basis for parallelising
/// them later.
#[test]
fn interleaving_shards_changes_nothing() {
    let events = || {
        vec![
            tick_at(1_000, 100_000),
            tick_at(2_000, 101_000),
            tick_at(3_000, 99_000),
        ]
    };

    // Interleaved.
    let mut together = Shards::new(vec![state_for(1, 10_000), state_for(2, 10_000)]);
    for (a, b) in events().iter().zip(events().iter()) {
        together.apply(on(1), a);
        together.apply(on(2), b);
    }

    // One shard's events, then the other's.
    let mut apart = Shards::new(vec![state_for(1, 10_000), state_for(2, 10_000)]);
    for e in events() {
        apart.apply(on(1), &e);
    }
    for e in events() {
        apart.apply(on(2), &e);
    }

    for id in [1, 2] {
        let a = together.shard(InstrumentId::new(id)).expect("held");
        let b = apart.shard(InstrumentId::new(id)).expect("held");
        assert_eq!(
            a.fingerprint(),
            b.fingerprint(),
            "shard {id} depends on the order events reached other shards"
        );
    }
}

/// Two shards for one instrument is refused.
#[test]
#[should_panic(expected = "each instrument gets one shard")]
fn one_instrument_gets_one_shard() {
    let states = vec![state_for(1, 10_000), state_for(1, 10_000)];
    assert!(Shards::distinct(&states), "each instrument gets one shard");
    let _ = Shards::new(states);
}
