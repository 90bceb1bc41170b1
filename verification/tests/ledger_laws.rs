use openquanter::engine::tick::Tick;
use openquanter::ledger::event::Event;
use openquanter::ledger::kernel::{
    signed, Fees, Fingerprint, Kernel, Output, RejectReason, State,
};
use openquanter::ledger::sequencer::{replay, Frame, ReplayStop, Sequencer};
use openquanter::ledger::shard::Shards;
use openquanter::ledger::sink::{EventSink, FrameError, JournalError, MemorySink};
use openquanter::margin::{
    Contract, FundingRate, FundingSchedule, MarginTier, MarginedPosition, TierTable,
};
use openquanter::types::{
    limit_order, Cash, InstrumentId, Nanos, Offset, OrderId, PriceTicks, QtyLots, Ratio, Side, Stamp,
};

fn table() -> TierTable {
    TierTable::new(vec![MarginTier {
        max_notional: Cash(i64::MAX),
        rate: Ratio::from_percent(1),
        amount: Cash(0),
    }])
    .expect("single bracket")
}

fn state(balance: i64) -> State {
    State::new(
        InstrumentId::new(1),
        Contract::new(10_000),
        table(),
        Cash::from_units(balance),
    )
}

fn tick(n: i64, price: i64) -> Event {
    Event::Tick(Tick::trades_only(Stamp::synthetic(n), price, price, price))
}

fn order(id: u64, side: Side, price: i64, qty: i64, n: i64) -> Event {
    Event::Submit {
        id: OrderId(id),
        side,
        price: Some(PriceTicks(price)),
        qty: QtyLots(qty),
        offset: Offset::Open,
        stamp: Stamp::synthetic(n),
    }
}

#[test]
fn the_balance_is_what_was_put_in_made_paid_and_charged() {
    let mut k = Kernel::new(state(10_000).with_fees(Fees::flat(Ratio::from_ppm(500))));
    k.apply(&tick(1, 1_000_000));
    k.apply(&order(1, Side::Buy, 1_000_000, 10, 1));
    k.apply(&tick(2, 1_000_000));
    k.apply(&Event::Funding {
        at: Nanos(3),
        rate: Ratio::from_ppm(100),
        mark: PriceTicks(1_000_000),
    });
    k.apply(&Event::MarginDeposit {
        amount: Cash::from_units(7).0,
        at: Nanos(4),
    });
    k.apply(&order(2, Side::Sell, 1_010_000, 4, 5));
    k.apply(&tick(6, 1_020_000));
    let s = k.summary();
    assert_ne!(s.realized, Cash(0));
    assert_ne!(s.funding, Cash(0));
    assert_ne!(s.fees, Cash(0));
    let kept = Cash::from_units(10_007)
        .add(s.realized)
        .add(s.funding)
        .sub(s.fees);
    assert_eq!(s.balance, kept);
}

#[test]
fn a_refused_order_leaves_the_account_as_it_was() {
    let mut k = Kernel::new(state(1_000));
    k.apply(&tick(1, 1_000_000));
    k.apply(&order(1, Side::Buy, 900_000, 1, 1));
    let before = k.fingerprint();
    assert_eq!(before.clone(), before);
    for (event, why) in [
        (order(1, Side::Buy, 900_000, 1, 1), RejectReason::DuplicateId),
        (order(2, Side::Sell, 900_000, 0, 1), RejectReason::NonPositiveQty),
    ] {
        let out = k.apply(&event).to_vec();
        assert!(matches!(
            out.as_slice(),
            [Output::Rejected { reason, .. }] if *reason == why
        ));
        let after: Fingerprint = k.fingerprint();
        assert_eq!(after, before);
    }
}

#[test]
fn without_enforcement_the_account_is_never_closed() {
    let mut k = Kernel::new(state(10).without_liquidation());
    k.apply(&tick(1, 1_200_000));
    k.apply(&order(1, Side::Buy, 1_200_000, 100, 1));
    k.apply(&tick(2, 1_200_000));
    for n in 3..20 {
        let out = k.apply(&tick(n, 1_200_000 - n * 50_000)).to_vec();
        assert!(!out.iter().any(|o| matches!(o, Output::Liquidated { .. })));
    }
    assert!(k.summary().equity < Cash(0));
    assert_eq!(k.summary().qty, QtyLots(100));
}

#[test]
fn a_closed_account_holds_nothing() {
    let mut k = Kernel::new(state(100));
    k.apply(&tick(1, 1_200_000));
    k.apply(&order(1, Side::Buy, 1_200_000, 10, 1));
    k.apply(&order(2, Side::Buy, 100, 1, 1));
    k.apply(&tick(2, 1_200_000));
    k.apply(&tick(3, 600_000));
    let s = k.summary();
    assert_eq!((s.qty, s.short_qty), (QtyLots(0), QtyLots(0)));
    assert_eq!((s.entry, s.short_entry), (PriceTicks(0), PriceTicks(0)));
    assert!(k.working().is_empty());
}

#[test]
fn the_journal_holds_what_was_applied_and_nothing_more() {
    let mut seq = Sequencer::with_sink(state(1_000), MemorySink::new());
    for n in 0..5 {
        seq.submit(&tick(n, 1_000_000 + n)).expect("recorded");
    }
    assert_eq!(seq.applied(), 5);
    assert_eq!(seq.sink().len(), 5);
    let (kind, payload) = &seq.sink().records()[3];
    assert_eq!(Event::decode(*kind, payload), Some(tick(3, 1_000_003)));
}

#[test]
fn a_record_that_cannot_be_decoded_is_named_by_its_place() {
    let ev = Event::Time(Nanos(1));
    let frames = vec![
        Frame {
            seq: 0,
            kind: ev.kind(),
            payload: ev.encode(),
        },
        Frame {
            seq: 1,
            kind: 60_000,
            payload: vec![1, 2, 3],
        },
    ];
    match replay(state(1), &frames, ReplayStop::End) {
        Err(JournalError::Corrupt { cause, .. }) => {
            let _: FrameError = cause;
        }
        _ => panic!("the second record is not known"),
    }
}

#[test]
fn a_sink_keeps_the_kind_beside_the_payload() {
    let mut sink = MemorySink::new();
    assert!(sink.is_empty());
    sink.append(7, &[1, 2]).expect("kept");
    sink.flush().expect("flushed");
    sink.sync().expect("synced");
    assert_eq!(sink.records(), &vec![(7u16, vec![1u8, 2])]);
}

#[test]
fn notional_margin_and_funding_have_exact_values() {
    let c = Contract::new(10_000);
    // 1_000_000 ticks on 10 lots at 10_000 to the tick-lot.
    assert_eq!(c.notional(PriceTicks(1_000_000), QtyLots(10)), Cash::from_units(1_000));
    assert_eq!(
        c.unrealized(PriceTicks(1_000_000), PriceTicks(1_010_000), QtyLots(-10)),
        Cash::from_units(-10)
    );
    assert_eq!(
        table().maintenance(c, PriceTicks(1_000_000), QtyLots(-10)),
        Cash::from_units(10)
    );
    let rate = FundingRate::new(Nanos(5), Ratio::from_ppm(100), PriceTicks(1_000_000));
    // A long pays 0.01% of 1000.
    assert_eq!(rate.settle(c, QtyLots(10)), Cash(-10_000_000));
    assert_eq!(rate.settle(c, QtyLots(-10)), Cash(10_000_000));
}

#[test]
fn a_bracket_holds_up_to_its_edge() {
    let t = TierTable::example_btcusdt();
    let c = Contract::new(100_000_000);
    // 50_000 units are in the first bracket, one more in the second.
    assert_eq!(
        t.maintenance(c, PriceTicks(50_000), QtyLots(1)),
        Cash::from_units(200)
    );
    assert_eq!(
        t.maintenance(c, PriceTicks(60_000), QtyLots(1)),
        Cash::from_units(250)
    );
    assert!(TierTable::new(Vec::new()).is_none());
}

#[test]
fn a_liquidation_price_is_the_first_that_closes() {
    let t = table();
    let p = MarginedPosition::new(
        Contract::new(10_000),
        PriceTicks(1_200_000),
        QtyLots(10),
        Cash::from_units(100),
    );
    let at = p.liquidation_price(&t).expect("one");
    assert!(p.is_liquidatable(&t, at));
    assert!(!p.is_liquidatable(&t, PriceTicks(at.0 + 1)));
    let flat = MarginedPosition {
        qty: QtyLots(0),
        ..p
    };
    assert_eq!(flat.liquidation_price(&t), None);
}

#[test]
fn a_funding_schedule_gives_what_fell_due_between() {
    let rate = |at| FundingRate::new(Nanos(at), Ratio::from_ppm(100), PriceTicks(1));
    let s = FundingSchedule::new(vec![rate(10), rate(20), rate(30), rate(40)]);
    let due: Vec<i64> = s.between(Nanos(10), Nanos(30)).iter().map(|r| r.at.0).collect();
    assert_eq!(due, vec![20, 30]);
    assert!(FundingSchedule::none().is_empty());
}

#[test]
fn a_quantity_takes_the_sign_of_its_side() {
    assert_eq!(signed(Side::Buy, QtyLots(4)), QtyLots(4));
    assert_eq!(signed(Side::Sell, QtyLots(4)), QtyLots(-4));
}

#[test]
fn an_order_put_in_directly_rests_like_any_other() {
    let mut k = Kernel::new(state(1_000));
    k.submit_raw(limit_order(
        OrderId(9),
        Side::Buy,
        PriceTicks(500),
        QtyLots(1),
        Stamp::synthetic(0),
        Offset::Open,
    ));
    assert_eq!(k.fingerprint().book, vec![(OrderId(9), 1)]);
}

#[test]
fn a_shard_can_be_driven_by_itself() {
    let mut shards = Shards::new(vec![state(1_000)]);
    let only = shards.shard_mut(InstrumentId::new(1)).expect("held");
    only.apply(&tick(1, 777));
    assert_eq!(shards.iter()[0].summary().mark, PriceTicks(777));
    assert!(shards.shard_mut(InstrumentId::new(2)).is_none());
    assert_eq!((shards.len(), shards.is_empty()), (1, false));
}

/// A sink that takes a number of records and then refuses, in its own words.
struct Full {
    left: usize,
}

impl EventSink for Full {
    fn append(&mut self, _kind: u16, _payload: &[u8]) -> Result<u64, JournalError> {
        if self.left == 0 {
            return Err(JournalError::Io("no room left".to_string()));
        }
        self.left -= 1;
        Ok(7)
    }
    fn flush(&mut self) -> Result<(), JournalError> {
        Err(JournalError::Io("not flushed".to_string()))
    }
    fn sync(&mut self) -> Result<(), JournalError> {
        Err(JournalError::Io("not synced".to_string()))
    }
}

#[test]
fn what_a_sink_answers_is_handed_on() {
    let mut full = Sequencer::with_sink(state(1_000), Full { left: 1 });
    assert!(full.submit(&tick(1, 1_000_000)).is_ok());
    assert_eq!(
        full.submit(&tick(2, 1_000_100)).map(|o| o.len()),
        Err(JournalError::Io("no room left".to_string())),
    );
    assert_eq!(full.applied(), 1);
    assert_eq!(full.sink().left, 0);
    assert_eq!(full.flush(), Err(JournalError::Io("not flushed".to_string())));
    assert_eq!(full.sync(), Err(JournalError::Io("not synced".to_string())));

    let mut kept = Sequencer::with_sink(state(1_000), MemorySink::new());
    for n in 0..50 {
        assert!(kept.submit(&tick(n, 1_000_000 + n)).is_ok());
    }
    assert!(kept.flush().is_ok() && kept.sync().is_ok());
    assert_eq!(kept.sink().len(), 50);
}
