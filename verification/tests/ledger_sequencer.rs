use openquanter::engine::tick::Tick;
use openquanter::ledger::event::Event;
use openquanter::ledger::kernel::{Fingerprint, Output, State};
use openquanter::ledger::sequencer::{
    replay, replay_tolerating_unknown, Frame, ReplayStop, Sequencer,
};
use openquanter::ledger::sink::{EventSink, JournalError, MemorySink};
use openquanter::margin::{Contract, MarginTier, TierTable};
use openquanter::types::{
    Cash, InstrumentId, Nanos, Offset, OrderId, PriceTicks, QtyLots, Ratio, Side, Stamp,
};

fn table() -> TierTable {
    TierTable::new(vec![MarginTier {
        max_notional: Cash(i64::MAX),
        rate: Ratio::from_percent(1),
        amount: Cash(0),
    }])
    .expect("single bracket")
}

/// What a journal holds of what a sink was given.
fn frames(sink: &MemorySink) -> Vec<Frame> {
    sink.records()
        .iter()
        .enumerate()
        .map(|(i, (kind, payload))| Frame {
            seq: i as u64,
            kind: *kind,
            payload: payload.clone(),
        })
        .collect()
}

fn fresh_state() -> State {
    State::new(InstrumentId::new(1), Contract::new(10_000), table(), Cash::from_units(10_000))
}

/// A scenario with fills, funding, and a position that survives:
/// enough moving parts that an accidental non-determinism would
/// show up somewhere.
fn scenario() -> Vec<Event> {
    vec![
        Event::Tick(Tick::trades_only(
            Stamp::synthetic(1),
            1_000_000,
            1_000_000,
            1_000_000,
        )),
        Event::Submit {
            id: OrderId::new(1),
            side: Side::Buy,
            price: Some(PriceTicks(990_000)),
            qty: QtyLots(10),
            stamp: Stamp::synthetic(1),
            offset: Offset::Open,
        },
        Event::Tick(Tick::trades_only(
            Stamp::synthetic(2),
            985_000,
            1_000_000,
            980_000,
        )),
        Event::Funding {
            at: Nanos::from_secs(28_800),
            rate: Ratio::from_ppm(100),
            mark: PriceTicks(985_000),
        },
        Event::Submit {
            id: OrderId::new(2),
            side: Side::Sell,
            price: Some(PriceTicks(1_005_000)),
            qty: QtyLots(10),
            stamp: Stamp::synthetic(3),
            offset: Offset::Open,
        },
        Event::Tick(Tick::quoted(
            Stamp::synthetic(4),
            1_010_000,
            1_012_000,
            1_000_000,
            1_009_000,
            1_011_000,
        )),
        Event::Time(Nanos::from_secs(30_000)),
        // Deliberately left resting at the end of the scenario. Were
        // every order filled, the book would be empty in both arms and
        // a replay that rebuilt it incorrectly would still pass.
        Event::Submit {
            id: OrderId::new(3),
            side: Side::Buy,
            price: Some(PriceTicks(500_000)),
            qty: QtyLots(4),
            stamp: Stamp::synthetic(5),
            offset: Offset::Open,
        },
        // And one that is cancelled, so the working set is exercised
        // in both directions.
        Event::Submit {
            id: OrderId::new(4),
            side: Side::Sell,
            price: Some(PriceTicks(2_000_000)),
            qty: QtyLots(1),
            stamp: Stamp::synthetic(5),
            offset: Offset::Open,
        },
        Event::Cancel {
            id: OrderId::new(4),
            stamp: Stamp::synthetic(6),
        },
    ]
}

/// SplitMix64: a small, well-distributed generator with no lattice
/// structure at fixed strides. Used so the property tests draw
/// varied scenarios without a dependency, and so a failure
/// reproduces from its seed alone.
struct SplitMix64(u64);

impl SplitMix64 {
    fn new(seed: u64) -> Self {
        Self(seed)
    }
    fn next(&mut self) -> u64 {
        self.0 = self.0.wrapping_add(0x9E37_79B9_7F4A_7C15);
        let mut z = self.0;
        z = (z ^ (z >> 30)).wrapping_mul(0xBF58_476D_1CE4_E5B9);
        z = (z ^ (z >> 27)).wrapping_mul(0x94D0_49BB_1331_11EB);
        z ^ (z >> 31)
    }
    fn below(&mut self, n: u64) -> u64 {
        self.next() % n
    }
}

/// A pseudo-random but reproducible event sequence.
fn generated_scenario(seed: u64, len: usize) -> Vec<Event> {
    let mut rng = SplitMix64::new(seed);
    let mut events = Vec::with_capacity(len);
    let mut price: i64 = 1_000_000;
    let mut next_id = 1u64;
    for i in 0..len {
        let step = rng.below(20_001) as i64 - 10_000;
        price = (price + step).max(1_000);
        let spread = rng.below(5_000) as i64;
        events.push(Event::Tick(Tick::trades_only(
            Stamp::synthetic(i as i64),
            price,
            price + spread,
            (price - spread).max(1),
        )));
        match rng.below(10) {
            0..=3 => {
                next_id += 1;
                let side = if rng.below(2) == 0 {
                    Side::Buy
                } else {
                    Side::Sell
                };
                let offset = rng.below(50_000) as i64;
                let limit = if side == Side::Buy {
                    (price - offset).max(1)
                } else {
                    price + offset
                };
                events.push(Event::Submit {
                    id: OrderId::new(next_id),
                    side,
                    price: Some(PriceTicks(limit)),
                    qty: QtyLots(1 + rng.below(8) as i64),
                    stamp: Stamp::synthetic(i as i64),
                    offset: Offset::Open,
                });
            }
            4 => {
                events.push(Event::Cancel {
                    id: OrderId::new(1 + rng.below(next_id.max(1))),
                    stamp: Stamp::synthetic(i as i64),
                });
            }
            5 => {
                events.push(Event::Funding {
                    at: Nanos(i as i64),
                    rate: Ratio::from_ppm(rng.below(400) as i64 - 200),
                    mark: PriceTicks(price),
                });
            }
            _ => {}
        }
    }
    events
}

#[test]
fn a_replay_reproduces_the_run_exactly() {
    // The property the whole architecture is built to provide,
    // asserted rather than assumed.
    let mut live_outputs = Vec::new();
    let live_fingerprint: Fingerprint;
    let journal;
    {
        let mut seq = Sequencer::with_sink(fresh_state(), MemorySink::new());
        for event in scenario() {
            live_outputs.extend_from_slice(seq.submit(&event).expect("submit"));
        }
        seq.sync().expect("sync");
        live_fingerprint = seq.kernel().fingerprint();
        journal = frames(seq.sink());
    }
    assert!(
        !live_fingerprint.book.is_empty(),
        "the scenario must leave orders resting, or this test cannot \
         see whether the book was reproduced at all"
    );

    let replayed = replay(fresh_state(), &journal, ReplayStop::End).expect("replay");
    assert!(replayed.is_complete(), "every record must decode");
    assert_eq!(replayed.events, scenario().len());
    assert_eq!(
        replayed.outputs, live_outputs,
        "replay must produce identical outputs"
    );
    // The whole state, not the account projection: a replay that
    // rebuilt the order book incorrectly must fail here.
    assert_eq!(
        replayed.kernel.fingerprint(),
        live_fingerprint,
        "replay must produce identical state, book included"
    );
}

#[test]
fn replaying_twice_gives_the_same_answer() {
    let journal;
    {
        let mut seq = Sequencer::with_sink(fresh_state(), MemorySink::new());
        for event in scenario() {
            seq.submit(&event).expect("submit");
        }
        seq.sync().expect("sync");
        journal = frames(seq.sink());
    }
    let a = replay(fresh_state(), &journal, ReplayStop::End).expect("replay");
    let b = replay(fresh_state(), &journal, ReplayStop::End).expect("replay");
    assert_eq!(a.outputs, b.outputs);
    assert_eq!(a.kernel.fingerprint(), b.kernel.fingerprint());
}

#[test]
fn a_crash_mid_write_replays_up_to_the_last_whole_event() {
    let journal;
    {
        let mut seq = Sequencer::with_sink(fresh_state(), MemorySink::new());
        for event in scenario() {
            seq.submit(&event).expect("submit");
        }
        seq.sync().expect("sync");
        journal = frames(seq.sink());
    }
    // The process died partway through appending another.

    let result = replay(fresh_state(), &journal, ReplayStop::TornTail { at_offset: 1_024 })
        .expect("replay tolerates a torn tail");
    assert_eq!(result.events, scenario().len());
    assert!(matches!(
        result.stop,
        ReplayStop::TornTail { .. }
    ));
}

#[test]
fn the_journal_records_every_event_the_core_acted_on() {
    let journal;
    {
        let mut seq = Sequencer::with_sink(fresh_state(), MemorySink::new());
        for event in scenario() {
            seq.submit(&event).expect("submit");
        }
        seq.sync().expect("sync");
        journal = frames(seq.sink());
        assert_eq!(seq.applied(), scenario().len() as u64);
    }
    assert_eq!(journal.len(), scenario().len());
    for (i, frame) in journal.iter().enumerate() {
        assert_eq!(frame.seq, i as u64, "sequence numbers are dense");
    }
}

#[test]
fn a_liquidation_is_reproduced_by_replay() {
    // The path that matters most is also the one a replay must get
    // right: an account that was closed out stays closed out.
    let thin = || State::new(InstrumentId::new(1), Contract::new(10_000), table(), Cash::from_units(100));
    let live_summary: Fingerprint;
    let journal;
    {
        let mut seq =
            Sequencer::with_sink(thin(), MemorySink::new());
        seq.submit(&Event::Tick(Tick::trades_only(
            Stamp::synthetic(1),
            1_200_000,
            1_200_000,
            1_200_000,
        )))
        .expect("submit");
        seq.submit(&Event::Submit {
            id: OrderId::new(1),
            side: Side::Buy,
            price: Some(PriceTicks(1_200_000)),
            qty: QtyLots(10),
            stamp: Stamp::synthetic(1),
            offset: Offset::Open,
        })
        .expect("submit");
        seq.submit(&Event::Tick(Tick::trades_only(
            Stamp::synthetic(2),
            1_200_000,
            1_200_000,
            1_200_000,
        )))
        .expect("submit");
        // Deep enough to trigger the venue.
        let outs = seq
            .submit(&Event::Tick(Tick::trades_only(
                Stamp::synthetic(3),
                1_000_000,
                1_200_000,
                1_000_000,
            )))
            .expect("submit")
            .to_vec();
        assert!(
            outs.iter().any(|o| matches!(o, Output::Liquidated { .. })),
            "expected a liquidation, got {outs:?}"
        );
        seq.sync().expect("sync");
        live_summary = seq.kernel().fingerprint();
        journal = frames(seq.sink());
    }

    let replayed = replay(thin(), &journal, ReplayStop::End).expect("replay");
    assert!(
        replayed
            .outputs
            .iter()
            .any(|o| matches!(o, Output::Liquidated { .. })),
        "the liquidation must survive the replay"
    );
    assert_eq!(replayed.kernel.fingerprint(), live_summary);
}

/// A sink that fails on demand, so the ordering guarantee can be
/// tested instead of merely documented.
struct FailingSink {
    fail_after: usize,
    appended: usize,
}

impl EventSink for FailingSink {
    fn append(&mut self, _kind: u16, _payload: &[u8]) -> Result<u64, JournalError> {
        if self.appended >= self.fail_after {
            return Err(JournalError::Io(
                "injected append failure".to_string(),
            ));
        }
        let seq = self.appended as u64;
        self.appended += 1;
        Ok(seq)
    }
    fn flush(&mut self) -> Result<(), JournalError> {
        Ok(())
    }
    fn sync(&mut self) -> Result<(), JournalError> {
        Ok(())
    }
}

#[test]
fn a_failed_append_does_not_reach_the_kernel() {
    // The central claim of this crate, as an assertion. An
    // implementation that applied first and journalled second would
    // pass every other test in this file and fail this one.
    let mut seq = Sequencer::with_sink(
        fresh_state(),
        FailingSink {
            fail_after: 2,
            appended: 0,
        },
    );
    let events = scenario();
    seq.submit(&events[0]).expect("first append succeeds");
    seq.submit(&events[1]).expect("second append succeeds");

    let before = seq.kernel().fingerprint();
    let applied_before = seq.applied();

    let err = seq.submit(&events[2]).expect_err("third append must fail");
    assert!(matches!(err, JournalError::Io(_)));
    assert_eq!(
        seq.applied(),
        applied_before,
        "a rejected event must not count as applied"
    );
    assert_eq!(
        seq.kernel().fingerprint(),
        before,
        "a rejected event must leave no trace in state"
    );
}

#[test]
fn an_undecodable_record_is_an_error_not_a_partial_answer() {
    let journal;
    {
        let mut w = MemorySink::new();
        let ev = Event::Time(Nanos(1));
        w.append(ev.kind(), &ev.encode()).expect("append");
        // A record kind this build does not know.
        w.append(60_000, b"from a newer build").expect("append");
        w.sync().expect("sync");
        journal = frames(&w);
    }

    assert!(
        replay(fresh_state(), &journal, ReplayStop::End).is_err(),
        "recovery must refuse a reconstruction it knows is incomplete"
    );

    let tolerated =
        replay_tolerating_unknown(fresh_state(), &journal, ReplayStop::End);
    assert_eq!(tolerated.undecodable, 1);
    assert!(!tolerated.is_complete());
}

#[test]
fn replay_reproduces_generated_scenarios() {
    // Determinism as a property over many scenarios rather than one
    // hand-written sequence. A failure reproduces from its seed.
    for seed in 0..24u64 {
        let events = generated_scenario(seed, 120);
        let live_outputs;
        let live_fingerprint;
        let journal;
        {
            let mut seq =
                Sequencer::with_sink(fresh_state(), MemorySink::new());
            let mut outs = Vec::new();
            for event in &events {
                outs.extend_from_slice(seq.submit(event).expect("submit"));
            }
            seq.sync().expect("sync");
            live_outputs = outs;
            live_fingerprint = seq.kernel().fingerprint();
            journal = frames(seq.sink());
        }

        let replayed = replay(fresh_state(), &journal, ReplayStop::End).expect("replay");
        assert_eq!(
            replayed.outputs, live_outputs,
            "seed {seed}: outputs diverged on replay"
        );
        assert_eq!(
            replayed.kernel.fingerprint(),
            live_fingerprint,
            "seed {seed}: state diverged on replay"
        );
        }
}

#[test]
fn generated_scenarios_actually_exercise_the_engine() {
    // A property test over scenarios that never trade would pass
    // for the wrong reason.
    let mut fills = 0usize;
    let mut resting = 0usize;
    for seed in 0..24u64 {
        let mut seq = Sequencer::with_sink(fresh_state(), MemorySink::new());
        for event in &generated_scenario(seed, 120) {
            fills += seq
                .submit(event)
                .expect("submit")
                .iter()
                .filter(|o| matches!(o, Output::Filled(_)))
                .count();
        }
        resting += seq.kernel().fingerprint().book.len();
    }
    assert!(fills > 50, "expected fills across seeds, got {fills}");
    assert!(resting > 0, "expected orders left resting, got {resting}");
}
