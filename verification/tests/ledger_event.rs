use openquanter::engine::tick::Tick;
use openquanter::ledger::event::Event;
use openquanter::ledger::kind;
use openquanter::types::{Nanos, Offset, OrderId, PriceTicks, QtyLots, Ratio, Side, Stamp};
use openquanter::venue::depth::{DepthUpdate, Level};

fn samples() -> Vec<Event> {
    vec![
        Event::Tick(Tick::quoted(Stamp::new(10, 12), 100, 110, 90, 99, 101)),
        Event::Tick(Tick::trades_only(Stamp::new(20, 21), 100, 0, 0)),
        Event::Submit {
            id: OrderId::new(7),
            side: Side::Buy,
            price: Some(PriceTicks(950)),
            qty: QtyLots(3),
            stamp: Stamp::new(30, 31),
            offset: Offset::Open,
        },
        Event::Submit {
            id: OrderId::new(8),
            side: Side::Sell,
            price: None,
            qty: QtyLots(1),
            stamp: Stamp::new(40, 41),
            offset: Offset::Open,
        },
        Event::Cancel {
            id: OrderId::new(7),
            stamp: Stamp::new(50, 51),
        },
        Event::Funding {
            at: Nanos(60),
            rate: Ratio::from_ppm(100),
            mark: PriceTicks(1000),
        },
        Event::Time(Nanos(70)),
        Event::MarginDeposit {
            amount: -12_345,
            at: Nanos(80),
        },
        Event::Depth(Box::new(DepthUpdate {
            event_ms: 1_786_000_000_123,
            first_id: 7_000,
            final_id: 7_005,
            prev_final_id: Some(6_999),
            bids: vec![
                Level {
                    price: 6_200_010,
                    qty: 1_500,
                },
                Level {
                    price: 6_200_000,
                    qty: 2_500,
                },
            ],
            asks: vec![Level {
                price: 6_200_020,
                qty: 2_000,
            }],
        })),
    ]
}

fn depth(bids: Vec<Level>, asks: Vec<Level>) -> Event {
    Event::Depth(Box::new(DepthUpdate {
        event_ms: 1,
        first_id: 2,
        final_id: 3,
        prev_final_id: None,
        bids,
        asks,
    }))
}

fn level(price: i64, qty: i64) -> Level {
    Level { price, qty }
}

/// The two sides survive as two sides.
///
/// They are encoded as one run of levels behind two counts, so an
/// off-by-one in the split reads a bid as an ask -- which produces a
/// crossed book, prices that look plausible, and a queue measured
/// against the wrong side.
#[test]
fn the_sides_do_not_swap_across_the_round_trip() {
    let e = depth(vec![level(99, 10), level(98, 20)], vec![level(101, 30)]);
    let Event::Depth(back) = Event::decode(e.kind(), &e.encode()).expect("decodes") else {
        panic!("wrong kind");
    };
    assert_eq!(back.bids, vec![level(99, 10), level(98, 20)]);
    assert_eq!(back.asks, vec![level(101, 30)]);
}

/// An empty side is empty, not absent.
#[test]
fn a_one_sided_update_round_trips() {
    for e in [
        depth(vec![level(99, 10)], Vec::new()),
        depth(Vec::new(), vec![level(101, 10)]),
        depth(Vec::new(), Vec::new()),
    ] {
        assert_eq!(Event::decode(e.kind(), &e.encode()).expect("decodes"), e);
    }
}

/// A payload that disagrees with its own counts is refused.
///
/// This kind is the only one whose length is declared rather than
/// fixed, so the rule every other kind states against a constant --
/// a truncated record must not read as a valid shorter one -- has to
/// be stated against the declaration instead. Reading it anyway
/// would put a queue behind levels that were never there.
#[test]
fn a_payload_disagreeing_with_its_counts_is_refused() {
    let e = depth(vec![level(99, 10), level(98, 20)], vec![level(101, 30)]);
    let full = e.encode();

    for cut in 1..=(3 * 16) {
        let short = &full[..full.len() - cut];
        assert!(
            Event::decode(kind::DEPTH, short).is_none(),
            "a payload {cut} bytes short must not decode"
        );
    }

    let mut long = full.clone();
    long.push(0);
    assert!(Event::decode(kind::DEPTH, &long).is_none());

    // A count claiming more levels than the bytes hold. The 16 MiB
    // frame cap is the only thing between this and an allocation the
    // checksum has not yet had a chance to reject.
    let mut lying = full;
    lying[33..37].copy_from_slice(&u32::MAX.to_le_bytes());
    assert!(Event::decode(kind::DEPTH, &lying).is_none());
}

/// The presence byte for `prev_final_id` takes two values.
///
/// A third is a record this build cannot read. Falling back to
/// `None` would turn an unreadable record into a snapshot boundary,
/// and the book would accept the next update as a fresh start.
#[test]
fn an_unknown_presence_byte_is_refused() {
    let e = depth(vec![level(99, 10)], Vec::new());
    let mut bytes = e.encode();
    bytes[32] = 2;
    assert!(Event::decode(kind::DEPTH, &bytes).is_none());
}

#[test]
fn every_event_round_trips() {
    for e in samples() {
        let decoded = Event::decode(e.kind(), &e.encode()).expect("decodes");
        assert_eq!(decoded, e, "round trip failed for {e:?}");
    }
}

#[test]
fn a_market_order_stays_distinct_from_a_zero_price_limit() {
    let market = Event::Submit {
        id: OrderId::new(1),
        side: Side::Buy,
        price: None,
        qty: QtyLots(1),
        stamp: Stamp::synthetic(0),
        offset: Offset::Open,
    };
    let zero_limit = Event::Submit {
        id: OrderId::new(1),
        side: Side::Buy,
        price: Some(PriceTicks(0)),
        qty: QtyLots(1),
        stamp: Stamp::synthetic(0),
        offset: Offset::Open,
    };
    assert_ne!(market.encode(), zero_limit.encode());
    assert_eq!(
        Event::decode(market.kind(), &market.encode()).expect("decodes"),
        market
    );
}

#[test]
fn an_unknown_kind_is_refused_rather_than_guessed() {
    assert!(Event::decode(9_999, &[0u8; 8]).is_none());
}

/// A journal written before orders stated open or close must still
/// replay, and replay as what it meant: everything was an open.
#[test]
fn a_legacy_submit_decodes_as_an_open() {
    let modern = Event::Submit {
        id: OrderId::new(9),
        side: Side::Buy,
        price: Some(PriceTicks(1_234_500)),
        qty: QtyLots(7),
        offset: Offset::Open,
        stamp: Stamp::new(11, 12),
    };
    let bytes = modern.encode();
    assert_eq!(bytes.len(), 43);
    let legacy = &bytes[..42];

    let decoded = Event::decode(kind::SUBMIT_LEGACY, legacy).expect("legacy decodes");
    assert_eq!(decoded, modern);
}

#[test]
fn a_legacy_length_under_the_modern_kind_is_refused() {
    let bytes = Event::Submit {
        id: OrderId::new(9),
        side: Side::Buy,
        price: Some(PriceTicks(1_234_500)),
        qty: QtyLots(7),
        offset: Offset::Close,
        stamp: Stamp::new(11, 12),
    }
    .encode();
    assert!(Event::decode(kind::SUBMIT, &bytes[..42]).is_none());
}

#[test]
fn a_close_survives_the_round_trip() {
    let e = Event::Submit {
        id: OrderId::new(3),
        side: Side::Sell,
        price: None,
        qty: QtyLots(2),
        offset: Offset::Close,
        stamp: Stamp::new(1, 2),
    };
    assert_eq!(Event::decode(e.kind(), &e.encode()), Some(e));
}

#[test]
fn a_wrong_length_payload_is_refused() {
    // What an older build must do with a record a newer build wrote.
    for e in samples() {
        let mut bytes = e.encode();
        bytes.push(0);
        assert!(
            Event::decode(e.kind(), &bytes).is_none(),
            "over-long payload accepted for {e:?}"
        );
        let short = &e.encode()[..e.encode().len().saturating_sub(1)];
        assert!(
            Event::decode(e.kind(), short).is_none(),
            "truncated payload accepted for {e:?}"
        );
    }
}

#[test]
fn kinds_are_distinct() {
    let mut kinds: Vec<u16> = samples().iter().map(Event::kind).collect();
    kinds.sort_unstable();
    let before = kinds.len();
    kinds.dedup();
    // Two Tick samples and two Submit samples share kinds by design.
    assert_eq!(before - kinds.len(), 2);
}
