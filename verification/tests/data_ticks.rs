use openquanter::data::error::Error;
use openquanter::data::ticks::{decode, encode, TickStream, HEADER_LEN};
use openquanter::engine::tick::Tick;
use openquanter::types::{PriceTicks, QtyLots, Stamp};

fn sample(n: usize) -> Vec<Tick> {
    (0..n)
        .map(|i| {
            let t = i as i64;
            Tick {
                stamp: Stamp::new(t * 1_000, t * 1_000 + 250),
                last: PriceTicks(1_000_000 + t),
                high: PriceTicks(1_000_010 + t),
                low: PriceTicks(999_990 + t),
                bid: PriceTicks(999_999 + t),
                ask: PriceTicks(1_000_001 + t),
                volume: QtyLots(t * 7),
            }
        })
        .collect()
}

#[test]
fn round_trip_preserves_every_field() {
    let ticks = sample(500);
    let bytes = encode(7, &ticks);
    let (header, decoded) = decode(&bytes).expect("decodes");
    assert_eq!(header.count, 500);
    assert_eq!(header.instrument, 7);
    assert_eq!(decoded, ticks);
}

#[test]
fn an_empty_file_round_trips() {
    let bytes = encode(1, &[]);
    let (header, decoded) = decode(&bytes).expect("decodes");
    assert_eq!(header.count, 0);
    assert!(decoded.is_empty());
}

#[test]
fn truncation_is_detected_rather_than_read_as_a_shorter_file() {
    let bytes = encode(1, &sample(10));
    for cut in 0..bytes.len() {
        assert!(
            decode(&bytes[..cut]).is_err(),
            "a {cut}-byte prefix must not decode"
        );
    }
}

#[test]
fn corrupted_prices_are_caught() {
    // The failure this checksum exists for: a corrupted price does
    // not crash a backtest, it changes the answer.
    let mut bytes = encode(1, &sample(10));
    bytes[HEADER_LEN + 20] ^= 0xFF;
    assert!(matches!(
        decode(&bytes),
        Err(Error::ChecksumMismatch { .. })
    ));
}

#[test]
fn a_foreign_file_is_refused() {
    let mut bytes = encode(1, &sample(2));
    bytes[0] = b'X';
    assert!(matches!(decode(&bytes), Err(Error::BadMagic { .. })));
}

#[test]
fn out_of_order_ticks_are_refused_with_their_index() {
    let mut ticks = sample(10);
    ticks[5].stamp = Stamp::new(0, 0);
    match TickStream::new(1, ticks) {
        Err(Error::OutOfOrder { index, .. }) => assert_eq!(index, 5),
        other => panic!("expected OutOfOrder at 5, got {other:?}"),
    }
}

#[test]
fn equal_timestamps_are_allowed() {
    // Venues do publish multiple events in the same nanosecond;
    // refusing ties would reject valid data.
    let mut ticks = sample(4);
    ticks[2].stamp = ticks[1].stamp;
    assert!(TickStream::new(1, ticks).is_ok());
}

#[test]
fn feed_latency_reports_a_real_capture() {
    let stream = TickStream::new(1, sample(100)).expect("ordered");
    let fl = stream.feed_latency_summary();
    assert!(fl.carries_latency);
    assert_eq!(fl.min, 250);
    assert_eq!(fl.max, 250);
    assert_eq!(fl.negative, 0);
}

#[test]
fn a_dataset_without_arrival_times_says_so() {
    // The check that stops someone calibrating a latency model
    // against data that cannot support one.
    let ticks: Vec<Tick> = (0..10)
        .map(|i| Tick::trades_only(Stamp::synthetic(i * 1_000), 100, 100, 100))
        .collect();
    let stream = TickStream::new(1, ticks).expect("ordered");
    assert!(!stream.feed_latency_summary().carries_latency);
}

#[test]
fn a_clock_that_ran_backwards_is_counted_not_hidden() {
    let mut ticks = sample(10);
    ticks[3].stamp = Stamp::new(3_000, 2_900);
    let stream = TickStream::new(1, ticks).expect("ordered");
    assert_eq!(stream.feed_latency_summary().negative, 1);
}

#[test]
fn stream_bytes_round_trip() {
    let stream = TickStream::new(9, sample(64)).expect("ordered");
    let restored = TickStream::from_bytes(&stream.encode()).expect("round trip");
    assert_eq!(restored, stream);
}
