use openquanter::data::asof::{AsOf, Series, Timed};
use openquanter::data::audit::{audit, traded_prices};
use openquanter::data::bitemporal::{Bitemporal, Version};
use openquanter::data::checksum::{crc32, Accumulator};
use openquanter::data::error::Error;
use openquanter::data::ticks::{decode, encode, HEADER_LEN};
use openquanter::engine::tick::Tick;
use openquanter::types::{Nanos, PriceTicks, QtyLots, Stamp};

#[test]
fn the_checksum_has_its_published_value() {
    assert_eq!(crc32(b"123456789"), 0xCBF4_3926);
    assert_eq!(crc32(b""), 0);
}

#[test]
fn a_checksum_of_parts_is_the_checksum_of_the_whole() {
    let whole = b"a tick file is read a block at a time";
    for cut in 0..whole.len() {
        let mut acc = Accumulator::new();
        acc.update(&whole[..cut]);
        acc.update(&whole[cut..]);
        assert_eq!(acc.value(), crc32(whole));
        assert_eq!(acc.finish(), crc32(whole));
    }
}

#[test]
fn any_one_damaged_byte_is_caught() {
    let ticks: Vec<Tick> = (0..3)
        .map(|i| Tick::trades_only(Stamp::synthetic(i), 100 + i, 110, 90))
        .collect();
    let whole = encode(5, &ticks);
    for at in HEADER_LEN..whole.len() {
        let mut bytes = whole.clone();
        bytes[at] ^= 0x10;
        assert!(matches!(decode(&bytes), Err(Error::ChecksumMismatch { .. })));
    }
}

#[test]
fn a_file_of_another_version_is_refused_by_number() {
    let mut bytes = encode(1, &[]);
    bytes[4] = 9;
    assert_eq!(decode(&bytes), Err(Error::UnknownVersion { found: 9 }));
}

#[test]
fn every_error_has_its_words() {
    let cases = [
        (
            Error::Truncated {
                needed: 32,
                available: 7,
            },
            "truncated: needed 32 bytes, 7 available",
        ),
        (
            Error::BadMagic { found: 0xAB },
            "not a tick file: magic 0x000000ab",
        ),
        (
            Error::UnknownVersion { found: 3 },
            "unknown tick file version 3",
        ),
        (
            Error::ChecksumMismatch {
                expected: 1,
                computed: 0xFFFF_FFFF,
            },
            "checksum mismatch: expected 0x00000001, computed 0xffffffff",
        ),
        (
            Error::OutOfOrder {
                index: 4,
                previous: 10,
                found: -2,
            },
            "tick 4 goes backwards: previous exchange time 10, found -2",
        ),
    ];
    for (e, words) in cases {
        assert_eq!(e.to_text(), words);
    }
}

#[test]
fn an_audit_counts_each_kind_of_trouble() {
    let mut ticks = vec![
        Tick::quoted(Stamp::synthetic(10), 100, 100, 100, 99, 101).with_volume(5),
        Tick::quoted(Stamp::synthetic(10), 0, 0, 0, 101, 101).with_volume(9),
        Tick::trades_only(Stamp::synthetic(8), 102, 102, 102).with_volume(3),
    ];
    let found = audit(4, &ticks);
    assert_eq!((found.records, found.claimed), (3, 4));
    assert_eq!((found.quoted, found.traded), (2, 2));
    assert_eq!((found.backwards, found.repeated), (1, 1));
    assert_eq!((found.volume_drops, found.crossed), (1, 1));
    assert_eq!(
        found.problems(),
        vec![
            "1 ticks arrive before the one before them",
            "1 volume decreases in a cumulative series",
            "1 ticks where the bid is at or above the ask",
            "the header's count disagrees with the records",
        ]
    );
    assert_eq!(traded_prices(&ticks), vec![100, 102]);
    ticks.truncate(1);
    assert!(audit(1, &ticks).problems().is_empty());
}

#[test]
fn what_arrives_later_changes_no_earlier_answer() {
    let early = Series::by_arrival(vec![Timed::local(Nanos(10), 1), Timed::local(Nanos(20), 2)]);
    let late = Series::by_arrival(vec![
        Timed::local(Nanos(10), 1),
        Timed::local(Nanos(20), 2),
        Timed::local(Nanos(30), 3),
    ]);
    for q in 0..=30 {
        assert_eq!(
            early.as_of(Nanos(q), AsOf::Strict).map(|r| r.value),
            late.as_of(Nanos(q), AsOf::Strict).map(|r| r.value)
        );
    }
    assert_eq!(late.as_of(Nanos(31), AsOf::Strict).map(|r| r.value), Some(3));
}

#[test]
fn a_correction_is_listed_with_what_it_corrects() {
    let mut b = Bitemporal::new(vec![
        Version::new(Nanos(10), Nanos(10), 'a'),
        Version::new(Nanos(10), Nanos(50), 'b'),
    ]);
    assert_eq!(b.len(), 2);
    assert_eq!(b.as_believed_at(Nanos(20), Nanos(49)), Some(&'a'));
    assert_eq!(b.as_believed_at(Nanos(20), Nanos(50)), Some(&'b'));
    assert_eq!(b.revisions(), vec![(Nanos(10), Nanos(10)), (Nanos(10), Nanos(50))]);
    b.insert(Version::new(Nanos(15), Nanos(60), 'c'));
    assert_eq!(b.as_believed_at(Nanos(20), Nanos(59)), Some(&'b'));
    assert_eq!(b.as_believed_at(Nanos(20), Nanos(60)), Some(&'c'));
}

#[test]
fn the_numbers_of_a_tick_stand_in_their_own_places() {
    let t = Tick {
        stamp: Stamp::new(1, 2),
        last: PriceTicks(3),
        high: PriceTicks(4),
        low: PriceTicks(5),
        bid: PriceTicks(6),
        ask: PriceTicks(7),
        volume: QtyLots(8),
    };
    let bytes = encode(9, &[t]);
    for (i, x) in (1..=8i64).enumerate() {
        let at = HEADER_LEN + 8 * i;
        assert_eq!(bytes[at..at + 8], x.to_le_bytes());
    }
}
