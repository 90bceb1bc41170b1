use openquanter::data::error::Error;
use openquanter::data::reader::{Blocks, TickReader, Turn};
use openquanter::data::ticks::{decode, encode, read_header, Header, HEADER_LEN, RECORD_LEN};
use openquanter::engine::tick::Tick;
use openquanter::types::{PriceTicks, QtyLots, Stamp};

/// The block at `from`, unless the file ends before it does.
fn block(file: &[u8], from: usize, len: usize) -> Option<&[u8]> {
    file.get(from..from + len)
}

/// Read a file block by block, without holding all of it.
fn read_file(file: &[u8]) -> Result<(Header, Vec<Tick>), Error> {
    let header = read_header(&file[..HEADER_LEN])?;
    let mut blocks = Blocks::open(header);
    let mut ticks = Vec::new();
    let mut at = HEADER_LEN;
    while blocks.remaining() > 0 {
        let len = blocks.wanted();
        blocks.take(block(file, at, len), &mut ticks)?;
        at += len;
    }
    blocks.verified()?;
    Ok((header, ticks))
}

/// Read a file a tick at a time.
fn stream(file: &[u8]) -> Vec<Result<Tick, Error>> {
    let mut reader = TickReader::open(&file[..HEADER_LEN]).expect("open");
    let mut at = HEADER_LEN;
    let mut out = Vec::new();
    loop {
        match reader.next() {
            Turn::Need(len) => {
                if let Err(e) = reader.fill(block(file, at, len)) {
                    out.push(Err(e));
                }
                at += len;
            }
            Turn::Tick(t) => out.push(Ok(t)),
            Turn::Failed(e) => out.push(Err(e)),
            Turn::Done => return out,
        }
    }
}

fn sample(n: usize) -> Vec<Tick> {
    (0..n)
        .map(|i| {
            let t = i as i64;
            Tick::quoted(
                Stamp::new(t * 1_000, t * 1_000 + 7),
                1_000 + t,
                1_010,
                990,
                999,
                1_001,
            )
            .with_volume(t * 3)
        })
        .collect()
}

#[test]
fn streaming_and_whole_file_decoding_agree() {
    // Sizes chosen to straddle the block boundary in both
    // directions, because that seam is where a streaming decoder
    // and a streaming checksum break.
    for n in [0usize, 1, 8_191, 8_192, 8_193, 20_000] {
        let ticks = sample(n);
        let file = encode(3, &ticks);

        let (h_stream, t_stream) = read_file(&file).expect("stream");
        let (h_whole, t_whole) = decode(&file).expect("whole");

        assert_eq!(h_stream, h_whole, "headers differ at n={n}");
        assert_eq!(t_stream, t_whole, "ticks differ at n={n}");
        assert_eq!(t_stream, ticks, "round trip differs at n={n}");
    }
}

#[test]
fn a_corrupted_record_is_caught_while_streaming() {
    let mut bytes = encode(1, &sample(10_000));
    // Past the first block, so the corruption is only reachable
    // after several updates to the streaming checksum.
    let at = HEADER_LEN + 9_000 * RECORD_LEN + 3;
    bytes[at] ^= 0xFF;
    assert!(matches!(
        read_file(&bytes),
        Err(Error::ChecksumMismatch { .. })
    ));
}

#[test]
fn a_truncated_file_is_reported_as_truncated() {
    let bytes = encode(1, &sample(1_000));
    assert!(matches!(
        read_file(&bytes[..bytes.len() - 100]),
        Err(Error::Truncated { .. })
    ));
}

fn series(n: usize) -> Vec<Tick> {
    (0..n)
        .map(|i| {
            let i = i as i64;
            Tick {
                stamp: Stamp::new(1_700_000_000_000_000_000 + i * 250_000_000, 0),
                last: PriceTicks(5_000_000 + i),
                high: PriceTicks(5_000_100 + i),
                low: PriceTicks(4_999_900 + i),
                bid: PriceTicks(0),
                ask: PriceTicks(0),
                volume: QtyLots(i * 3),
            }
        })
        .collect()
}

/// The streaming reader must be a drop-in for the whole-file read.
/// Anything else and a run's result depends on which one it used,
/// which is not a choice a caller should have to reason about.
#[test]
fn streaming_yields_exactly_what_reading_the_whole_file_yields() {
    // Spans several blocks, and deliberately not a multiple of one:
    // an off-by-one at a block boundary is the failure this catches.
    for n in [0usize, 1, 8191, 8192, 8193, 20_000] {
        let ticks = series(n);
        let file = encode(7, &ticks);

        let (header, whole) = read_file(&file).expect("whole");
        let streamed: Vec<Tick> = stream(&file)
            .into_iter()
            .map(|t| t.expect("tick"))
            .collect();

        assert_eq!(streamed, whole, "n = {n}");
        assert_eq!(streamed.len(), header.count as usize, "n = {n}");
    }
}

#[test]
fn the_header_is_available_before_any_tick_is_read() {
    let ticks = series(100);
    let file = encode(7, &ticks);
    let reader = TickReader::open(&file[..HEADER_LEN]).expect("open");
    assert_eq!(reader.len(), 100);
    assert_eq!(reader.header().instrument, 7);
}

/// Corruption must still be caught. It is reported at the end rather
/// than up front — that is the price of not reading the file twice —
/// but a stream that dropped the check would let a damaged baseline
/// through silently, which is worse than either.
#[test]
fn a_corrupt_record_is_still_reported() {
    let ticks = series(9000);
    let mut bytes = encode(7, &ticks);
    let victim = HEADER_LEN + 5000 * RECORD_LEN + 16;
    bytes[victim] ^= 0xff;
    let outcome: Result<Vec<Tick>, Error> = stream(&bytes).into_iter().collect();
    assert!(
        matches!(outcome, Err(Error::ChecksumMismatch { .. })),
        "expected a checksum failure, got {outcome:?}"
    );
}

/// The ordering guarantee is what makes an as-of search over a file
/// valid, so streaming has to carry it too.
#[test]
fn a_backwards_timestamp_is_reported_with_its_position() {
    let mut ticks = series(9000);
    ticks[6000].stamp = Stamp::new(1, 0);
    let file = encode(7, &ticks);

    let err = stream(&file)
        .into_iter()
        .find_map(Result::err)
        .expect("an error");
    match err {
        Error::OutOfOrder { index, .. } => assert_eq!(index, 6000),
        other => panic!("expected OutOfOrder, got {other:?}"),
    }
}

#[test]
fn a_truncated_file_is_truncated_and_not_a_shorter_run() {
    let ticks = series(9000);
    let bytes = encode(7, &ticks);
    let outcome: Result<Vec<Tick>, Error> = stream(&bytes[..bytes.len() - RECORD_LEN * 10])
        .into_iter()
        .collect();
    assert!(
        matches!(outcome, Err(Error::Truncated { .. })),
        "expected truncation, got {outcome:?}"
    );
}
