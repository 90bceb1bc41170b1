//! Getting ticks into the engine.
//!
//! The format is fixed-width and little-endian: a record is eight integers at
//! known offsets. Both timestamps travel with every record.
//!
//! ```text
//! offset size field
//!      0    4 magic 'O','Q','T','K'
//!      4    2 version
//!      6    2 reserved
//!      8    8 record count
//!     16    8 instrument id
//!     24    4 crc32 of the record region
//!     28    4 reserved
//! ```
//!
//! A record is eight little-endian `i64`s: exchange time, arrival time, last,
//! high, low, bid, ask, volume. The count and the checksum are in the header,
//! so a truncated file is detected as truncated rather than read as a shorter
//! one.
use crate::bytes::{
    get_i64, get_le, i64_bytes, i64_value, le_bytes, le_value, lemma_le_value_bound, lemma_pow256,
    put_i64, put_le, put_u64,
};
use crate::data::checksum::{checksum, crc32};
use crate::data::error::Error;
use crate::engine::tick::Tick;
use crate::types::{clamp_i64, quotient, sat_sub, truncated_div, Nanos, PriceTicks, QtyLots, Stamp};
use vstd::prelude::*;
use vstd::slice::slice_subrange;

verus! {

/// `OQTK`, little-endian.
pub const MAGIC: u32 = 0x4B54_514F;

/// Bytes of file header.
pub const HEADER_LEN: usize = 32;

/// Bytes per record.
pub const RECORD_LEN: usize = 64;

/// The format version this build writes.
pub const VERSION: u16 = 2;

/// Whole records per block of a file read in blocks.
pub const BLOCK: usize = 8192;

/// A tick file header.
#[derive(Clone, Copy, Debug, PartialEq, Eq, Structural)]
pub struct Header {
    pub count: u64,
    pub instrument: u64,
    pub checksum: u32,
}

/// A record's bytes.
pub open spec fn record_bytes(t: Tick) -> Seq<u8> {
    i64_bytes(t.stamp.exch.0) + i64_bytes(t.stamp.local.0) + i64_bytes(t.last.0) + i64_bytes(
        t.high.0,
    ) + i64_bytes(t.low.0) + i64_bytes(t.bid.0) + i64_bytes(t.ask.0) + i64_bytes(t.volume.0)
}

/// The `i`-th integer of a record.
pub open spec fn field(record: Seq<u8>, i: int) -> i64 {
    i64_value(record.subrange(8 * i, 8 * i + 8))
}

/// The tick a record holds.
pub open spec fn record_tick(record: Seq<u8>) -> Tick {
    Tick {
        stamp: Stamp { exch: Nanos(field(record, 0)), local: Nanos(field(record, 1)) },
        last: PriceTicks(field(record, 2)),
        high: PriceTicks(field(record, 3)),
        low: PriceTicks(field(record, 4)),
        bid: PriceTicks(field(record, 5)),
        ask: PriceTicks(field(record, 6)),
        volume: QtyLots(field(record, 7)),
    }
}

/// The record region of a file.
pub open spec fn body_of(ticks: Seq<Tick>) -> Seq<u8>
    decreases ticks.len(),
{
    if ticks.len() == 0 {
        Seq::empty()
    } else {
        body_of(ticks.drop_last()) + record_bytes(ticks.last())
    }
}

/// The ticks of a record region.
pub open spec fn ticks_of(body: Seq<u8>) -> Seq<Tick> {
    Seq::new(
        body.len() / 64,
        |i: int| record_tick(body.subrange(64 * i, 64 * i + 64)),
    )
}

/// A file's header.
pub open spec fn header_bytes(count: u64, instrument: u64, sum: u32) -> Seq<u8> {
    le_bytes(MAGIC as nat, 4) + le_bytes(VERSION as nat, 2) + le_bytes(0, 2) + le_bytes(
        count as nat,
        8,
    ) + le_bytes(instrument as nat, 8) + le_bytes(sum as nat, 4) + le_bytes(0, 4)
}

/// A tick file.
pub open spec fn file_of(instrument: u64, ticks: Seq<Tick>) -> Seq<u8> {
    header_bytes(ticks.len() as u64, instrument, checksum(body_of(ticks))) + body_of(ticks)
}

/// What a header says, or why it is not one.
pub open spec fn header_read(bytes: Seq<u8>) -> Result<Header, Error> {
    let magic = le_value(bytes.subrange(0, 4));
    let version = le_value(bytes.subrange(4, 6));
    if bytes.len() < 32 {
        Err(Error::Truncated { needed: HEADER_LEN, available: bytes.len() as usize })
    } else if magic != MAGIC {
        Err(Error::BadMagic { found: magic as u32 })
    } else if version != VERSION {
        Err(Error::UnknownVersion { found: version as u16 })
    } else {
        Ok(
            Header {
                count: le_value(bytes.subrange(8, 16)) as u64,
                instrument: le_value(bytes.subrange(16, 24)) as u64,
                checksum: le_value(bytes.subrange(24, 28)) as u32,
            },
        )
    }
}

/// The length a file of `count` records has, as far as it can be said.
pub open spec fn full_length(count: u64) -> usize {
    if 32 + count * 64 > usize::MAX {
        usize::MAX
    } else {
        (32 + count * 64) as usize
    }
}

/// What a file holds, or why it cannot be read.
pub open spec fn file_read(bytes: Seq<u8>) -> Result<(Header, Seq<Tick>), Error> {
    match header_read(bytes) {
        Err(e) => Err(e),
        Ok(header) => {
            let end = 32 + header.count * 64;
            let body = bytes.subrange(32, end);
            if bytes.len() < end {
                Err(
                    Error::Truncated {
                        needed: full_length(header.count),
                        available: bytes.len() as usize,
                    },
                )
            } else if checksum(body) != header.checksum {
                Err(
                    Error::ChecksumMismatch {
                        expected: header.checksum,
                        computed: checksum(body),
                    },
                )
            } else {
                Ok((header, ticks_of(body)))
            }
        },
    }
}

fn put_record(out: &mut Vec<u8>, t: &Tick)
    ensures
        final(out)@ == old(out)@ + record_bytes(*t),
{
    let ghost start = out@;
    put_i64(out, t.stamp.exch.0);
    put_i64(out, t.stamp.local.0);
    put_i64(out, t.last.0);
    put_i64(out, t.high.0);
    put_i64(out, t.low.0);
    put_i64(out, t.bid.0);
    put_i64(out, t.ask.0);
    put_i64(out, t.volume.0);
    assert(out@ =~= start + record_bytes(*t));
}

/// Encode ticks into the tick-file format.
pub fn encode(instrument: u64, ticks: &[Tick]) -> (r: Vec<u8>)
    ensures
        r@ == file_of(instrument, ticks@),
{
    let mut body: Vec<u8> = Vec::new();
    let mut i: usize = 0;
    assert(ticks@.subrange(0, 0) =~= Seq::<Tick>::empty());
    while i < ticks.len()
        invariant
            i <= ticks@.len(),
            body@ == body_of(ticks@.subrange(0, i as int)),
        decreases ticks@.len() - i,
    {
        proof {
            let now = ticks@.subrange(0, i + 1);
            assert(now.drop_last() =~= ticks@.subrange(0, i as int));
            assert(now.last() == ticks@[i as int]);
        }
        put_record(&mut body, &ticks[i]);
        i += 1;
    }
    assert(ticks@.subrange(0, i as int) =~= ticks@);
    let sum: u32 = crc32(body.as_slice());
    let mut out: Vec<u8> = Vec::new();
    put_le(&mut out, MAGIC as u64, 4);
    put_le(&mut out, VERSION as u64, 2);
    put_le(&mut out, 0, 2);
    put_u64(&mut out, ticks.len() as u64);
    put_u64(&mut out, instrument);
    put_le(&mut out, sum as u64, 4);
    put_le(&mut out, 0, 4);
    assert(out@ =~= header_bytes(ticks@.len() as u64, instrument, sum));
    out.append(&mut body);
    out
}

/// Read the header without decoding records.
pub fn read_header(bytes: &[u8]) -> (r: Result<Header, Error>)
    ensures
        r == header_read(bytes@),
{
    if bytes.len() < HEADER_LEN {
        return Err(Error::Truncated { needed: HEADER_LEN, available: bytes.len() });
    }
    proof {
        lemma_pow256();
        lemma_le_value_bound(bytes@.subrange(0, 4));
        lemma_le_value_bound(bytes@.subrange(4, 6));
        lemma_le_value_bound(bytes@.subrange(24, 28));
    }
    let magic: u64 = get_le(bytes, 0, 4);
    if magic != MAGIC as u64 {
        return Err(Error::BadMagic { found: magic as u32 });
    }
    let version: u64 = get_le(bytes, 4, 2);
    if version != VERSION as u64 {
        return Err(Error::UnknownVersion { found: version as u16 });
    }
    Ok(
        Header {
            count: get_le(bytes, 8, 8),
            instrument: get_le(bytes, 16, 8),
            checksum: get_le(bytes, 24, 4) as u32,
        },
    )
}

/// The record at an offset.
fn read_record(bytes: &[u8], at: usize) -> (r: Tick)
    requires
        at + 64 <= bytes@.len(),
    ensures
        r == record_tick(bytes@.subrange(at as int, at + 64)),
{
    let total: usize = bytes.len();
    proof {
        let record = bytes@.subrange(at as int, at + 64);
        assert forall|i: int| 0 <= i < 8 implies #[trigger] record.subrange(8 * i, 8 * i + 8)
            == bytes@.subrange(at + 8 * i, at + 8 * i + 8) by {
            assert(record.subrange(8 * i, 8 * i + 8) =~= bytes@.subrange(
                at + 8 * i,
                at + 8 * i + 8,
            ));
        }
        assert(at + 64 <= total);
    }
    Tick {
        stamp: Stamp::new(get_i64(bytes, at), get_i64(bytes, at + 8)),
        last: PriceTicks(get_i64(bytes, at + 16)),
        high: PriceTicks(get_i64(bytes, at + 24)),
        low: PriceTicks(get_i64(bytes, at + 32)),
        bid: PriceTicks(get_i64(bytes, at + 40)),
        ask: PriceTicks(get_i64(bytes, at + 48)),
        volume: QtyLots(get_i64(bytes, at + 56)),
    }
}

/// Decode the whole records of a block, adding them to a list.
pub fn read_records(block: &[u8], out: &mut Vec<Tick>)
    ensures
        final(out)@ == old(out)@ + ticks_of(block@),
{
    let ghost start = out@;
    let total: usize = block.len();
    let n: usize = total / 64;
    let mut i: usize = 0;
    assert(ticks_of(block@).subrange(0, 0) =~= Seq::<Tick>::empty());
    while i < n
        invariant
            i <= n,
            total == block@.len(),
            n == total / 64,
            out@ == start + ticks_of(block@).subrange(0, i as int),
        decreases n - i,
    {
        assert(i * 64 + 64 <= total) by (nonlinear_arith)
            requires
                i < n,
                n == total / 64,
        ;
        assert(0 <= i * 64) by (nonlinear_arith);
        out.push(read_record(block, i * 64));
        i += 1;
        assert(out@ =~= start + ticks_of(block@).subrange(0, i as int));
    }
    assert(out@ =~= start + ticks_of(block@));
}

/// Decode a tick file. The checksum is verified before anything is returned.
pub fn decode(bytes: &[u8]) -> (r: Result<(Header, Vec<Tick>), Error>)
    ensures
        match r {
            Ok((header, ticks)) => file_read(bytes@) == Ok::<(Header, Seq<Tick>), Error>(
                (header, ticks@),
            ),
            Err(e) => file_read(bytes@) == Err::<(Header, Seq<Tick>), Error>(e),
        },
{
    let total: usize = bytes.len();
    match read_header(bytes) {
        Err(e) => Err(e),
        Ok(header) => {
            let end: u128 = 32 + header.count as u128 * 64;
            if (total as u128) < end {
                return Err(
                    Error::Truncated { needed: whole_length(header.count), available: total },
                );
            }
            let body = slice_subrange(bytes, HEADER_LEN, end as usize);
            let computed: u32 = crc32(body);
            if computed != header.checksum {
                return Err(Error::ChecksumMismatch { expected: header.checksum, computed });
            }
            let mut ticks: Vec<Tick> = Vec::new();
            read_records(body, &mut ticks);
            assert(ticks@ =~= ticks_of(body@));
            Ok((header, ticks))
        },
    }
}

/// The length a file of `count` records has, as far as it can be said.
pub fn whole_length(count: u64) -> (r: usize)
    ensures
        r == full_length(count),
{
    let end: u128 = 32 + count as u128 * 64;
    if end > usize::MAX as u128 {
        usize::MAX
    } else {
        end as usize
    }
}

/// Whether ticks never go backwards in exchange time.
pub open spec fn in_time_order(ticks: Seq<Tick>) -> bool {
    forall|i: int|
        0 <= i && i + 1 < ticks.len() ==> (#[trigger] ticks[i]).stamp.exch.0 <= ticks[i
            + 1].stamp.exch.0
}

/// Whether `i` is the first tick that goes backwards.
pub open spec fn first_backwards(ticks: Seq<Tick>, i: int) -> bool {
    &&& 0 < i < ticks.len()
    &&& in_time_order(ticks.subrange(0, i))
    &&& ticks[i].stamp.exch.0 < ticks[i - 1].stamp.exch.0
}

/// A tick stream with the checks a replay depends on. Ordering is verified
/// rather than assumed.
#[derive(Debug, PartialEq, Eq)]
pub struct TickStream {
    ticks: Vec<Tick>,
    instrument: u64,
}

/// What a stream holds.
#[verifier::ext_equal]
pub struct StreamView {
    pub ticks: Seq<Tick>,
    pub instrument: u64,
}

impl View for TickStream {
    type V = StreamView;

    closed spec fn view(&self) -> StreamView {
        StreamView { ticks: self.ticks@, instrument: self.instrument }
    }
}

/// Feed latency of a tick: how long after the venue's time it arrived.
pub open spec fn latency(t: Tick) -> i64 {
    clamp_i64(t.stamp.local.0 - t.stamp.exch.0)
}

/// The sum of latencies.
pub open spec fn latency_sum(ticks: Seq<Tick>) -> int
    decreases ticks.len(),
{
    if ticks.len() == 0 {
        0
    } else {
        latency_sum(ticks.drop_last()) + latency(ticks.last())
    }
}

/// How many ticks arrived before the venue's own time.
pub open spec fn early(ticks: Seq<Tick>) -> nat
    decreases ticks.len(),
{
    if ticks.len() == 0 {
        0
    } else {
        early(ticks.drop_last()) + if latency(ticks.last()) < 0 {
            1nat
        } else {
            0
        }
    }
}

/// What a dataset's timestamps say about its capture.
#[derive(Clone, Copy, Debug, PartialEq, Eq, Structural)]
pub struct FeedLatency {
    pub min: i64,
    pub max: i64,
    pub mean: i64,
    /// Records whose arrival precedes their exchange timestamp.
    pub negative: usize,
    /// Whether arrival and exchange timestamps ever differ.
    pub carries_latency: bool,
}

impl Default for FeedLatency {
    fn default() -> (r: Self)
        ensures
            r == (FeedLatency { min: 0, max: 0, mean: 0, negative: 0, carries_latency: false }),
    {
        FeedLatency { min: 0, max: 0, mean: 0, negative: 0, carries_latency: false }
    }
}

impl FeedLatency {
    /// Whether this describes a dataset.
    pub open spec fn describes(self, ticks: Seq<Tick>) -> bool {
        if ticks.len() == 0 {
            self == (FeedLatency { min: 0, max: 0, mean: 0, negative: 0, carries_latency: false })
        } else {
            &&& forall|i: int|
                0 <= i < ticks.len() ==> self.min <= latency(#[trigger] ticks[i]) <= self.max
            &&& exists|i: int| 0 <= i < ticks.len() && latency(#[trigger] ticks[i]) == self.min
            &&& exists|i: int| 0 <= i < ticks.len() && latency(#[trigger] ticks[i]) == self.max
            &&& self.mean == quotient(latency_sum(ticks), ticks.len() as int)
            &&& self.negative == early(ticks)
            &&& self.carries_latency == (self.min != 0 || self.max != 0)
        }
    }
}

/// Whether `r` is what wrapping ticks comes to: a stream of them, or the first
/// one that goes backwards.
pub open spec fn streams(r: Result<TickStream, Error>, instrument: u64, ticks: Seq<Tick>) -> bool {
    match r {
        Ok(s) => in_time_order(ticks) && s@ == (StreamView { ticks, instrument }),
        Err(e) => exists|i: int| #[trigger]
            first_backwards(ticks, i) && e == (Error::OutOfOrder {
                index: i as usize,
                previous: ticks[i - 1].stamp.exch.0,
                found: ticks[i].stamp.exch.0,
            }),
    }
}

impl Clone for TickStream {
    fn clone(&self) -> (r: Self)
        ensures
            r@ == self@,
    {
        proof {
            use_type_invariant(self);
        }
        let mut ticks: Vec<Tick> = Vec::new();
        let mut i: usize = 0;
        while i < self.ticks.len()
            invariant
                i <= self.ticks@.len(),
                ticks@ == self.ticks@.subrange(0, i as int),
            decreases self.ticks@.len() - i,
        {
            ticks.push(self.ticks[i]);
            i += 1;
            assert(ticks@ =~= self.ticks@.subrange(0, i as int));
        }
        assert(ticks@ =~= self.ticks@);
        TickStream { ticks, instrument: self.instrument }
    }
}

impl TickStream {
    /// A stream never goes backwards.
    #[verifier::type_invariant]
    pub closed spec fn in_order(self) -> bool {
        in_time_order(self.ticks@)
    }

    pub(crate) proof fn lemma_in_order(self)
        requires
            self.in_order(),
        ensures
            in_time_order(self@.ticks),
    {
    }

    /// Wrap ticks, verifying that they never go backwards in exchange time.
    pub fn new(instrument: u64, ticks: Vec<Tick>) -> (r: Result<Self, Error>)
        ensures
            streams(r, instrument, ticks@),
    {
        let n: usize = ticks.len();
        let mut i: usize = 1;
        while i < n
            invariant
                1 <= i,
                n == ticks@.len(),
                forall|k: int|
                    0 <= k && k + 1 < i && k + 1 < n ==> (#[trigger] ticks@[k]).stamp.exch.0
                        <= ticks@[k + 1].stamp.exch.0,
            decreases n - i,
        {
            if ticks[i].stamp.exch.0 < ticks[i - 1].stamp.exch.0 {
                proof {
                    let head = ticks@.subrange(0, i as int);
                    assert forall|k: int| 0 <= k && k + 1 < head.len() implies (
                    #[trigger] head[k]).stamp.exch.0 <= head[k + 1].stamp.exch.0 by {
                        assert(ticks@[k].stamp.exch.0 <= ticks@[k + 1].stamp.exch.0);
                    }
                    assert(first_backwards(ticks@, i as int));
                }
                return Err(
                    Error::OutOfOrder {
                        index: i,
                        previous: ticks[i - 1].stamp.exch.0,
                        found: ticks[i].stamp.exch.0,
                    },
                );
            }
            i += 1;
        }
        Ok(TickStream { ticks, instrument })
    }

    /// Load from encoded bytes.
    pub fn from_bytes(bytes: &[u8]) -> (r: Result<Self, Error>)
        ensures
            match file_read(bytes@) {
                Err(e) => r == Err::<TickStream, Error>(e),
                Ok((header, ticks)) => streams(r, header.instrument, ticks),
            },
    {
        match decode(bytes) {
            Err(e) => Err(e),
            Ok((header, ticks)) => TickStream::new(header.instrument, ticks),
        }
    }

    pub fn ticks(&self) -> (r: &Vec<Tick>)
        ensures
            r@ == self@.ticks,
    {
        &self.ticks
    }

    pub fn instrument(&self) -> (r: u64)
        ensures
            r == self@.instrument,
    {
        self.instrument
    }

    pub fn len(&self) -> (r: usize)
        ensures
            r == self@.ticks.len(),
    {
        self.ticks.len()
    }

    pub fn is_empty(&self) -> (r: bool)
        ensures
            r == (self@.ticks.len() == 0),
    {
        self.ticks.len() == 0
    }

    pub fn encode(&self) -> (r: Vec<u8>)
        ensures
            r@ == file_of(self@.instrument, self@.ticks),
    {
        encode(self.instrument, self.ticks.as_slice())
    }

    /// Feed latency statistics, for judging whether a dataset can support
    /// latency-aware work at all.
    pub fn feed_latency_summary(&self) -> (r: FeedLatency)
        ensures
            r.describes(self@.ticks),
    {
        let ticks = &self.ticks;
        let n: usize = ticks.len();
        if n == 0 {
            return FeedLatency {
                min: 0,
                max: 0,
                mean: 0,
                negative: 0,
                carries_latency: false,
            };
        }
        let first: i64 = sat_sub(ticks[0].stamp.local.0, ticks[0].stamp.exch.0);
        let mut min: i64 = first;
        let mut max: i64 = first;
        let mut sum: i128 = 0;
        let mut negative: usize = 0;
        let mut i: usize = 0;
        assert(ticks@.subrange(0, 0) =~= Seq::<Tick>::empty());
        assert(latency(ticks@[0]) == first);
        while i < n
            invariant
                i <= n,
                n == ticks@.len(),
                n > 0,
                negative <= i,
                sum == latency_sum(ticks@.subrange(0, i as int)),
                -0x8000_0000_0000_0000 * i <= sum <= 0x7fff_ffff_ffff_ffff * i,
                negative == early(ticks@.subrange(0, i as int)),
                forall|k: int| 0 <= k < i ==> min <= latency(#[trigger] ticks@[k]) <= max,
                exists|k: int| 0 <= k < n && latency(#[trigger] ticks@[k]) == min,
                exists|k: int| 0 <= k < n && latency(#[trigger] ticks@[k]) == max,
            decreases n - i,
        {
            let t = &ticks[i];
            let l: i64 = sat_sub(t.stamp.local.0, t.stamp.exch.0);
            assert(latency(ticks@[i as int]) == l);
            proof {
                let now = ticks@.subrange(0, i + 1);
                assert(now.drop_last() =~= ticks@.subrange(0, i as int));
                assert(now.last() == ticks@[i as int]);
            }
            if l < min {
                min = l;
            }
            if l > max {
                max = l;
            }
            sum = sum + l as i128;
            if l < 0 {
                negative += 1;
            }
            i += 1;
        }
        assert(ticks@.subrange(0, i as int) =~= ticks@);
        let mean: i128 = truncated_div(sum, n as i128);
        proof {
            lemma_mean_fits(sum as int, n as int);
        }
        FeedLatency {
            min,
            max,
            mean: mean as i64,
            negative,
            carries_latency: min != 0 || max != 0,
        }
    }
}

proof fn lemma_mean_fits(sum: int, n: int)
    requires
        n > 0,
        -0x8000_0000_0000_0000 * n <= sum <= 0x7fff_ffff_ffff_ffff * n,
    ensures
        -0x8000_0000_0000_0000 <= quotient(sum, n) <= 0x7fff_ffff_ffff_ffff,
{
    if sum >= 0 {
        assert(0 <= sum / n <= 0x7fff_ffff_ffff_ffff) by (nonlinear_arith)
            requires
                n > 0,
                0 <= sum <= 0x7fff_ffff_ffff_ffff * n,
        ;
    } else {
        assert(0 <= (-sum) / n <= 0x8000_0000_0000_0000) by (nonlinear_arith)
            requires
                n > 0,
                0 <= -sum <= 0x8000_0000_0000_0000 * n,
        ;
    }
}

/// The records of two regions joined are the records of one and then of the
/// other, where the first is of whole records.
pub proof fn lemma_ticks_join(a: Seq<u8>, b: Seq<u8>)
    requires
        a.len() % 64 == 0,
    ensures
        ticks_of(a + b) == ticks_of(a) + ticks_of(b),
{
    let all = a + b;
    let n = a.len() / 64;
    assert(all.len() / 64 == n + b.len() / 64);
    assert forall|i: int| 0 <= i < all.len() / 64 implies #[trigger] ticks_of(all)[i] == (ticks_of(a)
        + ticks_of(b))[i] by {
        if i < n {
            assert(all.subrange(64 * i, 64 * i + 64) =~= a.subrange(64 * i, 64 * i + 64));
        } else {
            let k = i - n;
            assert(all.subrange(64 * i, 64 * i + 64) =~= b.subrange(64 * k, 64 * k + 64));
        }
    }
    assert(ticks_of(all) =~= ticks_of(a) + ticks_of(b));
}

/// A tick's latency counts toward the sum, and toward the early ones where it
/// arrived before the venue's own time, wherever it stands.
pub proof fn law_every_latency_counts(ticks: Seq<Tick>, at: int, t: Tick)
    requires
        0 <= at <= ticks.len(),
        i64::MIN <= t.stamp.local.0 - t.stamp.exch.0 <= i64::MAX,
    ensures
        latency_sum(Seq::empty()) == 0,
        latency_sum(ticks.insert(at, t)) == latency_sum(ticks) + (t.stamp.local.0
            - t.stamp.exch.0),
        early(Seq::empty()) == 0,
        t.stamp.local.0 < t.stamp.exch.0 ==> early(ticks.insert(at, t)) == early(ticks) + 1,
        t.stamp.local.0 >= t.stamp.exch.0 ==> early(ticks.insert(at, t)) == early(ticks),
    decreases ticks.len(),
{
    let more = ticks.insert(at, t);
    if at == ticks.len() {
        assert(more.drop_last() =~= ticks);
    } else {
        assert(more.last() == ticks.last());
        assert(more.drop_last() =~= ticks.drop_last().insert(at, t));
        law_every_latency_counts(ticks.drop_last(), at, t);
    }
}

/// A dataset's latency is told by its ticks: no tick's is outside the bounds,
/// the mean is the sum over the ticks cut toward nought, and a dataset carries
/// latency exactly where some tick's arrival and exchange times differ.
pub proof fn law_latency_is_told_by_the_ticks(f: FeedLatency, ticks: Seq<Tick>)
    requires
        f.describes(ticks),
        ticks.len() > 0,
        forall|i: int|
            0 <= i < ticks.len() ==> i64::MIN <= (#[trigger] ticks[i]).stamp.local.0
                - ticks[i].stamp.exch.0 <= i64::MAX,
    ensures
        forall|i: int|
            0 <= i < ticks.len() ==> f.min <= (#[trigger] ticks[i]).stamp.local.0
                - ticks[i].stamp.exch.0 <= f.max,
        exists|i: int|
            0 <= i < ticks.len() && (#[trigger] ticks[i]).stamp.local.0 - ticks[i].stamp.exch.0
                == f.min,
        exists|i: int|
            0 <= i < ticks.len() && (#[trigger] ticks[i]).stamp.local.0 - ticks[i].stamp.exch.0
                == f.max,
        f.carries_latency == exists|i: int|
            0 <= i < ticks.len() && (#[trigger] ticks[i]).stamp.local.0 != ticks[i].stamp.exch.0,
        -(ticks.len() as int) < f.mean * ticks.len() - latency_sum(ticks) < ticks.len(),
{
    assert forall|i: int| 0 <= i < ticks.len() implies f.min <= (#[trigger] ticks[i]).stamp.local.0
        - ticks[i].stamp.exch.0 <= f.max by {
        assert(f.min <= latency(ticks[i]) <= f.max);
    }
    let a = choose|i: int| 0 <= i < ticks.len() && latency(#[trigger] ticks[i]) == f.min;
    let b = choose|i: int| 0 <= i < ticks.len() && latency(#[trigger] ticks[i]) == f.max;
    assert(ticks[a].stamp.local.0 - ticks[a].stamp.exch.0 == f.min);
    assert(ticks[b].stamp.local.0 - ticks[b].stamp.exch.0 == f.max);
    if f.carries_latency {
        if f.min != 0 {
            assert(ticks[a].stamp.local.0 != ticks[a].stamp.exch.0);
        } else {
            assert(ticks[b].stamp.local.0 != ticks[b].stamp.exch.0);
        }
    } else if exists|i: int|
        0 <= i < ticks.len() && (#[trigger] ticks[i]).stamp.local.0 != ticks[i].stamp.exch.0 {
        let i = choose|i: int|
            0 <= i < ticks.len() && (#[trigger] ticks[i]).stamp.local.0 != ticks[i].stamp.exch.0;
        assert(f.min <= latency(ticks[i]) <= f.max);
    }
    let n = ticks.len() as int;
    let sum = latency_sum(ticks);
    let m = if sum >= 0 {
        sum
    } else {
        -sum
    };
    let q = m / n;
    assert(q * n <= m < q * n + n) by (nonlinear_arith)
        requires
            n > 0,
            q == m / n,
    ;
    assert((-q) * n == -(q * n)) by (nonlinear_arith);
}

/// A stream that was taken never goes backwards between any two ticks.
pub proof fn law_a_stream_never_goes_backwards(ticks: Seq<Tick>, i: int, j: int)
    requires
        in_time_order(ticks),
        0 <= i <= j < ticks.len(),
    ensures
        ticks[i].stamp.exch.0 <= ticks[j].stamp.exch.0,
    decreases j - i,
{
    if i < j {
        law_a_stream_never_goes_backwards(ticks, i, j - 1);
        assert(ticks[j - 1].stamp.exch.0 <= ticks[j - 1 + 1].stamp.exch.0);
    }
}

/// A record is read by place: eight integers of eight bytes, the two times
/// first, then the trade prices, the quote and the volume. A header is read by
/// place too: the count, the instrument and the checksum.
pub proof fn law_a_record_is_read_by_place(record: Seq<u8>, bytes: Seq<u8>)
    ensures
        ({
            let t = record_tick(record);
            &&& t.stamp.exch.0 == i64_value(record.subrange(0, 8))
            &&& t.stamp.local.0 == i64_value(record.subrange(8, 16))
            &&& t.last.0 == i64_value(record.subrange(16, 24))
            &&& t.high.0 == i64_value(record.subrange(24, 32))
            &&& t.low.0 == i64_value(record.subrange(32, 40))
            &&& t.bid.0 == i64_value(record.subrange(40, 48))
            &&& t.ask.0 == i64_value(record.subrange(48, 56))
            &&& t.volume.0 == i64_value(record.subrange(56, 64))
        }),
        header_read(bytes) matches Ok(h) ==> {
            &&& bytes.len() >= 32
            &&& le_value(bytes.subrange(0, 4)) == MAGIC
            &&& le_value(bytes.subrange(4, 6)) == VERSION
            &&& h.count == le_value(bytes.subrange(8, 16)) as u64
            &&& h.instrument == le_value(bytes.subrange(16, 24)) as u64
            &&& h.checksum == le_value(bytes.subrange(24, 28)) as u32
        },
{
}

} // verus!
