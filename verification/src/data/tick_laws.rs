//! What a tick file keeps.
use crate::bytes::{
    i64_bytes, le_bytes, le_value, lemma_i64_round_trip, lemma_le_bytes_len, lemma_le_round_trip,
    lemma_pow256, lemma_u32_round_trip, lemma_u64_round_trip,
};
use crate::data::checksum::{checksum, law_one_damaged_byte_is_caught};
use crate::data::error::Error;
use crate::data::ticks::{
    body_of, field, file_of, file_read, header_bytes, header_read, lemma_ticks_join, record_bytes,
    record_tick, ticks_of, Header, MAGIC, VERSION,
};
use crate::engine::tick::Tick;
use vstd::prelude::*;

verus! {

/// A record reads back as the tick it was written from.
proof fn lemma_record_round_trip(t: Tick)
    ensures
        record_bytes(t).len() == 64,
        record_tick(record_bytes(t)) == t,
{
    let xs = seq![
        t.stamp.exch.0,
        t.stamp.local.0,
        t.last.0,
        t.high.0,
        t.low.0,
        t.bid.0,
        t.ask.0,
        t.volume.0,
    ];
    assert forall|i: int| 0 <= i < 8 implies i64_bytes(#[trigger] xs[i]).len() == 8 by {
        lemma_i64_round_trip(xs[i]);
    }
    assert(i64_bytes(xs[0]).len() == 8 && i64_bytes(xs[1]).len() == 8 && i64_bytes(xs[2]).len()
        == 8 && i64_bytes(xs[3]).len() == 8 && i64_bytes(xs[4]).len() == 8 && i64_bytes(
        xs[5],
    ).len() == 8 && i64_bytes(xs[6]).len() == 8 && i64_bytes(xs[7]).len() == 8);
    let r = record_bytes(t);
    assert(r.subrange(0, 8) =~= i64_bytes(xs[0]));
    assert(r.subrange(8, 16) =~= i64_bytes(xs[1]));
    assert(r.subrange(16, 24) =~= i64_bytes(xs[2]));
    assert(r.subrange(24, 32) =~= i64_bytes(xs[3]));
    assert(r.subrange(32, 40) =~= i64_bytes(xs[4]));
    assert(r.subrange(40, 48) =~= i64_bytes(xs[5]));
    assert(r.subrange(48, 56) =~= i64_bytes(xs[6]));
    assert(r.subrange(56, 64) =~= i64_bytes(xs[7]));
    lemma_i64_round_trip(xs[0]);
    lemma_i64_round_trip(xs[1]);
    lemma_i64_round_trip(xs[2]);
    lemma_i64_round_trip(xs[3]);
    lemma_i64_round_trip(xs[4]);
    lemma_i64_round_trip(xs[5]);
    lemma_i64_round_trip(xs[6]);
    lemma_i64_round_trip(xs[7]);
    assert(field(r, 0) == xs[0] && field(r, 1) == xs[1] && field(r, 2) == xs[2] && field(r, 3)
        == xs[3] && field(r, 4) == xs[4] && field(r, 5) == xs[5] && field(r, 6) == xs[6] && field(
        r,
        7,
    ) == xs[7]);
}

/// A record region reads back as the ticks it was written from.
pub proof fn lemma_body_round_trip(ticks: Seq<Tick>)
    ensures
        body_of(ticks).len() == ticks.len() * 64,
        ticks_of(body_of(ticks)) == ticks,
    decreases ticks.len(),
{
    if ticks.len() == 0 {
        assert(ticks_of(body_of(ticks)) =~= ticks);
    } else {
        let rest = ticks.drop_last();
        lemma_body_round_trip(rest);
        let r = record_bytes(ticks.last());
        lemma_record_round_trip(ticks.last());
        lemma_ticks_join(body_of(rest), r);
        assert(r.subrange(0, 64) =~= r);
        assert(ticks_of(r) =~= seq![ticks.last()]);
        assert(rest + seq![ticks.last()] =~= ticks);
    }
}

/// A header reads back as what it was written from, whatever follows it.
proof fn lemma_header_round_trip(count: u64, instrument: u64, sum: u32, rest: Seq<u8>)
    ensures
        header_bytes(count, instrument, sum).len() == 32,
        header_read(header_bytes(count, instrument, sum) + rest) == Ok::<Header, Error>(
            Header { count, instrument, checksum: sum },
        ),
{
    lemma_pow256();
    lemma_u32_round_trip(MAGIC as nat);
    lemma_le_round_trip(VERSION as nat, 2);
    lemma_le_bytes_len(0, 2);
    lemma_u64_round_trip(count);
    lemma_u64_round_trip(instrument);
    lemma_u32_round_trip(sum as nat);
    lemma_le_bytes_len(0, 4);
    let all = header_bytes(count, instrument, sum) + rest;
    assert(all.subrange(0, 4) =~= le_bytes(MAGIC as nat, 4));
    assert(all.subrange(4, 6) =~= le_bytes(VERSION as nat, 2));
    assert(all.subrange(8, 16) =~= le_bytes(count as nat, 8));
    assert(all.subrange(16, 24) =~= le_bytes(instrument as nat, 8));
    assert(all.subrange(24, 28) =~= le_bytes(sum as nat, 4));
}

/// A tick file reads back as what it was written from, every field of every
/// record, and bytes behind it are not looked at.
pub proof fn law_a_file_reads_back(instrument: u64, ticks: Seq<Tick>, rest: Seq<u8>)
    requires
        ticks.len() <= u64::MAX,
    ensures
        file_read(file_of(instrument, ticks) + rest) == Ok::<(Header, Seq<Tick>), Error>(
            (
                Header {
                    count: ticks.len() as u64,
                    instrument,
                    checksum: checksum(body_of(ticks)),
                },
                ticks,
            ),
        ),
{
    let body = body_of(ticks);
    let header = header_bytes(ticks.len() as u64, instrument, checksum(body));
    let all = file_of(instrument, ticks) + rest;
    lemma_body_round_trip(ticks);
    lemma_header_round_trip(ticks.len() as u64, instrument, checksum(body), body + rest);
    assert(all =~= header + (body + rest));
    assert(all.subrange(32, (32 + ticks.len() * 64) as int) =~= body);
}

/// A file cut short anywhere is refused, not read as a shorter one.
pub proof fn law_a_cut_file_is_refused(instrument: u64, ticks: Seq<Tick>, cut: int)
    requires
        ticks.len() <= u64::MAX,
        0 <= cut < file_of(instrument, ticks).len(),
    ensures
        file_read(file_of(instrument, ticks).subrange(0, cut)) matches Err(e) && e is Truncated,
{
    let body = body_of(ticks);
    let header = header_bytes(ticks.len() as u64, instrument, checksum(body));
    let part = file_of(instrument, ticks).subrange(0, cut);
    lemma_body_round_trip(ticks);
    lemma_header_round_trip(ticks.len() as u64, instrument, checksum(body), Seq::empty());
    if cut >= 32 {
        let left = body.subrange(0, cut - 32);
        lemma_header_round_trip(ticks.len() as u64, instrument, checksum(body), left);
        assert(part =~= header + left);
    }
}

/// One damaged byte among the records is always caught.
pub proof fn law_a_damaged_record_is_refused(instrument: u64, ticks: Seq<Tick>, at: int, b: u8)
    requires
        ticks.len() <= u64::MAX,
        0 <= at < body_of(ticks).len(),
        body_of(ticks)[at] != b,
    ensures
        file_read(file_of(instrument, ticks).update(32 + at, b)) matches Err(e)
            && e is ChecksumMismatch,
{
    let body = body_of(ticks);
    let header = header_bytes(ticks.len() as u64, instrument, checksum(body));
    let damaged = body.update(at, b);
    let all = file_of(instrument, ticks).update(32 + at, b);
    lemma_body_round_trip(ticks);
    lemma_header_round_trip(ticks.len() as u64, instrument, checksum(body), damaged);
    assert(all =~= header + damaged);
    assert(all.subrange(32, (32 + ticks.len() * 64) as int) =~= damaged);
    law_one_damaged_byte_is_caught(body, at, b);
}

/// A file that does not begin with the magic number is foreign, and refused as
/// such.
pub proof fn law_a_foreign_file_is_refused(bytes: Seq<u8>)
    requires
        bytes.len() >= 32,
        le_value(bytes.subrange(0, 4)) != MAGIC,
    ensures
        file_read(bytes) matches Err(e) && e is BadMagic,
{
}

} // verus!
