//! A tick file read one block at a time, decoding as it goes.
//!
//! The peak is one block rather than the whole window. What a whole read
//! checks is still checked: the checksum is accumulated across every record
//! and compared when the last one is in, exchange times must not go backwards,
//! and a short file is truncated rather than a shorter run. The host reads the
//! bytes; which bytes, and what they mean, is decided here.
use crate::data::checksum::{law_blocks_join, register, Accumulator, START};
use crate::data::error::Error;
use crate::data::ticks::{
    full_length, header_read, in_time_order, lemma_ticks_join, read_header, read_records, ticks_of,
    whole_length, Header, BLOCK,
};
use crate::engine::tick::Tick;
use crate::types::Nanos;
use vstd::prelude::*;

verus! {

/// A record region being taken in block by block.
#[derive(Debug)]
pub struct Blocks {
    header: Header,
    crc: Accumulator,
    remaining: u64,
}

/// How far a record region has been taken in.
#[verifier::ext_equal]
pub struct BlocksView {
    pub header: Header,
    /// The checksum register over what has been taken in.
    pub held: u32,
    /// Records still to come.
    pub remaining: u64,
}

impl View for Blocks {
    type V = BlocksView;

    closed spec fn view(&self) -> BlocksView {
        BlocksView { header: self.header, held: self.crc.held(), remaining: self.remaining }
    }
}

impl BlocksView {
    pub open spec fn wf(self) -> bool {
        self.remaining <= self.header.count
    }

    pub open spec fn opened(header: Header) -> BlocksView {
        BlocksView { header, held: START, remaining: header.count }
    }

    /// Records the next block holds.
    pub open spec fn records(self) -> int {
        if self.remaining < 8192 {
            self.remaining as int
        } else {
            8192
        }
    }

    /// Bytes the next block needs.
    pub open spec fn wanted(self) -> int {
        self.records() * 64
    }

    /// The state once a block has been taken in.
    pub open spec fn taken(self, block: Seq<u8>) -> BlocksView {
        BlocksView {
            held: register(self.held, block),
            remaining: (self.remaining - self.records()) as u64,
            ..self
        }
    }

    /// What a block that is not there, or not whole, is reported as.
    pub open spec fn short(self) -> Error {
        Error::Truncated {
            needed: full_length(self.header.count),
            available: full_length((self.header.count - self.remaining) as u64),
        }
    }

    /// What the checksum says of everything taken in.
    pub open spec fn verdict(self) -> Result<(), Error> {
        let computed = self.held ^ START;
        if computed == self.header.checksum {
            Ok(())
        } else {
            Err(Error::ChecksumMismatch { expected: self.header.checksum, computed })
        }
    }
}

impl Blocks {
    pub closed spec fn inv(&self) -> bool {
        self.crc.wf() && self@.wf()
    }

    pub fn open(header: Header) -> (r: Self)
        ensures
            r.inv(),
            r@ == BlocksView::opened(header),
    {
        Blocks { header, crc: Accumulator::new(), remaining: header.count }
    }

    /// Bytes the next block needs; zero when nothing is left.
    pub fn wanted(&self) -> (r: usize)
        ensures
            r == self@.wanted(),
    {
        let n: usize = if self.remaining < BLOCK as u64 {
            self.remaining as usize
        } else {
            BLOCK
        };
        n * 64
    }

    pub fn remaining(&self) -> (r: u64)
        ensures
            r == self@.remaining,
    {
        self.remaining
    }

    pub fn header(&self) -> (r: &Header)
        ensures
            *r == self@.header,
    {
        &self.header
    }

    /// Take the next block in, adding its ticks to `out`. A block that could
    /// not be read, or that is not of the length wanted, is a truncated file.
    pub fn take(&mut self, block: Option<&[u8]>, out: &mut Vec<Tick>) -> (r: Result<(), Error>)
        requires
            old(self).inv(),
        ensures
            final(self).inv(),
            match block {
                Some(b) => if b@.len() == old(self)@.wanted() {
                    &&& r is Ok
                    &&& final(self)@ == old(self)@.taken(b@)
                    &&& final(out)@ == old(out)@ + ticks_of(b@)
                } else {
                    &&& r == Err::<(), Error>(old(self)@.short())
                    &&& final(self)@ == old(self)@
                    &&& final(out)@ == old(out)@
                },
                None => {
                    &&& r == Err::<(), Error>(old(self)@.short())
                    &&& final(self)@ == old(self)@
                    &&& final(out)@ == old(out)@
                },
            },
    {
        let want: usize = self.wanted();
        if let Some(b) = block {
            if b.len() == want {
                self.crc.update(b);
                read_records(b, out);
                self.remaining = self.remaining - (want / 64) as u64;
                return Ok(());
            }
        }
        Err(
            Error::Truncated {
                needed: whole_length(self.header.count),
                available: whole_length(self.header.count - self.remaining),
            },
        )
    }

    /// Hold everything taken in against the header's checksum.
    pub fn verified(&self) -> (r: Result<(), Error>)
        ensures
            r == self@.verdict(),
    {
        let computed: u32 = self.crc.value();
        if computed != self.header.checksum {
            return Err(
                Error::ChecksumMismatch { expected: self.header.checksum, computed },
            );
        }
        Ok(())
    }
}

/// A tick file being read, one tick at a time.
#[derive(Debug)]
pub struct TickReader {
    blocks: Blocks,
    /// Decoded, of which the first `given` have been handed out.
    pending: Vec<Tick>,
    given: usize,
    previous: Option<Nanos>,
    index: usize,
    failed: bool,
}

/// How far a file has been read.
#[verifier::ext_equal]
pub struct ReaderView {
    pub blocks: BlocksView,
    /// Decoded and not yet handed out.
    pub pending: Seq<Tick>,
    pub previous: Option<Nanos>,
    /// Ticks handed out.
    pub index: usize,
    pub failed: bool,
}

/// What a reader does next.
#[derive(Clone, Copy, Debug, PartialEq, Eq, Structural)]
pub enum Turn {
    /// It needs a block of this many bytes.
    Need(usize),
    /// It hands out a tick.
    Tick(Tick),
    /// It has failed.
    Failed(Error),
    /// There is nothing more.
    Done,
}

impl View for TickReader {
    type V = ReaderView;

    closed spec fn view(&self) -> ReaderView {
        ReaderView {
            blocks: self.blocks@,
            pending: self.pending@.subrange(self.given as int, self.pending@.len() as int),
            previous: self.previous,
            index: self.index,
            failed: self.failed,
        }
    }
}

/// A count one higher, or at its limit.
pub open spec fn next_index(n: usize) -> usize {
    if n == usize::MAX {
        n
    } else {
        (n + 1) as usize
    }
}

impl ReaderView {
    pub open spec fn opened(header: Header) -> ReaderView {
        ReaderView {
            blocks: BlocksView::opened(header),
            pending: Seq::empty(),
            previous: None,
            index: 0,
            failed: false,
        }
    }

    /// Whether the next tick goes backwards.
    pub open spec fn backwards(self) -> bool {
        self.previous matches Some(p) && self.pending[0].stamp.exch.0 < p.0
    }

    pub open spec fn turn(self) -> Turn {
        if self.failed {
            Turn::Done
        } else if self.pending.len() == 0 {
            if self.blocks.remaining == 0 {
                Turn::Done
            } else {
                Turn::Need(self.blocks.wanted() as usize)
            }
        } else if self.backwards() {
            Turn::Failed(
                Error::OutOfOrder {
                    index: self.index,
                    previous: match self.previous {
                        Some(p) => p.0,
                        None => 0,
                    },
                    found: self.pending[0].stamp.exch.0,
                },
            )
        } else {
            Turn::Tick(self.pending[0])
        }
    }

    pub open spec fn turned(self) -> ReaderView {
        if self.failed || self.pending.len() == 0 {
            self
        } else if self.backwards() {
            ReaderView { failed: true, pending: self.pending.drop_first(), ..self }
        } else {
            ReaderView {
                pending: self.pending.drop_first(),
                previous: Some(self.pending[0].stamp.exch),
                index: next_index(self.index),
                ..self
            }
        }
    }

    /// What handing a block over comes to. The block that is the last brings
    /// the checksum's verdict.
    pub open spec fn filling(self, block: Option<Seq<u8>>) -> Result<(), Error> {
        match block {
            Some(b) => if b.len() != self.blocks.wanted() {
                Err(self.blocks.short())
            } else if self.blocks.taken(b).remaining == 0 {
                self.blocks.taken(b).verdict()
            } else {
                Ok(())
            },
            None => Err(self.blocks.short()),
        }
    }

    pub open spec fn filled(self, block: Option<Seq<u8>>) -> ReaderView {
        let failed = self.failed || self.filling(block) is Err;
        match block {
            Some(b) => if b.len() != self.blocks.wanted() {
                ReaderView { failed, ..self }
            } else {
                ReaderView {
                    blocks: self.blocks.taken(b),
                    pending: self.pending + ticks_of(b),
                    failed,
                    ..self
                }
            },
            None => ReaderView { failed, ..self },
        }
    }
}

impl TickReader {
    pub closed spec fn inv(&self) -> bool {
        self.blocks.inv() && self.given <= self.pending@.len()
    }

    /// Start reading a file, given its first bytes.
    pub fn open(header_bytes: &[u8]) -> (r: Result<Self, Error>)
        ensures
            match header_read(header_bytes@) {
                Ok(header) => r matches Ok(reader) && reader.inv() && reader@ == ReaderView::opened(
                    header,
                ),
                Err(e) => r == Err::<TickReader, Error>(e),
            },
    {
        match read_header(header_bytes) {
            Err(e) => Err(e),
            Ok(header) => {
                let reader = TickReader {
                    blocks: Blocks::open(header),
                    pending: Vec::new(),
                    given: 0,
                    previous: None,
                    index: 0,
                    failed: false,
                };
                assert(reader@ =~= ReaderView::opened(header));
                Ok(reader)
            },
        }
    }

    /// The file's header, available before any tick is read.
    pub fn header(&self) -> (r: &Header)
        ensures
            *r == self@.blocks.header,
    {
        self.blocks.header()
    }

    /// How many ticks the header promises.
    pub fn len(&self) -> (r: u64)
        ensures
            r == self@.blocks.header.count,
    {
        self.blocks.header().count
    }

    pub fn is_empty(&self) -> (r: bool)
        ensures
            r == (self@.blocks.header.count == 0),
    {
        self.blocks.header().count == 0
    }

    /// What happens next: a tick, a failure, the end, or a block to be read.
    pub fn next(&mut self) -> (r: Turn)
        requires
            old(self).inv(),
        ensures
            final(self).inv(),
            r == old(self)@.turn(),
            final(self)@ == old(self)@.turned(),
    {
        let ghost start = self@;
        if self.failed {
            return Turn::Done;
        }
        if self.given == self.pending.len() {
            assert(start.pending.len() == 0);
            return if self.blocks.remaining() == 0 {
                Turn::Done
            } else {
                Turn::Need(self.blocks.wanted())
            };
        }
        let tick = self.pending[self.given];
        assert(start.pending[0] == tick);
        self.given = self.given + 1;
        assert(self@.pending =~= start.pending.drop_first());
        if let Some(p) = self.previous {
            if tick.stamp.exch.0 < p.0 {
                self.failed = true;
                assert(self@ =~= start.turned());
                return Turn::Failed(
                    Error::OutOfOrder {
                        index: self.index,
                        previous: p.0,
                        found: tick.stamp.exch.0,
                    },
                );
            }
        }
        self.previous = Some(tick.stamp.exch);
        self.index = if self.index == usize::MAX {
            self.index
        } else {
            self.index + 1
        };
        assert(self@ =~= start.turned());
        Turn::Tick(tick)
    }

    /// Hand over the block that was needed, or say that it could not be read.
    pub fn fill(&mut self, block: Option<&[u8]>) -> (r: Result<(), Error>)
        requires
            old(self).inv(),
        ensures
            final(self).inv(),
            r == old(self)@.filling(
                match block {
                    Some(b) => Some(b@),
                    None => None,
                },
            ),
            final(self)@ == old(self)@.filled(
                match block {
                    Some(b) => Some(b@),
                    None => None,
                },
            ),
    {
        let ghost start = self@;
        let ghost said = match block {
            Some(b) => Some(b@),
            None => None,
        };
        let mut rest: Vec<Tick> = Vec::new();
        let mut i: usize = self.given;
        while i < self.pending.len()
            invariant
                self.given <= i <= self.pending@.len(),
                rest@ == self.pending@.subrange(self.given as int, i as int),
            decreases self.pending@.len() - i,
        {
            rest.push(self.pending[i]);
            i += 1;
            assert(rest@ =~= self.pending@.subrange(self.given as int, i as int));
        }
        self.pending = rest;
        self.given = 0;
        assert(self@.pending =~= start.pending);
        if let Err(e) = self.blocks.take(block, &mut self.pending) {
            self.failed = true;
            assert(self@ =~= start.filled(said));
            return Err(e);
        }
        assert(self@.pending =~= start.filled(said).pending);
        if self.blocks.remaining() == 0 {
            if let Err(e) = self.blocks.verified() {
                self.failed = true;
                assert(self@ =~= start.filled(said));
                return Err(e);
            }
        }
        assert(self@ =~= start.filled(said));
        Ok(())
    }
}

/// What reading a file comes to: the ticks handed out, and the failure that
/// ended it, if one did.
#[verifier::ext_equal]
pub struct Reading {
    pub ticks: Seq<Tick>,
    pub error: Option<Error>,
}

/// Every pending tick handed out, as far as they go forward.
pub open spec fn drained(r: ReaderView) -> Reading
    decreases r.pending.len(),
{
    match r.turn() {
        Turn::Tick(t) => if r.pending.len() == 0 {
            Reading { ticks: Seq::empty(), error: None }
        } else {
            let rest = drained(r.turned());
            Reading { ticks: seq![t] + rest.ticks, ..rest }
        },
        Turn::Failed(e) => Reading { ticks: Seq::empty(), error: Some(e) },
        _ => Reading { ticks: Seq::empty(), error: None },
    }
}

/// The reader once every pending tick has been handed out.
pub open spec fn emptied(r: ReaderView) -> ReaderView
    decreases r.pending.len(),
{
    if r.turn() is Tick && r.pending.len() > 0 {
        emptied(r.turned())
    } else {
        r.turned()
    }
}

/// A file read to its end: pending ticks are handed out, then a block is taken
/// from what is left of the file, and so on. `fuel` bounds the blocks.
pub open spec fn read_through(r: ReaderView, rest: Seq<u8>, fuel: nat) -> Reading
    decreases fuel,
{
    let now = drained(r);
    let after = emptied(r);
    if now.error is Some || fuel == 0 {
        now
    } else {
        match after.turn() {
            Turn::Need(n) => {
                let block = if rest.len() < n {
                    None
                } else {
                    Some(rest.subrange(0, n as int))
                };
                match after.filling(block) {
                    Err(e) => Reading { ticks: now.ticks, error: Some(e) },
                    Ok(_) => {
                        let later = read_through(
                            after.filled(block),
                            rest.subrange(n as int, rest.len() as int),
                            (fuel - 1) as nat,
                        );
                        Reading { ticks: now.ticks + later.ticks, ..later }
                    },
                }
            },
            _ => now,
        }
    }
}

/// Whether ticks may follow one handed out at `previous`.
spec fn follows(previous: Option<Nanos>, ticks: Seq<Tick>) -> bool {
    &&& in_time_order(ticks)
    &&& ticks.len() > 0 ==> (previous matches Some(p) ==> p.0 <= ticks[0].stamp.exch.0)
}

/// Ticks that go forward are all handed out.
proof fn lemma_drained(r: ReaderView)
    requires
        !r.failed,
        follows(r.previous, r.pending),
    ensures
        drained(r) == (Reading { ticks: r.pending, error: None }),
        !emptied(r).failed,
        emptied(r).pending.len() == 0,
        emptied(r).blocks == r.blocks,
        emptied(r).previous == (if r.pending.len() == 0 {
            r.previous
        } else {
            Some(r.pending.last().stamp.exch)
        }),
    decreases r.pending.len(),
{
    if r.pending.len() > 0 {
        let t = r.pending[0];
        let next = r.turned();
        assert forall|i: int| 0 <= i && i + 1 < next.pending.len() implies (
        #[trigger] next.pending[i]).stamp.exch.0 <= next.pending[i + 1].stamp.exch.0 by {
            assert(r.pending[i + 1].stamp.exch.0 <= r.pending[i + 2].stamp.exch.0);
        }
        if next.pending.len() > 0 {
            assert(r.pending[0].stamp.exch.0 <= r.pending[1].stamp.exch.0);
        }
        lemma_drained(next);
        assert(seq![t] + next.pending =~= r.pending);
        if next.pending.len() > 0 {
            assert(next.pending.last() == r.pending.last());
        }
    }
}

/// Ticks that follow one handed out, parted in two.
proof fn lemma_split_order(previous: Option<Nanos>, first: Seq<Tick>, later: Seq<Tick>)
    requires
        follows(previous, first + later),
        first.len() > 0,
    ensures
        follows(previous, first),
        follows(Some(first.last().stamp.exch), later),
{
    let ticks = first + later;
    assert forall|i: int| 0 <= i && i + 1 < first.len() implies (#[trigger] first[i]).stamp.exch.0
        <= first[i + 1].stamp.exch.0 by {
        assert(ticks[i] == first[i] && ticks[i + 1] == first[i + 1]);
    }
    assert forall|i: int| 0 <= i && i + 1 < later.len() implies (#[trigger] later[i]).stamp.exch.0
        <= later[i + 1].stamp.exch.0 by {
        let k = first.len() + i;
        assert(ticks[k] == later[i] && ticks[k + 1] == later[i + 1]);
    }
    assert(ticks[0] == first[0]);
    if later.len() > 0 {
        let k = first.len() - 1;
        assert(ticks[k] == first[k] && ticks[k + 1] == later[0]);
    }
}

/// Reading on: a reader that has handed out everything before `rest` hands out
/// every tick of it.
#[verifier::rlimit(60)]
proof fn lemma_reads_on(r: ReaderView, rest: Seq<u8>, fuel: nat)
    requires
        !r.failed,
        r.pending.len() == 0,
        r.blocks.wf(),
        rest.len() == r.blocks.remaining * 64,
        r.blocks.remaining <= fuel,
        r.blocks.remaining > 0 ==> register(r.blocks.held, rest) ^ START
            == r.blocks.header.checksum,
        follows(r.previous, ticks_of(rest)),
    ensures
        read_through(r, rest, fuel) == (Reading { ticks: ticks_of(rest), error: None }),
    decreases fuel,
{
    assert(emptied(r) == r);
    assert(drained(r).ticks =~= Seq::<Tick>::empty());
    if r.blocks.remaining == 0 {
        assert(ticks_of(rest) =~= Seq::<Tick>::empty());
    } else {
        let n = r.blocks.wanted();
        let block = rest.subrange(0, n);
        let left = rest.subrange(n, rest.len() as int);
        assert(rest =~= block + left);
        lemma_ticks_join(block, left);
        law_blocks_join(r.blocks.held, block, left);
        let next = r.filled(Some(block));
        let ticks = ticks_of(rest);
        let first = ticks_of(block);
        let later = ticks_of(left);
        if next.blocks.remaining == 0 {
            assert(left =~= Seq::<u8>::empty());
            assert(rest =~= block);
        }
        assert(first.len() > 0);
        assert(next.pending =~= first);
        lemma_split_order(r.previous, first, later);
        lemma_drained(next);
        let e = emptied(next);
        lemma_reads_on(e, left, (fuel - 1) as nat);
        lemma_through_drain(next, left, (fuel - 1) as nat);
        assert(read_through(next, left, (fuel - 1) as nat).ticks =~= first + later);
        assert(drained(r).ticks + (first + later) =~= ticks);
    }
}

/// Handing out what is pending first changes nothing of what comes after.
proof fn lemma_through_drain(r: ReaderView, rest: Seq<u8>, fuel: nat)
    requires
        !r.failed,
        follows(r.previous, r.pending),
        r.blocks.wf(),
    ensures
        read_through(r, rest, fuel).ticks == r.pending + read_through(
            emptied(r),
            rest,
            fuel,
        ).ticks,
        read_through(r, rest, fuel).error == read_through(emptied(r), rest, fuel).error,
{
    lemma_drained(r);
    let e = emptied(r);
    assert(emptied(e) == e);
    assert(drained(e).ticks =~= Seq::<Tick>::empty());
    assert(drained(e).error is None);
    assert(read_through(r, rest, fuel).ticks =~= r.pending + read_through(e, rest, fuel).ticks);
}

/// Reading a file in blocks hands out exactly the ticks that reading it whole
/// does, whatever block boundaries fall inside it.
pub proof fn law_blocks_read_what_the_whole_does(bytes: Seq<u8>, header: Header, ticks: Seq<Tick>)
    requires
        crate::data::ticks::file_read(bytes) == Ok::<(Header, Seq<Tick>), Error>((header, ticks)),
        in_time_order(ticks),
    ensures
        ({
            let body = bytes.subrange(32, 32 + header.count * 64);
            read_through(ReaderView::opened(header), body, header.count as nat) == (Reading {
                ticks,
                error: None,
            })
        }),
{
    let body = bytes.subrange(32, 32 + header.count * 64);
    lemma_reads_on(ReaderView::opened(header), body, header.count as nat);
}

} // verus!
