//! Where the sequencer records events before applying them.
//!
//! The sink is a trait so that recording can be made to fail on demand: the
//! claim that an event is recorded before it is applied is then one a caller
//! can put to the test.
use vstd::prelude::*;

verus! {

/// Why a record could not be read.
#[derive(Clone, Copy, Debug, PartialEq, Eq, Structural)]
pub enum FrameError {
    /// The record is of a version this build does not know.
    UnknownVersion { found: u16 },
}

/// What a journal reports.
#[derive(Debug, PartialEq, Eq)]
pub enum JournalError {
    /// The medium failed, in its own words.
    Io(String),
    /// The journal does not hold what it should at an offset.
    Corrupt { at_offset: u64, cause: FrameError },
}

/// A record: its kind and its payload.
pub type Record = (u16, Seq<u8>);

/// Somewhere durable to put an event.
pub trait EventSink: Sized {
    /// What has been recorded, oldest first.
    open spec fn recorded(&self) -> Seq<Record> {
        Seq::empty()
    }

    /// Whether the sink, handed a record, may answer `r` and become `then`. How
    /// a sink fares is its own affair: this and the next two give it a name.
    open spec fn appends(
        self,
        kind: u16,
        payload: Seq<u8>,
        then: Self,
        r: Result<u64, JournalError>,
    ) -> bool {
        true
    }

    /// Whether the sink, told to flush, may answer `r` and become `then`.
    open spec fn flushes(self, then: Self, r: Result<(), JournalError>) -> bool {
        true
    }

    /// Whether the sink, told to sync, may answer `r` and become `then`.
    open spec fn syncs(self, then: Self, r: Result<(), JournalError>) -> bool {
        true
    }

    /// Record one event, returning its sequence number. A caller that receives
    /// an error must not treat the event as having happened.
    fn append(&mut self, kind: u16, payload: &[u8]) -> (r: Result<u64, JournalError>)
        ensures
            r is Ok ==> final(self).recorded() == old(self).recorded().push((kind, payload@)),
            old(self).appends(kind, payload@, *final(self), r),
    ;

    /// Push buffered records on.
    fn flush(&mut self) -> (r: Result<(), JournalError>)
        ensures
            final(self).recorded() == old(self).recorded(),
            old(self).flushes(*final(self), r),
    ;

    /// Push buffered records on and make them durable.
    fn sync(&mut self) -> (r: Result<(), JournalError>)
        ensures
            final(self).recorded() == old(self).recorded(),
            old(self).syncs(*final(self), r),
    ;
}

/// A sink that keeps records in memory. It is not durable.
#[derive(Debug)]
pub struct MemorySink {
    records: Vec<(u16, Vec<u8>)>,
}

impl View for MemorySink {
    type V = Seq<Record>;

    closed spec fn view(&self) -> Seq<Record> {
        self.records@.map_values(|r: (u16, Vec<u8>)| (r.0, r.1@))
    }
}

impl Default for MemorySink {
    fn default() -> (r: Self)
        ensures
            r@ == Seq::<Record>::empty(),
    {
        MemorySink::new()
    }
}

impl MemorySink {
    pub fn new() -> (r: Self)
        ensures
            r@ == Seq::<Record>::empty(),
    {
        let r = MemorySink { records: Vec::new() };
        assert(r@ =~= Seq::<Record>::empty());
        r
    }

    pub fn records(&self) -> (r: &Vec<(u16, Vec<u8>)>)
        ensures
            r@.map_values(|x: (u16, Vec<u8>)| (x.0, x.1@)) == self@,
    {
        &self.records
    }

    pub fn len(&self) -> (r: usize)
        ensures
            r == self@.len(),
    {
        self.records.len()
    }

    pub fn is_empty(&self) -> (r: bool)
        ensures
            r == (self@.len() == 0),
    {
        self.records.len() == 0
    }
}

/// A copy of a run of bytes.
pub fn owned(bytes: &[u8]) -> (r: Vec<u8>)
    ensures
        r@ == bytes@,
{
    let mut out: Vec<u8> = Vec::new();
    let mut i: usize = 0;
    while i < bytes.len()
        invariant
            i <= bytes@.len(),
            out@ == bytes@.subrange(0, i as int),
        decreases bytes@.len() - i,
    {
        out.push(bytes[i]);
        i += 1;
        assert(out@ =~= bytes@.subrange(0, i as int));
    }
    assert(out@ =~= bytes@);
    out
}

impl EventSink for MemorySink {
    open spec fn recorded(&self) -> Seq<Record> {
        self@
    }

    /// It is always recorded, and numbered from nought.
    open spec fn appends(
        self,
        kind: u16,
        payload: Seq<u8>,
        then: Self,
        r: Result<u64, JournalError>,
    ) -> bool {
        &&& then@ == self@.push((kind, payload))
        &&& r == Ok::<u64, JournalError>(self@.len() as u64)
    }

    open spec fn flushes(self, then: Self, r: Result<(), JournalError>) -> bool {
        then == self && r is Ok
    }

    open spec fn syncs(self, then: Self, r: Result<(), JournalError>) -> bool {
        then == self && r is Ok
    }

    fn append(&mut self, kind: u16, payload: &[u8]) -> (r: Result<u64, JournalError>) {
        let seq: u64 = self.records.len() as u64;
        self.records.push((kind, owned(payload)));
        assert(self@ =~= old(self)@.push((kind, payload@)));
        Ok(seq)
    }

    fn flush(&mut self) -> (r: Result<(), JournalError>) {
        Ok(())
    }

    fn sync(&mut self) -> (r: Result<(), JournalError>) {
        Ok(())
    }
}

} // verus!
