//! Journal first, then the core.
//!
//! The sequencer is the only door into the kernel. It appends an event and
//! only then applies it, so anything the core acted on can be replayed, and
//! recovery is the same code path as a normal run.
use crate::ledger::event::{decoded, law_round_trip, Event, EventView};
use crate::ledger::kernel::{Kernel, KernelView, Output, State, Step};
use crate::ledger::sink::{EventSink, FrameError, JournalError, MemorySink, Record};
use vstd::prelude::*;

verus! {

/// A kernel with a journal in front of it.
#[derive(Debug)]
pub struct Sequencer<S: EventSink> {
    kernel: Kernel,
    sink: S,
    applied: u64,
}

/// What a sequencer holds.
#[verifier::ext_equal]
pub struct SequencerView {
    pub kernel: KernelView,
    pub records: Seq<Record>,
    pub applied: u64,
}

impl<S: EventSink> View for Sequencer<S> {
    type V = SequencerView;

    closed spec fn view(&self) -> SequencerView {
        SequencerView {
            kernel: self.kernel@,
            records: self.sink.recorded(),
            applied: self.applied,
        }
    }
}

/// Whether a sink may take an event and become `then`.
pub open spec fn takes<S: EventSink>(sink: S, event: EventView, then: S) -> bool {
    exists|seq: u64| #[trigger]
        sink.appends(event.kind(), event.encoded(), then, Ok::<u64, JournalError>(seq))
}

/// Whether a sink may refuse an event for a reason and become `then`.
pub open spec fn refuses<S: EventSink>(
    sink: S,
    event: EventView,
    then: S,
    why: JournalError,
) -> bool {
    sink.appends(event.kind(), event.encoded(), then, Err::<u64, JournalError>(why))
}

impl<S: EventSink> Sequencer<S> {
    /// The sink, as it stands.
    pub closed spec fn journal(&self) -> S {
        self.sink
    }

    /// Attach a sink to a fresh kernel.
    pub fn with_sink(state: State, sink: S) -> (r: Self)
        ensures
            r@ == (SequencerView {
                kernel: KernelView { state: state@, working: Seq::empty(), depth: None },
                records: sink.recorded(),
                applied: 0,
            }),
            r.journal() == sink,
    {
        Sequencer { kernel: Kernel::new(state), sink, applied: 0 }
    }

    /// The sink, for inspection.
    pub fn sink(&self) -> (r: &S)
        ensures
            r.recorded() == self@.records,
            *r == self.journal(),
    {
        &self.sink
    }

    /// Record, then apply. An event that could not be recorded is not applied:
    /// it leaves no trace in the kernel and is not counted. What the sink
    /// answers to the event decides, and its error is handed on.
    pub fn submit(&mut self, event: &Event) -> (r: Result<&Vec<Output>, JournalError>)
        requires
            old(self)@.kernel.wf(),
        ensures
            final(self)@.kernel.wf(),
            match r {
                Ok(outputs) => {
                    &&& final(self)@.records == old(self)@.records.push(
                        (event@.kind(), event@.encoded()),
                    )
                    &&& (Step { kernel: final(self)@.kernel, outputs: outputs@ })
                        == old(self)@.kernel.apply(event@)
                    &&& final(self)@.applied == if old(self)@.applied == u64::MAX {
                        u64::MAX
                    } else {
                        (old(self)@.applied + 1) as u64
                    }
                },
                Err(_) => {
                    &&& final(self)@.kernel == old(self)@.kernel
                    &&& final(self)@.applied == old(self)@.applied
                },
            },
            match r {
                Ok(_) => takes(old(self).journal(), event@, final(self).journal()),
                Err(e) => refuses(old(self).journal(), event@, final(self).journal(), e),
            },
    {
        let payload = event.encode();
        let said = self.sink.append(event.kind(), payload.as_slice());
        match said {
            Err(e) => Err(e),
            Ok(_seq) => {
                assert(takes(old(self).journal(), event@, self.journal()));
                self.applied = if self.applied == u64::MAX {
                    u64::MAX
                } else {
                    self.applied + 1
                };
                Ok(self.kernel.apply(event))
            },
        }
    }

    /// Push the journal's buffered records on.
    pub fn flush(&mut self) -> (r: Result<(), JournalError>)
        ensures
            final(self)@ == old(self)@,
            old(self).journal().flushes(final(self).journal(), r),
    {
        self.sink.flush()
    }

    /// Push the journal's buffered records on and make them durable.
    pub fn sync(&mut self) -> (r: Result<(), JournalError>)
        ensures
            final(self)@ == old(self)@,
            old(self).journal().syncs(final(self).journal(), r),
    {
        self.sink.sync()
    }

    pub fn kernel(&self) -> (r: &Kernel)
        ensures
            r@ == self@.kernel,
    {
        &self.kernel
    }

    /// Events applied since this sequencer was made.
    pub fn applied(&self) -> (r: u64)
        ensures
            r == self@.applied,
    {
        self.applied
    }
}

/// One record read back from a journal.
#[derive(Clone, Debug)]
pub struct Frame {
    pub seq: u64,
    pub kind: u16,
    pub payload: Vec<u8>,
}

/// Where reading a journal stopped.
#[derive(Clone, Copy, Debug, PartialEq, Eq, Structural)]
pub enum ReplayStop {
    /// At its end.
    End,
    /// At a record that was never finished.
    TornTail { at_offset: u64 },
}

/// A run rebuilt from records.
#[verifier::ext_equal]
pub struct Replay {
    pub kernel: KernelView,
    pub outputs: Seq<Output>,
    pub undecodable: nat,
}

/// What a frame records.
pub open spec fn record_of(frame: Frame) -> Record {
    (frame.kind, frame.payload@)
}

/// The records of a run of frames.
pub open spec fn records_of(frames: Seq<Frame>) -> Seq<Record> {
    frames.map_values(|f: Frame| record_of(f))
}

/// A kernel fed every record it can decode, in order, and the count of those
/// it cannot.
pub open spec fn replayed(start: KernelView, records: Seq<Record>) -> Replay
    decreases records.len(),
{
    if records.len() == 0 {
        Replay { kernel: start, outputs: Seq::empty(), undecodable: 0 }
    } else {
        let before = replayed(start, records.drop_last());
        match decoded(records.last().0, records.last().1) {
            Some(event) => {
                let step = before.kernel.apply(event);
                Replay {
                    kernel: step.kernel,
                    outputs: before.outputs + step.outputs,
                    ..before
                }
            },
            None => Replay { undecodable: before.undecodable + 1, ..before },
        }
    }
}

/// What a replay reconstructed.
#[derive(Debug)]
pub struct ReplayResult {
    pub kernel: Kernel,
    pub outputs: Vec<Output>,
    pub events: usize,
    /// Records this build could not decode. Non-zero means the reconstruction
    /// is incomplete.
    pub undecodable: usize,
    pub stop: ReplayStop,
}

impl ReplayResult {
    /// What the reconstruction is of.
    pub open spec fn rebuilds(&self, start: KernelView, records: Seq<Record>, stop: ReplayStop) -> bool {
        let replay = replayed(start, records);
        &&& self.kernel@ == replay.kernel
        &&& self.outputs@ == replay.outputs
        &&& self.events == records.len()
        &&& self.undecodable == replay.undecodable
        &&& self.stop == stop
    }

    /// Whether every record was understood.
    pub fn is_complete(&self) -> (r: bool)
        ensures
            r == (self.undecodable == 0),
    {
        self.undecodable == 0
    }
}

/// A fresh kernel around a state.
pub open spec fn fresh(state: State) -> KernelView {
    KernelView { state: state@, working: Seq::empty(), depth: None }
}

/// Rebuild state by replaying a journal's records into a fresh kernel. A
/// journal that ends in a record never finished is replayed up to it; one that
/// holds a record this build cannot decode is refused, because a
/// reconstruction that skipped it is not the run that happened.
pub fn replay(state: State, frames: &[Frame], stop: ReplayStop) -> (r: Result<
    ReplayResult,
    JournalError,
>)
    requires
        state@.wf(),
    ensures
        match r {
            Ok(result) => {
                &&& replayed(fresh(state), records_of(frames@)).undecodable == 0
                &&& result.rebuilds(fresh(state), records_of(frames@), stop)
            },
            Err(e) => {
                &&& replayed(fresh(state), records_of(frames@)).undecodable > 0
                &&& e == (JournalError::Corrupt {
                    at_offset: 0,
                    cause: FrameError::UnknownVersion { found: u16::MAX },
                })
            },
        },
{
    let result = replay_tolerating_unknown(state, frames, stop);
    if result.undecodable > 0 {
        return Err(
            JournalError::Corrupt {
                at_offset: 0,
                cause: FrameError::UnknownVersion { found: u16::MAX },
            },
        );
    }
    Ok(result)
}

/// Replay, accepting records this build cannot decode. For forensics on a
/// journal written by a newer build, never for recovery: the state returned is
/// not the state that ran.
pub fn replay_tolerating_unknown(state: State, frames: &[Frame], stop: ReplayStop) -> (r:
    ReplayResult)
    requires
        state@.wf(),
    ensures
        r.rebuilds(fresh(state), records_of(frames@), stop),
        r.kernel@.wf(),
{
    let ghost start = fresh(state);
    let ghost records = records_of(frames@);
    let mut kernel = Kernel::new(state);
    let mut outputs: Vec<Output> = Vec::new();
    let mut undecodable: usize = 0;
    let mut i: usize = 0;
    assert(records.subrange(0, 0) =~= Seq::<Record>::empty());
    while i < frames.len()
        invariant
            i <= frames@.len(),
            records == records_of(frames@),
            kernel@.wf(),
            undecodable <= i,
            (Replay {
                kernel: kernel@,
                outputs: outputs@,
                undecodable: undecodable as nat,
            }) == replayed(start, records.subrange(0, i as int)),
        decreases frames@.len() - i,
    {
        proof {
            let now = records.subrange(0, i + 1);
            assert(now.drop_last() =~= records.subrange(0, i as int));
            assert(now.last() == record_of(frames@[i as int]));
        }
        match Event::decode(frames[i].kind, frames[i].payload.as_slice()) {
            Some(event) => {
                let said = kernel.apply(&event);
                append_outputs(&mut outputs, said);
            },
            None => {
                undecodable = undecodable + 1;
            },
        }
        i += 1;
    }
    assert(records.subrange(0, i as int) =~= records);
    ReplayResult { kernel, outputs, events: frames.len(), undecodable, stop }
}

/// Add a run of outputs to another.
pub fn append_outputs(to: &mut Vec<Output>, from: &Vec<Output>)
    ensures
        final(to)@ == old(to)@ + from@,
{
    let ghost start = to@;
    let mut i: usize = 0;
    while i < from.len()
        invariant
            i <= from@.len(),
            to@ == start + from@.subrange(0, i as int),
        decreases from@.len() - i,
    {
        to.push(from[i]);
        i += 1;
        assert(to@ =~= start + from@.subrange(0, i as int));
    }
    assert(to@ =~= start + from@);
}

/// A run and its journal: the events applied, and the records of them.
pub open spec fn journal_of(events: Seq<EventView>) -> Seq<Record> {
    events.map_values(|e: EventView| (e.kind(), e.encoded()))
}

/// A kernel fed a run of events, and everything it produced.
pub open spec fn ran(start: KernelView, events: Seq<EventView>) -> Step
    decreases events.len(),
{
    if events.len() == 0 {
        start.start()
    } else {
        let before = ran(start, events.drop_last());
        let step = before.kernel.apply(events.last());
        Step { kernel: step.kernel, outputs: before.outputs + step.outputs }
    }
}

/// A replay of a journal reproduces the run that wrote it exactly: the same
/// state, the same outputs in the same order, and nothing left undecoded.
pub proof fn law_a_replay_reproduces_the_run(start: KernelView, events: Seq<EventView>)
    requires
        forall|i: int| 0 <= i < events.len() ==> (#[trigger] events[i]).encodable(),
    ensures
        replayed(start, journal_of(events)) == (Replay {
            kernel: ran(start, events).kernel,
            outputs: ran(start, events).outputs,
            undecodable: 0,
        }),
    decreases events.len(),
{
    if events.len() > 0 {
        let rest = events.drop_last();
        assert forall|i: int| 0 <= i < rest.len() implies (#[trigger] rest[i]).encodable() by {
            assert(rest[i] == events[i]);
        }
        law_a_replay_reproduces_the_run(start, rest);
        assert(journal_of(events).drop_last() =~= journal_of(rest));
        assert(events[events.len() - 1].encodable());
        law_round_trip(events.last());
    }
}

/// A record that cannot be decoded adds to the count and changes nothing else.
pub proof fn law_an_unknown_record_is_counted(start: KernelView, records: Seq<Record>, r: Record)
    requires
        decoded(r.0, r.1) is None,
    ensures
        replayed(start, records.push(r)) == (Replay {
            undecodable: replayed(start, records).undecodable + 1,
            ..replayed(start, records)
        }),
{
    assert(records.push(r).drop_last() =~= records);
}

/// The journal is always as far along as the kernel: a run whose submissions
/// were all recorded is the run its journal replays to.
pub proof fn law_the_journal_keeps_up(start: KernelView, s: SequencerView, event: EventView)
    requires
        event.encodable(),
        replayed(start, s.records).undecodable == 0,
        replayed(start, s.records).kernel == s.kernel,
    ensures
        ({
            let records = s.records.push((event.kind(), event.encoded()));
            let after = s.kernel.apply(event);
            &&& replayed(start, records).undecodable == 0
            &&& replayed(start, records).kernel == after.kernel
            &&& replayed(start, records).outputs == replayed(start, s.records).outputs
                + after.outputs
        }),
{
    let records = s.records.push((event.kind(), event.encoded()));
    assert(records.drop_last() =~= s.records);
    law_round_trip(event);
}

/// A journal kept in memory refuses no event.
pub proof fn law_memory_refuses_nothing(
    sink: MemorySink,
    event: EventView,
    then: MemorySink,
    why: JournalError,
)
    ensures
        !refuses(sink, event, then, why),
{
}

} // verus!
