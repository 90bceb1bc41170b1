//! One kernel per instrument, sharing nothing.
//!
//! This is isolated margin: one balance per instrument, and a position that
//! exhausts its own balance is liquidated while the others continue. Shards
//! are stepped in order here; running them on separate threads is the host's
//! decision, and safe because they share nothing.
use crate::ledger::event::{Event, EventView};
use crate::ledger::kernel::{Kernel, KernelView, Output, RejectReason, State};
use crate::ledger::sequencer::{append_outputs, fresh};
use crate::types::{InstrumentId, OrderId};
use vstd::prelude::*;

verus! {

/// Several independent kernels, addressed by instrument.
#[derive(Debug)]
pub struct Shards {
    instruments: Vec<InstrumentId>,
    shards: Vec<Kernel>,
    outputs: Vec<Output>,
}

/// What a set of shards holds: for each, its instrument and its kernel.
#[verifier::ext_equal]
pub struct ShardsView {
    pub instruments: Seq<InstrumentId>,
    pub kernels: Seq<KernelView>,
}

/// A set of shards and what an event has made it produce.
#[verifier::ext_equal]
pub struct ShardStep {
    pub shards: ShardsView,
    pub outputs: Seq<Output>,
}

/// The instruments a run of states trades.
pub open spec fn instruments_of(states: Seq<State>) -> Seq<InstrumentId> {
    states.map_values(|s: State| s.engine@.base().instrument)
}

/// The instrument an event addresses. Observations and orders may name one; a
/// cancel does not, because an order id is unique only within a shard.
pub open spec fn addressed(named: Option<InstrumentId>, event: EventView) -> Option<InstrumentId> {
    match event {
        EventView::Tick(_) | EventView::Submit { .. } => named,
        _ => None,
    }
}

/// The order an event concerns.
pub open spec fn order_concerned(event: EventView) -> Option<OrderId> {
    match event {
        EventView::Submit { id, .. } => Some(id),
        EventView::Cancel { id, .. } => Some(id),
        _ => None,
    }
}

impl ShardsView {
    /// One shard to an instrument, and every kernel sound.
    pub open spec fn wf(self) -> bool {
        &&& self.instruments.len() == self.kernels.len()
        &&& self.instruments.no_duplicates()
        &&& forall|i: int| 0 <= i < self.kernels.len() ==> (#[trigger] self.kernels[i]).wf()
    }

    /// Whether shard `i` holds an instrument.
    pub open spec fn held_by(self, i: int, instrument: InstrumentId) -> bool {
        0 <= i < self.instruments.len() && self.instruments[i] == instrument
    }

    /// The shard an instrument is held by.
    pub open spec fn holder(self, instrument: InstrumentId) -> Option<int> {
        if exists|i: int| self.held_by(i, instrument) {
            Some(choose|i: int| self.held_by(i, instrument))
        } else {
            None
        }
    }

    /// The shard an event belongs to: the one holding the instrument it names,
    /// or, for an event naming none, the only one.
    pub open spec fn route(self, named: Option<InstrumentId>, event: EventView) -> Option<int> {
        match addressed(named, event) {
            Some(instrument) => self.holder(instrument),
            None => if self.kernels.len() == 1 {
                Some(0int)
            } else {
                None
            },
        }
    }

    /// What an event does: it reaches the shard it belongs to and no other,
    /// and one that belongs to none is refused.
    pub open spec fn apply(self, named: Option<InstrumentId>, event: EventView) -> ShardStep {
        match self.route(named, event) {
            Some(i) => {
                let step = self.kernels[i].apply(event);
                ShardStep {
                    shards: ShardsView { kernels: self.kernels.update(i, step.kernel), ..self },
                    outputs: step.outputs,
                }
            },
            None => ShardStep {
                shards: self,
                outputs: seq![
                    Output::Rejected {
                        id: match order_concerned(event) {
                            Some(id) => id,
                            None => OrderId(0),
                        },
                        reason: RejectReason::UnroutableObservation,
                    },
                ],
            },
        }
    }
}

impl View for Shards {
    type V = ShardsView;

    closed spec fn view(&self) -> ShardsView {
        ShardsView {
            instruments: self.instruments@,
            kernels: self.shards@.map_values(|k: Kernel| k@),
        }
    }
}

proof fn lemma_holder(s: ShardsView, i: int, instrument: InstrumentId)
    requires
        s.wf(),
        s.held_by(i, instrument),
    ensures
        s.holder(instrument) == Some(i),
{
    let j = choose|j: int| s.held_by(j, instrument);
    assert(s.held_by(j, instrument));
    assert(s.instruments[i] == s.instruments[j]);
}

impl Shards {
    /// Whether each state trades an instrument of its own. Two shards for one
    /// instrument would each hold a position in it and neither would be the
    /// account's.
    pub fn distinct(states: &Vec<State>) -> (r: bool)
        ensures
            r == instruments_of(states@).no_duplicates(),
    {
        let ghost ids = instruments_of(states@);
        let mut i: usize = 0;
        while i < states.len()
            invariant
                i <= states@.len(),
                ids == instruments_of(states@),
                forall|a: int, b: int| 0 <= a < b < i ==> ids[a] != ids[b],
            decreases states@.len() - i,
        {
            let mine = states[i].engine.instrument();
            let mut j: usize = 0;
            while j < i
                invariant
                    j <= i < states@.len(),
                    ids == instruments_of(states@),
                    mine == ids[i as int],
                    forall|a: int| 0 <= a < j ==> ids[a] != mine,
                decreases i - j,
            {
                if states[j].engine.instrument() == mine {
                    assert(ids[j as int] == ids[i as int]);
                    return false;
                }
                j += 1;
            }
            i += 1;
        }
        true
    }

    /// One shard per state.
    pub fn new(states: Vec<State>) -> (r: Self)
        requires
            instruments_of(states@).no_duplicates(),
            forall|i: int| 0 <= i < states@.len() ==> (#[trigger] states@[i])@.wf(),
        ensures
            r@ == (ShardsView {
                instruments: instruments_of(states@),
                kernels: states@.map_values(|s: State| fresh(s)),
            }),
            r@.wf(),
    {
        let ghost all = states@;
        let mut left = states;
        let mut instruments: Vec<InstrumentId> = Vec::new();
        let mut shards: Vec<Kernel> = Vec::new();
        while left.len() > 0
            invariant
                left@ == all.subrange(instruments@.len() as int, all.len() as int),
                instruments@.len() == shards@.len(),
                instruments@.len() <= all.len(),
                instruments@ == instruments_of(all).subrange(0, instruments@.len() as int),
                forall|i: int| 0 <= i < shards@.len() ==> (#[trigger] shards@[i])@ == fresh(all[i]),
            decreases left@.len(),
        {
            let ghost at = instruments@.len() as int;
            assert(left@[0] == all[at]);
            let state = left.remove(0);
            assert(left@ =~= all.subrange(at + 1, all.len() as int));
            instruments.push(state.engine.instrument());
            assert(instruments@ =~= instruments_of(all).subrange(0, at + 1));
            shards.push(Kernel::new(state));
        }
        let r = Shards { instruments, shards, outputs: Vec::new() };
        proof {
            assert(r@.instruments =~= instruments_of(all));
            assert(r@.kernels =~= all.map_values(|s: State| fresh(s)));
        }
        r
    }

    /// How many shards there are.
    pub fn len(&self) -> (r: usize)
        ensures
            r == self@.kernels.len(),
    {
        self.shards.len()
    }

    pub fn is_empty(&self) -> (r: bool)
        ensures
            r == (self@.kernels.len() == 0),
    {
        self.shards.len() == 0
    }

    /// Where the shard holding an instrument stands.
    fn place(&self, instrument: InstrumentId) -> (r: Option<usize>)
        requires
            self@.wf(),
        ensures
            match r {
                Some(i) => i < self@.kernels.len() && self@.holder(instrument) == Some(i as int),
                None => self@.holder(instrument) is None,
            },
    {
        let mut i: usize = 0;
        while i < self.instruments.len()
            invariant
                i <= self.instruments@.len(),
                self@.wf(),
                forall|j: int| 0 <= j < i ==> !#[trigger] self@.held_by(j, instrument),
            decreases self.instruments@.len() - i,
        {
            if self.instruments[i] == instrument {
                proof {
                    assert(self@.held_by(i as int, instrument));
                    lemma_holder(self@, i as int, instrument);
                }
                return Some(i);
            }
            i += 1;
        }
        None
    }

    /// The shard holding an instrument.
    pub fn shard(&self, instrument: InstrumentId) -> (r: Option<&Kernel>)
        requires
            self@.wf(),
        ensures
            match r {
                Some(k) => self@.holder(instrument) matches Some(i) && k@ == self@.kernels[i],
                None => self@.holder(instrument) is None,
            },
    {
        match self.place(instrument) {
            Some(i) => {
                let k = &self.shards[i];
                assert(k@ == self@.kernels[i as int]);
                Some(k)
            },
            None => None,
        }
    }

    /// The shard holding an instrument, mutably.
    pub fn shard_mut(&mut self, instrument: InstrumentId) -> (r: Option<&mut Kernel>)
        requires
            old(self)@.wf(),
        ensures
            match r {
                Some(k) => old(self)@.holder(instrument) matches Some(i) && {
                    &&& k@ == old(self)@.kernels[i]
                    &&& final(self)@ == (ShardsView {
                        kernels: old(self)@.kernels.update(i, final(k)@),
                        ..old(self)@
                    })
                },
                None => old(self)@.holder(instrument) is None && final(self)@ == old(self)@,
            },
    {
        match self.place(instrument) {
            Some(i) => Some(&mut self.shards[i]),
            None => None,
        }
    }

    /// Every shard, in the order they were given.
    pub fn iter(&self) -> (r: &Vec<Kernel>)
        ensures
            r@.map_values(|k: Kernel| k@) == self@.kernels,
    {
        &self.shards
    }

    /// Apply an event to the shard it addresses. `named` is the instrument an
    /// observation or an order names.
    pub fn apply(&mut self, named: Option<InstrumentId>, event: &Event) -> (r: &Vec<Output>)
        requires
            old(self)@.wf(),
        ensures
            (ShardStep { shards: final(self)@, outputs: r@ }) == old(self)@.apply(named, event@),
            final(self)@.wf(),
    {
        let ghost start = self@;
        self.outputs.clear();
        match self.route(named, event) {
            None => {
                let id = match event {
                    Event::Submit { id, .. } => *id,
                    Event::Cancel { id, .. } => *id,
                    _ => OrderId(0),
                };
                self.outputs.push(
                    Output::Rejected { id, reason: RejectReason::UnroutableObservation },
                );
                assert(self.outputs@ =~= start.apply(named, event@).outputs);
            },
            Some(i) => {
                assert(start.kernels[i as int].wf());
                let said = self.shards[i].apply(event);
                append_outputs(&mut self.outputs, said);
                proof {
                    let step = start.kernels[i as int].apply(event@);
                    assert(self@.kernels =~= start.kernels.update(i as int, step.kernel));
                    assert(self.outputs@ =~= step.outputs);
                }
            },
        }
        &self.outputs
    }

    /// Which shard an event belongs to.
    fn route(&self, named: Option<InstrumentId>, event: &Event) -> (r: Option<usize>)
        requires
            self@.wf(),
        ensures
            match r {
                Some(i) => i < self@.kernels.len() && self@.route(named, event@) == Some(i as int),
                None => self@.route(named, event@) is None,
            },
    {
        let target = match event {
            Event::Tick(_) => named,
            Event::Submit { .. } => named,
            _ => None,
        };
        match target {
            Some(instrument) => self.place(instrument),
            None => if self.shards.len() == 1 {
                Some(0)
            } else {
                None
            },
        }
    }
}

/// What happens in one shard does not reach another.
pub proof fn law_shards_share_nothing(
    s: ShardsView,
    named: Option<InstrumentId>,
    event: EventView,
    other: int,
)
    requires
        s.wf(),
        0 <= other < s.kernels.len(),
        s.route(named, event) != Some(other),
    ensures
        s.apply(named, event).shards.kernels[other] == s.kernels[other],
        s.apply(named, event).shards.kernels.len() == s.kernels.len(),
{
    if let Some(instrument) = addressed(named, event) {
        if exists|i: int| s.held_by(i, instrument) {
            let i = choose|i: int| s.held_by(i, instrument);
            assert(s.held_by(i, instrument));
        }
    }
}

/// The order in which events reach different shards does not matter.
pub proof fn law_interleaving_changes_nothing(
    s: ShardsView,
    first: Option<InstrumentId>,
    a: EventView,
    second: Option<InstrumentId>,
    b: EventView,
)
    requires
        s.wf(),
        s.route(first, a) != s.route(second, b),
    ensures
        s.apply(first, a).shards.apply(second, b).shards == s.apply(second, b).shards.apply(
            first,
            a,
        ).shards,
        s.apply(second, b).shards.apply(first, a).outputs == s.apply(first, a).outputs,
        s.apply(first, a).shards.apply(second, b).outputs == s.apply(second, b).outputs,
{
    lemma_routes_stand(s, first, a, second, b);
    lemma_routes_stand(s, second, b, first, a);
    lemma_route_in_range(s, first, a);
    lemma_route_in_range(s, second, b);
    match (s.route(first, a), s.route(second, b)) {
        (Some(i), Some(j)) => {
            let x = s.kernels[i].apply(a).kernel;
            let y = s.kernels[j].apply(b).kernel;
            assert(s.kernels.update(i, x)[j] == s.kernels[j]);
            assert(s.kernels.update(j, y)[i] == s.kernels[i]);
            assert(s.kernels.update(i, x).update(j, y) =~= s.kernels.update(j, y).update(i, x));
        },
        _ => {},
    }
}

proof fn lemma_route_in_range(s: ShardsView, named: Option<InstrumentId>, event: EventView)
    requires
        s.wf(),
    ensures
        s.route(named, event) matches Some(i) ==> 0 <= i < s.kernels.len(),
{
    if let Some(instrument) = addressed(named, event) {
        if exists|i: int| s.held_by(i, instrument) {
            let i = choose|i: int| s.held_by(i, instrument);
            assert(s.held_by(i, instrument));
        }
    }
}

/// Applying an event moves no shard, so every other event goes where it went.
proof fn lemma_routes_stand(
    s: ShardsView,
    first: Option<InstrumentId>,
    a: EventView,
    second: Option<InstrumentId>,
    b: EventView,
)
    requires
        s.wf(),
    ensures
        s.apply(first, a).shards.route(second, b) == s.route(second, b),
{
    let t = s.apply(first, a).shards;
    lemma_route_in_range(s, first, a);
    if let Some(instrument) = addressed(second, b) {
        assert forall|i: int| t.held_by(i, instrument) == s.held_by(i, instrument) by {}
        if exists|i: int| s.held_by(i, instrument) {
            let i = choose|i: int| s.held_by(i, instrument);
            assert(t.held_by(i, instrument));
            lemma_holder(s, i, instrument);
            let j = choose|j: int| t.held_by(j, instrument);
            assert(t.held_by(j, instrument));
            assert(s.held_by(j, instrument));
            lemma_holder(s, j, instrument);
        }
    }
}

/// An observation or an order that names an instrument reaches the shard that
/// holds it, which does what it would do alone; one that names an instrument
/// no shard holds is refused, and reaches none.
pub proof fn law_an_event_reaches_its_instrument(
    s: ShardsView,
    instrument: InstrumentId,
    event: EventView,
)
    requires
        s.wf(),
        event is Tick || event is Submit,
    ensures
        forall|i: int|
            0 <= i < s.instruments.len() && #[trigger] s.instruments[i] == instrument ==> {
                let step = s.apply(Some(instrument), event);
                &&& step.shards.kernels[i] == s.kernels[i].apply(event).kernel
                &&& step.outputs == s.kernels[i].apply(event).outputs
                &&& step.shards.instruments == s.instruments
            },
        !s.instruments.contains(instrument) ==> {
            let step = s.apply(Some(instrument), event);
            &&& step.shards == s
            &&& step.outputs.len() == 1
            &&& step.outputs[0] matches Output::Rejected { id, reason }
                && reason == RejectReason::UnroutableObservation && (event matches EventView::Submit {
                id: sent,
                ..
            } ==> id == sent)
        },
{
    assert forall|i: int|
        0 <= i < s.instruments.len() && #[trigger] s.instruments[i] == instrument implies {
        let step = s.apply(Some(instrument), event);
        &&& step.shards.kernels[i] == s.kernels[i].apply(event).kernel
        &&& step.outputs == s.kernels[i].apply(event).outputs
        &&& step.shards.instruments == s.instruments
    } by {
        assert(s.held_by(i, instrument));
        lemma_holder(s, i, instrument);
    }
    if !s.instruments.contains(instrument) {
        if exists|i: int| s.held_by(i, instrument) {
            let i = choose|i: int| s.held_by(i, instrument);
            assert(s.instruments[i] == instrument);
        }
    }
}

/// An event that names no instrument reaches the only shard there is; where
/// there are more it is refused, with the order it concerns.
pub proof fn law_an_unaddressed_event_needs_one_shard(s: ShardsView, event: EventView)
    requires
        s.wf(),
    ensures
        s.kernels.len() == 1 ==> s.apply(None, event).shards.kernels[0] == s.kernels[0].apply(
            event,
        ).kernel && s.apply(None, event).outputs == s.kernels[0].apply(event).outputs,
        s.kernels.len() != 1 ==> {
            let step = s.apply(None, event);
            &&& step.shards == s
            &&& step.outputs.len() == 1
            &&& step.outputs[0] matches Output::Rejected { id, reason }
                && reason == RejectReason::UnroutableObservation && (event matches EventView::Cancel {
                id: sent,
                ..
            } ==> id == sent)
        },
{
}

} // verus!
