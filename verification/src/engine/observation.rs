//! One arrival on a run's input stream.
use crate::engine::tick::Tick;
use crate::types::quotient;
use crate::venue::depth::{DepthUpdate, DepthView, Level};
use vstd::prelude::*;
use vstd::std_specs::convert::FromSpecImpl;

verus! {

/// One arrival on a run's input stream.
#[derive(Clone, Debug)]
pub enum Observation {
    /// A market observation. The strategy sees this.
    Tick(Tick),
    /// A depth update. The matcher reads it; the strategy is not called,
    /// because a book is a matcher's input and not a signal.
    Depth(Box<DepthUpdate>),
    /// The snapshot an incremental stream is sequenced against.
    Snapshot {
        /// The update id the snapshot was taken at.
        update_id: u64,
        bids: Vec<Level>,
        asks: Vec<Level>,
    },
}

/// What an arrival says.
#[verifier::ext_equal]
pub enum ObservationView {
    Tick(Tick),
    Depth(DepthView),
    Snapshot { update_id: u64, bids: Seq<Level>, asks: Seq<Level> },
}

impl View for Observation {
    type V = ObservationView;

    open spec fn view(&self) -> ObservationView {
        match *self {
            Observation::Tick(t) => ObservationView::Tick(t),
            Observation::Depth(u) => ObservationView::Depth(u@),
            Observation::Snapshot { update_id, bids, asks } => ObservationView::Snapshot {
                update_id,
                bids: bids@,
                asks: asks@,
            },
        }
    }
}

impl FromSpecImpl<Tick> for Observation {
    open spec fn obeys_from_spec() -> bool {
        true
    }

    open spec fn from_spec(t: Tick) -> Self {
        Observation::Tick(t)
    }
}

impl From<Tick> for Observation {
    fn from(t: Tick) -> (r: Self) {
        Observation::Tick(t)
    }
}

impl FromSpecImpl<DepthUpdate> for Observation {
    open spec fn obeys_from_spec() -> bool {
        true
    }

    open spec fn from_spec(u: DepthUpdate) -> Self {
        Observation::Depth(Box::new(u))
    }
}

impl From<DepthUpdate> for Observation {
    fn from(u: DepthUpdate) -> (r: Self) {
        Observation::Depth(Box::new(u))
    }
}

impl Observation {
    /// The exchange time this arrival carries, in milliseconds, for ordering a
    /// merge. A snapshot has none: it is a starting state rather than an
    /// event.
    pub fn at_ms(&self) -> (r: Option<i64>)
        ensures
            r == (match self@ {
                ObservationView::Tick(t) => Some(
                    quotient(t.stamp.exch.0 as int, 1_000_000) as i64,
                ),
                ObservationView::Depth(u) => Some(u.event_ms),
                ObservationView::Snapshot { .. } => None,
            }),
    {
        match self {
            Observation::Tick(t) => {
                let ms: i128 = crate::types::truncated_div(t.stamp.exch.0 as i128, 1_000_000);
                Some(ms as i64)
            },
            Observation::Depth(u) => Some(u.event_ms),
            Observation::Snapshot { .. } => None,
        }
    }
}

} // verus!
