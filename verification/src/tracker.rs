use vstd::prelude::*;
use crate::{ButtonLabel, MouseEvent};

verus! {

/// A timeline's timestamps never decrease: insertion order is chronological
/// order.
pub open spec fn monotone(s: Seq<MouseEvent>) -> bool {
    forall|i: int, j: int| 0 <= i <= j < s.len() ==> s[i].time_us <= s[j].time_us
}

/// The recorder: owns the live timeline while a recording is in progress.
pub struct Tracker {
    events: Vec<MouseEvent>,
}

impl View for Tracker {
    type V = Seq<MouseEvent>;

    closed spec fn view(&self) -> Seq<MouseEvent> {
        self.events@
    }
}

impl Tracker {
    /// A fresh recorder holds an empty timeline.
    pub fn new() -> (t: Tracker)
        ensures
            t@ == Seq::<MouseEvent>::empty(),
    {
        Tracker { events: Vec::new() }
    }

    /// Pushes one sample onto the live timeline. Iteration order is exactly
    /// insertion order: the new timeline is the old one with the sample at
    /// the end. Never fails.
    pub fn add_event(&mut self, x: i32, y: i32, button: Option<ButtonLabel>, time_us: u64)
        ensures
            final(self)@ == old(self)@.push(MouseEvent { x, y, button, time_us }),
    {
        self.events.push(MouseEvent { x, y, button, time_us });
    }

    /// Atomically detaches and returns the current timeline, leaving a fresh
    /// empty one behind. Any later `add_event` lands in the fresh timeline,
    /// never in the returned one.
    pub fn take(&mut self) -> (t: Vec<MouseEvent>)
        ensures
            t@ == old(self)@,
            final(self)@ == Seq::<MouseEvent>::empty(),
    {
        let mut out: Vec<MouseEvent> = Vec::new();
        core::mem::swap(&mut out, &mut self.events);
        out
    }

    /// How many samples the live timeline holds.
    pub fn len(&self) -> (n: usize)
        ensures
            n == self@.len(),
    {
        self.events.len()
    }
}

/// Appending a sample no earlier than the last one preserves the timeline
/// invariant: timestamps stay monotonically non-decreasing.
pub proof fn lemma_append_preserves_order(s: Seq<MouseEvent>, e: MouseEvent)
    requires
        monotone(s),
        s.len() > 0 ==> s.last().time_us <= e.time_us,
    ensures
        monotone(s.push(e)),
{
    assert forall|i: int, j: int| 0 <= i <= j < s.push(e).len() implies
        s.push(e)[i].time_us <= s.push(e)[j].time_us
    by {
        if j < s.len() {
        } else if i < s.len() {
            assert(s[i].time_us <= s[s.len() - 1].time_us);
        }
    }
}

} // verus!
