//! The double-buffered handoff between the simulation tick loop and the
//! render loop: two fixed slots, a writable-slot tracker owned by the
//! writer alone, and slot-index messages that name the readable slot.
use vstd::prelude::*;

use crate::params::{EngineParams, TriangleBuffer};

verus! {

/// One published frame: the geometry and the parameters of a tick, to be
/// applied together.
pub struct FrameSnapshot {
    pub buffer: TriangleBuffer,
    pub params: EngineParams,
}

/// The message the writer sends after each tick: which slot is now
/// readable, the tick's parameters, and a sequence counter so that a
/// reader draining a backlog keeps only the newest.
#[derive(Clone, Copy, Debug, PartialEq, Eq)]
pub struct SlotMessage {
    pub slot: u32,
    pub seq: u64,
    pub params: EngineParams,
}

/// The writer's view of the double buffer: which of the two slots it may
/// write next, and the tick counter.
pub struct FrameHandoff {
    writable: u32,
    seq: u64,
}

impl FrameHandoff {
    /// The slot the writer owns and may write next.
    pub closed spec fn spec_writable(self) -> u32 {
        self.writable
    }

    /// How many ticks have been published.
    pub closed spec fn spec_seq(self) -> u64 {
        self.seq
    }

    /// The tracker always names one of the two slots.
    pub closed spec fn wf(self) -> bool {
        self.writable < 2
    }

    /// A fresh handoff: slot 0 writable, nothing published.
    pub fn new() -> (r: FrameHandoff)
        ensures
            r.wf(),
            r.spec_writable() == 0,
            r.spec_seq() == 0,
    {
        FrameHandoff { writable: 0, seq: 0 }
    }

    /// Publishes the tick the writer has just written into its writable
    /// slot: the message names exactly that slot as readable, and the
    /// tracker flips, so the message never names the slot the writer will
    /// write next. Race freedom rests on this clause: a reader applying
    /// the message reads a slot the writer no longer owns.
    pub fn publish(&mut self, params: EngineParams) -> (msg: SlotMessage)
        requires
            old(self).wf(),
            old(self).spec_seq() < u64::MAX,
        ensures
            final(self).wf(),
            msg.slot == old(self).spec_writable(),
            final(self).spec_writable() == 1 - old(self).spec_writable(),
            msg.slot != final(self).spec_writable(),
            msg.seq == old(self).spec_seq() + 1,
            final(self).spec_seq() == msg.seq,
            msg.params == params,
    {
        let msg = SlotMessage { slot: self.writable, seq: self.seq + 1, params };
        self.writable = 1 - self.writable;
        self.seq = self.seq + 1;
        msg
    }
}

/// The slot the writer owns after `n` publishes, starting from `w0`.
pub open spec fn writable_after(w0: u32, n: nat) -> int
    decreases n,
{
    if n == 0 {
        w0 as int
    } else {
        1 - writable_after(w0, (n - 1) as nat)
    }
}

/// Slot alternation, for every number of ticks: publishes strictly
/// alternate between the two slots, the message of tick `n` (counting from
/// one) names the slot the writer owned before that tick, and that slot
/// differs from the one the writer owns afterwards. A reader holding the
/// newest message therefore never reads the slot under mutation, whichever
/// tick it last saw.
pub proof fn lemma_slot_alternation(w0: u32, n: nat)
    requires
        w0 < 2,
    ensures
        writable_after(w0, n) == if n % 2 == 0 {
            w0 as int
        } else {
            1 - w0
        },
        0 <= writable_after(w0, n) < 2,
        writable_after(w0, n) != writable_after(w0, n + 1),
    decreases n,
{
    if n > 0 {
        lemma_slot_alternation(w0, (n - 1) as nat);
    }
}

/// Drains a backlog of slot messages, returning the newest: the one whose
/// sequence counter is largest, the latest such on a tie. Returns nothing
/// only on an empty backlog.
pub fn select_latest(messages: &Vec<SlotMessage>) -> (r: Option<SlotMessage>)
    ensures
        (messages@.len() == 0) <==> (r is None),
        r matches Some(m) ==> exists|i: int|
            {
                &&& 0 <= i < messages@.len()
                &&& messages@[i] == m
                &&& forall|j: int| i < j < messages@.len() ==> (#[trigger] messages@[j]).seq < m.seq
            },
        r matches Some(m) ==> forall|i: int|
            0 <= i < messages@.len() ==> (#[trigger] messages@[i]).seq <= m.seq,
{
    if messages.len() == 0 {
        return None;
    }
    let mut best = messages[0];
    let ghost mut bi: int = 0;
    let mut i: usize = 1;
    while i < messages.len()
        invariant
            1 <= i <= messages@.len(),
            0 <= bi < i,
            messages@[bi] == best,
            forall|j: int| 0 <= j < i ==> (#[trigger] messages@[j]).seq <= best.seq,
            forall|j: int| bi < j < i ==> (#[trigger] messages@[j]).seq < best.seq,
        decreases messages@.len() - i,
    {
        if messages[i].seq >= best.seq {
            best = messages[i];
            proof {
                bi = i as int;
            }
        }
        i = i + 1;
    }
    Some(best)
}

/// The tick pacing rule: how long to sleep after a tick whose work took
/// `work_ns`, and whether the tick lagged. The sleep is never negative:
/// when the work ran over the period the loop proceeds at once and only
/// reports the lag.
pub fn tick_sleep_duration(tick_period_ns: u64, work_ns: u64) -> (r: (u64, bool))
    ensures
        r.0 == if work_ns >= tick_period_ns {
            0int
        } else {
            tick_period_ns - work_ns
        },
        r.1 == (work_ns > tick_period_ns),
{
    if work_ns >= tick_period_ns {
        (0, work_ns > tick_period_ns)
    } else {
        (tick_period_ns - work_ns, false)
    }
}

} // verus!
