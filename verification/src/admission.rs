use vstd::prelude::*;

verus! {

/// The Admission Controller: a bounded counting semaphore's accounting,
/// verified as a state machine. It bounds how many (projection, search,
/// verification) pipelines are in flight at once, so resource use tracks the
/// configured concurrency, not the incoming transaction rate. The blocking
/// wait around it is the caller's concern; the accounting here guarantees
/// the bound itself.
#[derive(Clone, Copy, PartialEq, Eq, Structural, Debug)]
pub struct AdmissionController {
    capacity: u64,
    in_flight: u64,
}

impl AdmissionController {
    /// How many pipelines may run at once.
    pub closed spec fn capacity(self) -> u64 {
        self.capacity
    }

    /// How many slots are taken right now.
    pub closed spec fn in_flight(self) -> u64 {
        self.in_flight
    }

    /// The controller's invariant: active pipelines never exceed capacity.
    pub open spec fn wf(self) -> bool {
        self.in_flight() <= self.capacity()
    }

    pub fn new(capacity: u64) -> (s: Self)
        ensures
            s.wf(),
            s.capacity() == capacity,
            s.in_flight() == 0,
    {
        AdmissionController { capacity, in_flight: 0 }
    }

    /// Take a slot if one is free. Grants exactly when a slot is free; a
    /// denied caller's state is unchanged, so it can retry (or park) without
    /// having disturbed the count.
    pub fn try_acquire(&mut self) -> (granted: bool)
        requires
            old(self).wf(),
        ensures
            final(self).wf(),
            granted == (old(self).in_flight() < old(self).capacity()),
            final(self).capacity() == old(self).capacity(),
            granted ==> final(self).in_flight() == old(self).in_flight() + 1,
            !granted ==> final(self).in_flight() == old(self).in_flight(),
    {
        if self.in_flight < self.capacity {
            self.in_flight = self.in_flight + 1;
            true
        } else {
            false
        }
    }

    /// Free a slot. Release is total — it never fails and never underflows —
    /// so a pipeline that errors or is abandoned can always free its slot.
    pub fn release(&mut self)
        requires
            old(self).wf(),
        ensures
            final(self).wf(),
            final(self).capacity() == old(self).capacity(),
            final(self).in_flight() == if old(self).in_flight() > 0 {
                (old(self).in_flight() - 1) as u64
            } else {
                0u64
            },
    {
        if self.in_flight > 0 {
            self.in_flight = self.in_flight - 1;
        }
    }
}

/// At every instant of every run, at most `capacity` pipelines hold a slot:
/// the invariant `wf` is established by `new` and preserved by both
/// operations, so any reachable controller state satisfies this bound.
pub proof fn lemma_admission_bounded(a: AdmissionController)
    requires
        a.wf(),
    ensures
        a.in_flight() <= a.capacity(),
{
}

} // verus!
