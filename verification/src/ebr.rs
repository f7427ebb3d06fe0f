//! Epoch-based deferred reclamation for data slots. Three epochs rotate;
//! a reader guard pins the epoch it entered, a writer retires replaced
//! slots into the current epoch's list, and an epoch's list is handed back
//! for freeing only once the epoch two steps behind has no readers left.

use vstd::prelude::*;

verus! {

/// A data slot awaiting reclamation: the tier it belongs to and its index
/// there.
#[derive(Clone, Copy, PartialEq, Eq, Structural, Debug)]
pub struct RetiredSlot {
    pub pool_id: u8,
    pub offset: u32,
}

pub struct EbrState {
    current_epoch: usize,
    active_counts: Vec<u64>,
    retired: Vec<Vec<RetiredSlot>>,
}

pub struct AsyncEbr {
    state: EbrState,
}

/// A scoped acquisition of reader protection, pinned to one epoch.
pub struct Guard {
    epoch: usize,
}

impl Guard {
    pub closed spec fn epoch(self) -> int {
        self.epoch as int
    }
}

/// The epoch whose retired list the next successful advance reclaims.
pub open spec fn prev_epoch(e: int) -> int {
    (e + 2) % 3
}

/// The epoch an advance moves to.
pub open spec fn next_epoch(e: int) -> int {
    (e + 1) % 3
}

impl AsyncEbr {
    pub closed spec fn epoch(self) -> int {
        self.state.current_epoch as int
    }

    pub closed spec fn count(self, e: int) -> int {
        self.state.active_counts@[e] as int
    }

    pub closed spec fn retired(self, e: int) -> Seq<RetiredSlot> {
        self.state.retired@[e]@
    }

    pub closed spec fn wf(self) -> bool {
        &&& self.state.current_epoch < 3
        &&& self.state.active_counts@.len() == 3
        &&& self.state.retired@.len() == 3
    }

    pub fn new() -> (r: Self)
        ensures
            r.wf(),
            r.epoch() == 0,
            forall|e: int| 0 <= e < 3 ==> r.count(e) == 0,
            forall|e: int| 0 <= e < 3 ==> r.retired(e).len() == 0,
    {
        let mut active_counts: Vec<u64> = Vec::new();
        active_counts.push(0);
        active_counts.push(0);
        active_counts.push(0);
        let mut retired: Vec<Vec<RetiredSlot>> = Vec::new();
        retired.push(Vec::new());
        retired.push(Vec::new());
        retired.push(Vec::new());
        AsyncEbr { state: EbrState { current_epoch: 0, active_counts, retired } }
    }

    /// Takes a reader guard pinned to the current epoch.
    pub fn enter(&mut self) -> (g: Guard)
        requires
            old(self).wf(),
            old(self).count(old(self).epoch()) < 0xffff_ffff_ffff_ffff,
        ensures
            final(self).wf(),
            g.epoch() == old(self).epoch(),
            0 <= g.epoch() < 3,
            final(self).epoch() == old(self).epoch(),
            final(self).count(g.epoch()) == old(self).count(g.epoch()) + 1,
            forall|e: int| 0 <= e < 3 && e != g.epoch() ==> final(self).count(e) == old(self).count(e),
            forall|e: int| 0 <= e < 3 ==> final(self).retired(e) == old(self).retired(e),
    {
        let epoch = self.state.current_epoch;
        let c = self.state.active_counts[epoch];
        self.state.active_counts.set(epoch, c + 1);
        Guard { epoch }
    }

    /// Records a replaced slot in the guard's epoch's retired list.
    pub fn retire(&mut self, g: &Guard, pool_id: u8, offset: u32)
        requires
            old(self).wf(),
            0 <= g.epoch() < 3,
        ensures
            final(self).wf(),
            final(self).epoch() == old(self).epoch(),
            forall|e: int| 0 <= e < 3 ==> final(self).count(e) == old(self).count(e),
            final(self).retired(g.epoch()) == old(self).retired(g.epoch()).push(
                RetiredSlot { pool_id, offset },
            ),
            forall|e: int|
                0 <= e < 3 && e != g.epoch() ==> final(self).retired(e) == old(self).retired(e),
    {
        let mut list = self.state.retired.remove(g.epoch);
        list.push(RetiredSlot { pool_id, offset });
        self.state.retired.insert(g.epoch, list);
        proof {
            assert forall|e: int|
                0 <= e < 3 && e != g.epoch() implies final(self).retired(e) == old(self).retired(
                e,
            ) by {
                assert(self.state.retired@[e] == old(self).state.retired@[e]);
            }
        }
    }

    /// Attempts an epoch advance: if the epoch two steps behind has no
    /// active readers, the current epoch moves forward and that epoch's
    /// retired slots are handed back to the caller for freeing.
    pub fn try_advance_epoch(&mut self) -> (drained: Vec<RetiredSlot>)
        requires
            old(self).wf(),
        ensures
            final(self).wf(),
            forall|e: int| 0 <= e < 3 ==> final(self).count(e) == old(self).count(e),
            old(self).count(prev_epoch(old(self).epoch())) == 0 ==> final(self).epoch()
                == next_epoch(old(self).epoch()) && drained@ == old(self).retired(
                prev_epoch(old(self).epoch()),
            ) && final(self).retired(prev_epoch(old(self).epoch())).len() == 0 && forall|e: int|
                0 <= e < 3 && e != prev_epoch(old(self).epoch()) ==> final(self).retired(e) == old(
                    self,
                ).retired(e),
            old(self).count(prev_epoch(old(self).epoch())) != 0 ==> *final(self) == *old(self)
                && drained@.len() == 0,
    {
        let curr = self.state.current_epoch;
        let next = (curr + 1) % 3;
        let prev = (curr + 2) % 3;
        if self.state.active_counts[prev] == 0 {
            self.state.current_epoch = next;
            let drained = self.state.retired.remove(prev);
            self.state.retired.insert(prev, Vec::new());
            proof {
                assert forall|e: int|
                    0 <= e < 3 && e != prev_epoch(old(self).epoch()) implies final(self).retired(e)
                    == old(self).retired(e) by {
                    assert(self.state.retired@[e] == old(self).state.retired@[e]);
                }
            }
            drained
        } else {
            Vec::new()
        }
    }

    /// Releases a reader guard: its epoch's reader count drops, then an
    /// advance is attempted; any slots drained by that advance are handed
    /// back for freeing.
    pub fn exit(&mut self, g: Guard) -> (drained: Vec<RetiredSlot>)
        requires
            old(self).wf(),
            0 <= g.epoch() < 3,
            old(self).count(g.epoch()) > 0,
        ensures
            final(self).wf(),
            forall|e: int|
                0 <= e < 3 ==> final(self).count(e) == if e == g.epoch() {
                    old(self).count(e) - 1
                } else {
                    old(self).count(e)
                },
            ({
                let prev = prev_epoch(old(self).epoch());
                let remaining = if prev == g.epoch() {
                    old(self).count(prev) - 1
                } else {
                    old(self).count(prev)
                };
                if remaining == 0 {
                    final(self).epoch() == next_epoch(old(self).epoch()) && drained@ == old(
                        self,
                    ).retired(prev) && final(self).retired(prev).len() == 0 && forall|e: int|
                        0 <= e < 3 && e != prev ==> final(self).retired(e) == old(self).retired(e)
                } else {
                    final(self).epoch() == old(self).epoch() && drained@.len() == 0 && forall|
                        e: int,
                    |
                        0 <= e < 3 ==> final(self).retired(e) == old(self).retired(e)
                }
            }),
    {
        let c = self.state.active_counts[g.epoch];
        self.state.active_counts.set(g.epoch, c - 1);
        self.try_advance_epoch()
    }
}

/// A well-formed scheme's current epoch is one of the three.
pub proof fn lemma_ebr_epoch_bound(a: AsyncEbr)
    requires
        a.wf(),
    ensures
        0 <= a.epoch() < 3,
{
}

} // verus!
