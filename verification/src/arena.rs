//! A fixed-slot slab arena for one tier. Slots are numbered from 1 (index 0
//! is the permanent null slot); storage grows one slot at a time as the bump
//! cursor moves, and freed slots are recycled last-in first-out. The
//! reserved capacity bounds how many slots may ever be created.

use crate::bytes_le::zero_bytes;
use vstd::prelude::*;
use vstd::seq_lib::*;
use vstd::set_lib::{lemma_int_range, lemma_len_subset, set_int_range};

verus! {

pub struct SubArena {
    slot_size: usize,
    capacity: u32,
    data: Vec<u8>,
    next_index: u32,
    free_list: Vec<u32>,
    active_count: u32,
}

/// The capacity a reservation of `gb` gibibytes gives an arena of
/// `slot_size`-byte slots, clipped so indices stay below the 32-bit range.
pub open spec fn spec_capacity_for(slot_size: int, gb: int) -> int {
    let raw = gb * 0x4000_0000 / slot_size;
    if raw > 0xffff_fffe {
        0xffff_fffe
    } else {
        raw
    }
}

impl SubArena {
    pub closed spec fn slot_size(self) -> int {
        self.slot_size as int
    }

    pub closed spec fn capacity(self) -> int {
        self.capacity as int
    }

    /// Slots 0 (the null slot) through `num_slots() - 1` exist in storage.
    pub closed spec fn num_slots(self) -> int {
        self.next_index as int
    }

    pub closed spec fn free_count(self) -> int {
        self.free_list@.len() as int
    }

    pub closed spec fn active(self) -> int {
        self.active_count as int
    }

    /// The freed slots still awaiting reuse, oldest first: reuse pops
    /// from the back.
    pub closed spec fn free_slots(self) -> Seq<u32> {
        self.free_list@
    }

    pub closed spec fn free_listed(self, i: int) -> bool {
        exists|k: int| 0 <= k < self.free_list@.len() && self.free_list@[k] as int == i
    }

    /// A slot the allocator has handed out and not taken back.
    pub open spec fn is_live(self, i: int) -> bool {
        1 <= i < self.num_slots() && !self.free_listed(i)
    }

    /// The bytes of slot `i`.
    pub closed spec fn slot(self, i: int) -> Seq<u8> {
        self.data@.subrange(i * self.slot_size(), (i + 1) * self.slot_size())
    }

    pub closed spec fn wf(self) -> bool {
        &&& 1 <= self.slot_size <= 65536
        &&& self.capacity <= 0xffff_fffe
        &&& 1 <= self.next_index
        &&& self.next_index as int <= self.capacity as int + 1
        &&& self.data@.len() == self.num_slots() * self.slot_size()
        &&& forall|k: int|
            0 <= k < self.free_list@.len() ==> 1 <= #[trigger] self.free_list@[k] < self.next_index
        &&& self.free_list@.no_duplicates()
        &&& self.active_count as int == self.num_slots() - 1 - self.free_count()
    }

    pub fn new(slot_size: usize, reserved_size_gb: usize) -> (r: Self)
        requires
            1 <= slot_size <= 65536,
            reserved_size_gb <= 65536,
        ensures
            r.wf(),
            r.slot_size() == slot_size,
            r.capacity() == spec_capacity_for(slot_size as int, reserved_size_gb as int),
            r.num_slots() == 1,
            r.free_count() == 0,
            r.active() == 0,
            forall|i: int| !r.is_live(i),
    {
        let reserved: u64 = (reserved_size_gb as u64) * 0x4000_0000;
        let cap64: u64 = reserved / (slot_size as u64);
        let capacity: u32 = if cap64 > 0xffff_fffe {
            0xffff_fffe
        } else {
            cap64 as u32
        };
        let mut data: Vec<u8> = Vec::new();
        let mut j: usize = 0;
        while j < slot_size
            invariant
                j <= slot_size,
                data@.len() == j,
            decreases slot_size - j,
        {
            data.push(0);
            j = j + 1;
        }
        let r = SubArena {
            slot_size,
            capacity,
            data,
            next_index: 1,
            free_list: Vec::new(),
            active_count: 0,
        };
        proof {
            assert(r.data@.len() == 1 * r.slot_size()) by (nonlinear_arith)
                requires
                    r.data@.len() == r.slot_size(),
            ;
        }
        r
    }

    pub fn get_slot_size(&self) -> (r: usize)
        ensures
            r as int == self.slot_size(),
    {
        self.slot_size
    }

    pub fn free_list_len(&self) -> (r: usize)
        ensures
            r as int == self.free_count(),
    {
        self.free_list.len()
    }

    pub fn active_slots(&self) -> (r: u32)
        ensures
            r as int == self.active(),
    {
        self.active_count
    }

    pub fn slots_created(&self) -> (r: u32)
        ensures
            r as int == self.num_slots(),
    {
        self.next_index
    }

    /// Allocates a slot: recycles the most recently freed one, or moves the
    /// bump cursor and grows storage. The slot comes back zeroed; no live
    /// slot is disturbed.
    pub fn alloc_slot(&mut self) -> (idx: u32)
        requires
            old(self).wf(),
            old(self).free_count() > 0 || (old(self).num_slots() <= old(self).capacity() && (old(
                self,
            ).num_slots() + 1) * old(self).slot_size() <= usize::MAX),
        ensures
            final(self).wf(),
            final(self).slot_size() == old(self).slot_size(),
            final(self).capacity() == old(self).capacity(),
            idx != 0,
            !old(self).is_live(idx as int),
            final(self).is_live(idx as int),
            forall|i: int| final(self).is_live(i) <==> (old(self).is_live(i) || i == idx as int),
            forall|i: int| old(self).is_live(i) ==> final(self).slot(i) == old(self).slot(i),
            final(self).slot(idx as int) == zero_bytes(old(self).slot_size()),
            final(self).active() == old(self).active() + 1,
            old(self).free_count() > 0 ==> final(self).num_slots() == old(self).num_slots()
                && final(self).free_count() == old(self).free_count() - 1 && idx == old(self).free_slots().last() && final(self).free_slots() == old(self).free_slots().drop_last(),
            old(self).free_count() == 0 ==> final(self).num_slots() == old(self).num_slots() + 1
                && final(self).free_count() == 0 && idx as int == old(self).num_slots() && final(self).free_slots() == old(self).free_slots(),
    {
        let ss = self.slot_size;
        let popped = self.free_list.pop();
        let idx: u32;
        match popped {
            Some(recycled) => {
                idx = recycled;
                proof {
                    let last = old(self).free_list@.len() - 1;
                    assert(old(self).free_list@[last] == recycled);
                    assert(old(self).free_listed(recycled as int));
                    lemma_slot_range(idx as int, self.next_index as int, ss as int);
                }
                let dlen = self.data.len();
                let start = (idx as usize) * ss;
                let mut j: usize = 0;
                while j < ss
                    invariant
                        j <= ss,
                        old(self).free_list@.len() > 0,
                        start + ss <= dlen,
                        self.data@.len() == dlen,
                        self.data@.len() == old(self).data@.len(),
                        forall|p: int|
                            0 <= p < self.data@.len() && !(start <= p < start + j) ==> self.data@[p]
                                == old(self).data@[p],
                        forall|p: int| start <= p < start + j ==> self.data@[p] == 0,
                        self.slot_size == old(self).slot_size,
                        self.capacity == old(self).capacity,
                        self.next_index == old(self).next_index,
                        self.active_count == old(self).active_count,
                        self.free_list@ == old(self).free_list@.drop_last(),
                        ss == self.slot_size,
                        start == idx as int * ss,
                    decreases ss - j,
                {
                    self.data.set(start + j, 0);
                    j = j + 1;
                }
                self.active_count = self.active_count + 1;
                proof {
                    let pre = *old(self);
                    let last = pre.free_list@.len() - 1;
                    // The popped index is no longer listed, and nothing else
                    // changed its listing.
                    assert forall|i: int|
                        self.free_listed(i) <==> (pre.free_listed(i) && i != idx as int) by {
                        if self.free_listed(i) {
                            let k = choose|k: int|
                                0 <= k < self.free_list@.len() && self.free_list@[k] as int == i;
                            assert(pre.free_list@[k] as int == i);
                            assert(pre.free_list@[k] != pre.free_list@[last] || k == last);
                        }
                        if pre.free_listed(i) && i != idx as int {
                            let k = choose|k: int|
                                0 <= k < pre.free_list@.len() && pre.free_list@[k] as int == i;
                            assert(k != last);
                            assert(self.free_list@[k] as int == i);
                        }
                    }
                    assert(self.free_list@.no_duplicates()) by {
                        assert(forall|a: int, b: int|
                            0 <= a < b < self.free_list@.len() ==> pre.free_list@[a]
                                != pre.free_list@[b]);
                    }
                    assert(self.slot(idx as int) =~= zero_bytes(pre.slot_size()));
                    assert forall|i: int| pre.is_live(i) implies self.slot(i) == pre.slot(i) by {
                        lemma_slot_range(i, pre.num_slots(), pre.slot_size());
                        lemma_slots_disjoint(i, idx as int, pre.slot_size());
                        assert(self.slot(i) =~= pre.slot(i));
                    }
                }
            },
            None => {
                idx = self.next_index;
                proof {
                    assert(old(self).free_list@.len() == 0);
                    lemma_slot_range(idx as int, self.next_index as int + 1, ss as int);
                }
                self.next_index = self.next_index + 1;
                let mut j: usize = 0;
                while j < ss
                    invariant
                        j <= ss,
                        self.data@.len() == old(self).data@.len() + j,
                        forall|p: int|
                            0 <= p < old(self).data@.len() ==> self.data@[p] == old(self).data@[p],
                        forall|p: int|
                            old(self).data@.len() <= p < self.data@.len() ==> self.data@[p] == 0,
                        self.slot_size == old(self).slot_size,
                        self.capacity == old(self).capacity,
                        self.next_index as int == old(self).next_index as int + 1,
                        self.active_count == old(self).active_count,
                        self.free_list@ == old(self).free_list@,
                        ss == self.slot_size,
                        idx == old(self).next_index,
                    decreases ss - j,
                {
                    self.data.push(0);
                    j = j + 1;
                }
                self.active_count = self.active_count + 1;
                proof {
                    let pre = *old(self);
                    let n = pre.num_slots();
                    lemma_slot_range(n, n + 1, pre.slot_size());
                    assert(self.data@.len() == self.num_slots() * self.slot_size());
                    assert(self.slot(idx as int) =~= zero_bytes(pre.slot_size()));
                    assert forall|i: int| pre.is_live(i) implies self.slot(i) == pre.slot(i) by {
                        lemma_slot_range(i, n, pre.slot_size());
                        assert(self.slot(i) =~= pre.slot(i));
                    }
                }
            },
        }
        idx
    }

    /// Returns a live slot to the free list. Freeing the null slot does
    /// nothing. Slot contents are untouched.
    pub fn free(&mut self, idx: u32)
        requires
            old(self).wf(),
            idx == 0 || old(self).is_live(idx as int),
        ensures
            final(self).wf(),
            final(self).slot_size() == old(self).slot_size(),
            final(self).capacity() == old(self).capacity(),
            final(self).num_slots() == old(self).num_slots(),
            idx == 0 ==> *final(self) == *old(self),
            forall|i: int|
                0 <= i < old(self).num_slots() ==> final(self).slot(i) == old(self).slot(i),
            idx != 0 ==> forall|i: int|
                final(self).is_live(i) <==> (old(self).is_live(i) && i != idx as int),
            idx != 0 ==> final(self).free_count() == old(self).free_count() + 1 && final(self).active() == old(self).active() - 1 && final(self).free_slots() == old(self).free_slots().push(idx),
            idx == 0 ==> final(self).free_count() == old(self).free_count() && final(self).active()
                == old(self).active(),
    {
        if idx == 0 {
            return ;
        }
        proof {
            lemma_free_list_not_full(*old(self), idx as int);
        }
        self.free_list.push(idx);
        self.active_count = self.active_count - 1;
        proof {
            let pre = *old(self);
            let last = self.free_list@.len() - 1;
            assert forall|i: int|
                self.free_listed(i) <==> (pre.free_listed(i) || i == idx as int) by {
                if self.free_listed(i) {
                    let k = choose|k: int|
                        0 <= k < self.free_list@.len() && self.free_list@[k] as int == i;
                    if k < last {
                        assert(pre.free_list@[k] as int == i);
                        assert(pre.free_listed(i));
                    }
                }
                if pre.free_listed(i) {
                    let k = choose|k: int|
                        0 <= k < pre.free_list@.len() && pre.free_list@[k] as int == i;
                    assert(self.free_list@[k] as int == i);
                }
                if i == idx as int {
                    assert(self.free_list@[last] as int == i);
                }
            }
            assert(self.free_list@.no_duplicates()) by {
                assert forall|a: int, b: int|
                    0 <= a < b < self.free_list@.len() implies self.free_list@[a]
                    != self.free_list@[b] by {
                    if b < last {
                        assert(pre.free_list@[a] != pre.free_list@[b]);
                    } else {
                        assert(self.free_list@[b] == idx);
                        if pre.free_list@[a] == idx {
                            assert(pre.free_listed(idx as int));
                        }
                    }
                }
            }
        }
    }

    /// Copies out the bytes of a slot.
    pub fn read_slot(&self, idx: u32) -> (out: Vec<u8>)
        requires
            self.wf(),
            0 <= (idx as int) < self.num_slots(),
        ensures
            out@ == self.slot(idx as int),
            out@.len() == self.slot_size(),
    {
        proof {
            lemma_slot_range(idx as int, self.num_slots(), self.slot_size());
        }
        let ss = self.slot_size;
        let dlen = self.data.len();
        let start = (idx as usize) * ss;
        let mut out: Vec<u8> = Vec::new();
        let mut j: usize = 0;
        while j < ss
            invariant
                j <= ss,
                start + ss <= dlen,
                self.data@.len() == dlen,
                out@.len() == j,
                forall|p: int| 0 <= p < j ==> out@[p] == self.data@[start + p],
                ss == self.slot_size,
                start == idx as int * ss,
            decreases ss - j,
        {
            out.push(self.data[start + j]);
            j = j + 1;
        }
        proof {
            assert(out@ =~= self.slot(idx as int));
        }
        out
    }

    /// Writes `src` into the front of a slot; the slot's remaining bytes
    /// stay as they were, and no other slot is disturbed.
    pub fn write_slot(&mut self, idx: u32, src: &Vec<u8>)
        requires
            old(self).wf(),
            1 <= (idx as int) < old(self).num_slots(),
            src@.len() <= old(self).slot_size(),
        ensures
            final(self).wf(),
            final(self).slot_size() == old(self).slot_size(),
            final(self).capacity() == old(self).capacity(),
            final(self).num_slots() == old(self).num_slots(),
            final(self).free_count() == old(self).free_count(),
            final(self).active() == old(self).active(),
            forall|i: int| final(self).is_live(i) <==> old(self).is_live(i),
            final(self).slot(idx as int) == src@ + old(self).slot(idx as int).skip(
                src@.len() as int,
            ),
            forall|i: int|
                0 <= i < old(self).num_slots() && i != idx as int ==> final(self).slot(i) == old(
                    self,
                ).slot(i),
    {
        proof {
            lemma_slot_range(idx as int, old(self).num_slots(), old(self).slot_size());
        }
        let ss = self.slot_size;
        let dlen = self.data.len();
        let start = (idx as usize) * ss;
        let n = src.len();
        let mut j: usize = 0;
        while j < n
            invariant
                j <= n,
                n == src@.len(),
                n <= ss,
                start + ss <= dlen,
                self.data@.len() == dlen,
                self.data@.len() == old(self).data@.len(),
                forall|p: int|
                    0 <= p < self.data@.len() && !(start <= p < start + j) ==> self.data@[p] == old(
                        self,
                    ).data@[p],
                forall|p: int| 0 <= p < j ==> self.data@[start + p] == src@[p],
                self.slot_size == old(self).slot_size,
                self.capacity == old(self).capacity,
                self.next_index == old(self).next_index,
                self.active_count == old(self).active_count,
                self.free_list@ == old(self).free_list@,
                ss == self.slot_size,
                start == idx as int * ss,
            decreases n - j,
        {
            self.data.set(start + j, src[j]);
            j = j + 1;
        }
        proof {
            assert(self.slot(idx as int) =~= src@ + old(self).slot(idx as int).skip(
                src@.len() as int,
            ));
            assert forall|i: int|
                0 <= i < old(self).num_slots() && i != idx as int implies self.slot(i) == old(
                self,
            ).slot(i) by {
                lemma_slots_disjoint(i, idx as int, old(self).slot_size());
                lemma_slot_range(i, old(self).num_slots(), old(self).slot_size());
                assert(self.slot(i) =~= old(self).slot(i));
            }
        }
    }
}

/// The pending-reuse count is the length of the freed-slot sequence.
pub proof fn lemma_free_slots_count(a: SubArena)
    ensures
        a.free_count() == a.free_slots().len(),
        a.free_count() >= 0,
        a.num_slots() >= 0,
        a.active() >= 0,
{
}

/// A slot's byte range lies inside storage that holds `n` slots.
proof fn lemma_slot_range(i: int, n: int, ss: int)
    requires
        0 <= i < n,
        1 <= ss,
    ensures
        0 <= i * ss,
        i * ss + ss == (i + 1) * ss,
        (i + 1) * ss <= n * ss,
{
    assert(0 <= i * ss && i * ss + ss == (i + 1) * ss && (i + 1) * ss <= n * ss)
        by (nonlinear_arith)
        requires
            0 <= i < n,
            1 <= ss,
    ;
}

/// Distinct slots occupy disjoint byte ranges.
proof fn lemma_slots_disjoint(i: int, j: int, ss: int)
    requires
        0 <= i,
        0 <= j,
        i != j,
        1 <= ss,
    ensures
        (i + 1) * ss <= j * ss || (j + 1) * ss <= i * ss,
{
    assert((i + 1) * ss <= j * ss || (j + 1) * ss <= i * ss) by (nonlinear_arith)
        requires
            0 <= i,
            0 <= j,
            i != j,
            1 <= ss,
    ;
}

/// A duplicate-free list of slot indices in `1..num_slots` that misses the
/// live slot `excl` leaves at least one slot unlisted.
proof fn lemma_free_list_not_full(a: SubArena, excl: int)
    requires
        a.wf(),
        a.is_live(excl),
    ensures
        a.free_count() <= a.num_slots() - 2,
{
    let fl = a.free_list@;
    let ints = fl.map_values(|x: u32| x as int);
    assert(ints.no_duplicates()) by {
        assert forall|i: int, j: int| 0 <= i < j < ints.len() implies ints[i] != ints[j] by {
            assert(fl[i] != fl[j]);
        }
    }
    ints.unique_seq_to_set();
    let range = set_int_range(1, a.num_slots()).remove(excl);
    lemma_int_range(1, a.num_slots());
    assert(ints.to_set().subset_of(range)) by {
        assert forall|x: int| ints.to_set().contains(x) implies range.contains(x) by {
            let k = choose|k: int| 0 <= k < ints.len() && ints[k] == x;
            assert(1 <= fl[k] < a.num_slots());
            if fl[k] as int == excl {
                assert(a.free_listed(excl));
            }
        }
    }
    lemma_len_subset(ints.to_set(), range);
    assert(range.len() == a.num_slots() - 2) by {
        assert(set_int_range(1, a.num_slots()).contains(excl));
    }
}

} // verus!
