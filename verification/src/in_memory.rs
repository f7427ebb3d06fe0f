//! The account store: a metadata word per caller-chosen handle, sixteen
//! tiered data arenas, an identifier registry, a fixed owner table, and
//! epoch-based reclamation of replaced data slots.

use crate::arena::SubArena;
use crate::bytes_le::{lemma_le32_roundtrip, push_range, spec_le32, spec_u32_bytes, zero_bytes};
use crate::ebr::{next_epoch, prev_epoch, AsyncEbr, Guard, RetiredSlot};
use crate::meta16b::{
    encode_lamports_rent, lemma_flag_orthogonality, lemma_meta_field_bounds, meta_flags,
    spec_flags_executable, spec_flags_token, spec_get_lamports, spec_get_rent_epoch,
    spec_meta_flags, Meta16B,
};
use crate::pubkey::Pubkey;
use crate::pubkey_registry::{
    distinct_keys, key_index, lemma_key_index_prefix, lemma_prefix_lookup, lemma_prefix_trans,
    lemma_register_frame, spec_register, spec_registered_id, PubkeyRegistry,
};
use crate::spl_compressor::{
    canonical_token, close_pk, delegate_pk, has_close_auth, has_delegate,
    lemma_compress_roundtrip, lemma_decompress_stable, mint_pk, owner_pk, reg1, reg2, reg3,
    spec_close_id, spec_compress_payload, spec_decompress, spec_delegate_id, spec_mint_id,
    spec_owner_id, spec_reg_after, spec_tier, spec_token_flags, SPLCompressor,
};
use crate::tiers::{lemma_pool_id_smallest, pool_id_for_len, spec_pool_id, spec_tier_size, tier_size};
use vstd::prelude::*;

verus! {

pub struct AccountInfo {
    pub lamports: u64,
    pub owner: Pubkey,
    pub data: Vec<u8>,
    pub rent_epoch: u64,
    pub executable: bool,
}

/// The logical content of one stored account, as reads observe it.
pub struct RecordModel {
    pub lamports: u64,
    pub rent_epoch: u64,
    pub owner: Pubkey,
    pub data: Seq<u8>,
    pub executable: bool,
}

pub struct InMemoryAccountsDb {
    pub meta_words: Vec<u128>,
    pub pools: Vec<SubArena>,
    pub pubkey_registry: PubkeyRegistry,
    pub owner_registry: Vec<u32>,
    pub ebr: AsyncEbr,
}

/// The owner table: cell 0 stays free so that a written metadata word is
/// never all zero; a nonzero cell holds an interned handle plus one; no
/// handle sits in two cells; claimed cells form a prefix of the table.
pub open spec fn owner_table_wf(cells: Seq<u32>, keys: Seq<Pubkey>) -> bool {
    &&& cells.len() == 65536
    &&& cells[0] == 0
    &&& forall|i: int| 0 <= i < 65536 ==> #[trigger] cells[i] == 0 || cells[i] - 1 < keys.len()
    &&& forall|i: int, j: int|
        0 <= i < j < 65536 && cells[i] != 0 && cells[j] != 0 ==> cells[i] != cells[j]
    &&& forall|i: int, j: int| 1 <= i < j < 65536 && #[trigger] cells[j] != 0 ==> #[trigger] cells[i] != 0
}

/// Identifier handles a compressed payload mentions stay below `n`, so a
/// registry that only grows resolves them the same way forever.
pub open spec fn ids_bounded(c: Seq<u8>, n: int, p: int) -> bool {
    &&& spec_le32(c.subrange(0, 4)) < n
    &&& spec_le32(c.subrange(4, 8)) < n
    &&& (p == 3 ==> spec_le32(c.subrange(32, 36)) < n && spec_le32(c.subrange(36, 40)) < n)
}

impl InMemoryAccountsDb {
    pub open spec fn keys(self) -> Seq<Pubkey> {
        self.pubkey_registry.keys()
    }

    pub open spec fn cells(self) -> Seq<u32> {
        self.owner_registry@
    }

    pub open spec fn meta_at(self, h: int) -> Meta16B {
        Meta16B { word: self.meta_words@[h] }
    }

    /// A handle a successful store has written.
    pub open spec fn live_handle(self, h: int) -> bool {
        0 <= h < self.meta_words@.len() && self.meta_words@[h] != 0
    }

    pub open spec fn handle_pool(self, h: int) -> int {
        self.meta_at(h).spec_data_pool_id() as int
    }

    pub open spec fn handle_offset(self, h: int) -> int {
        self.meta_at(h).spec_data_offset() as int
    }

    /// The owner identifier a live handle's metadata resolves to.
    pub open spec fn handle_owner(self, h: int) -> Pubkey {
        let oi = self.meta_at(h).spec_owner_idx() as int;
        let cell = self.cells()[oi];
        if cell != 0 && cell - 1 < self.keys().len() {
            self.keys()[cell - 1]
        } else {
            Pubkey::spec_zero()
        }
    }

    /// What a live handle's metadata word must satisfy.
    pub open spec fn word_wf(self, h: int) -> bool {
        let m = self.meta_at(h);
        let oi = m.spec_owner_idx() as int;
        let p = self.handle_pool(h);
        let off = self.handle_offset(h);
        &&& 1 <= oi < 65536
        &&& self.cells()[oi] != 0
        &&& p == 0 ==> off == 0
        &&& p != 0 ==> off != 0 && self.pools@[p].is_live(off)
        &&& (1 <= p <= 3 && self.handle_owner(h) == Pubkey::spec_token_program_id()
            ==> ids_bounded(self.pools@[p].slot(off), self.keys().len() as int, p))
    }

    pub open spec fn pools_ok(self) -> bool {
        &&& self.pools@.len() == 16
        &&& forall|p: int| 0 <= p < 16 ==> (#[trigger] self.pools@[p]).wf()
        &&& forall|p: int| 1 <= p < 16 ==> (#[trigger] self.pools@[p]).slot_size() == spec_tier_size(p)
        &&& self.pools@[0].slot_size() == 8
    }

    /// No two live handles point at the same data slot.
    pub open spec fn refs_disjoint(self) -> bool {
        forall|h1: int, h2: int|
            #![trigger self.handle_offset(h1), self.handle_offset(h2)]
            self.live_handle(h1) && self.live_handle(h2) && h1 != h2 && self.handle_pool(h1) != 0
                && self.handle_pool(h2) != 0 ==> !(self.handle_pool(h1) == self.handle_pool(h2)
                && self.handle_offset(h1) == self.handle_offset(h2))
    }

    pub open spec fn retired_item_ok(self, it: RetiredSlot) -> bool {
        &&& 1 <= it.pool_id < 16
        &&& it.offset != 0
        &&& self.pools@[it.pool_id as int].is_live(it.offset as int)
    }

    /// Retired slots are live (not yet freed), pairwise distinct, and not
    /// referenced by any live metadata word.
    pub open spec fn retired_wf(self) -> bool {
        &&& forall|e: int, k: int|
            0 <= e < 3 && 0 <= k < self.ebr.retired(e).len() ==> self.retired_item_ok(
                #[trigger] self.ebr.retired(e)[k],
            )
        &&& forall|e1: int, k1: int, e2: int, k2: int|
            0 <= e1 < 3 && 0 <= k1 < self.ebr.retired(e1).len() && 0 <= e2 < 3 && 0 <= k2
                < self.ebr.retired(e2).len() && (e1 != e2 || k1 != k2) ==> !((
            #[trigger] self.ebr.retired(e1)[k1]).pool_id == (
            #[trigger] self.ebr.retired(e2)[k2]).pool_id && self.ebr.retired(e1)[k1].offset
                == self.ebr.retired(e2)[k2].offset)
        &&& forall|e: int, k: int, h: int|
            0 <= e < 3 && 0 <= k < self.ebr.retired(e).len() && self.live_handle(h)
                && self.handle_pool(h) != 0 ==> !((#[trigger] self.ebr.retired(e)[k]).pool_id as int
                == self.handle_pool(h) && self.ebr.retired(e)[k].offset as int
                == #[trigger] self.handle_offset(h))
    }

    pub open spec fn wf(self) -> bool {
        &&& self.pools_ok()
        &&& self.pubkey_registry.wf()
        &&& owner_table_wf(self.cells(), self.keys())
        &&& forall|h: int| self.live_handle(h) ==> self.word_wf(h)
        &&& self.refs_disjoint()
        &&& self.retired_wf()
        &&& self.ebr.wf()
        &&& forall|e: int| 0 <= e < 3 ==> self.ebr.count(e) == 0
    }

    /// The record a handle holds, as a pure function of the state: the
    /// mixed lamports field decoded, the owner resolved through the owner
    /// table and registry, and the data slot read back — decompressed when
    /// the owner is the well-known token program and the tier is a
    /// compressed one.
    pub open spec fn record_at(self, h: int) -> Option<RecordModel> {
        if !self.live_handle(h) {
            None
        } else {
            let m = self.meta_at(h);
            let v = m.spec_lamports_rent();
            let owner = self.handle_owner(h);
            let p = self.handle_pool(h);
            let off = self.handle_offset(h);
            let fl = m.spec_flags();
            let data = if p == 0 {
                Seq::<u8>::empty()
            } else {
                let raw = self.pools@[p].slot(off);
                if owner == Pubkey::spec_token_program_id() && 1 <= p <= 3 {
                    spec_decompress(p as u8, raw, spec_flags_token(fl), self.keys())
                } else {
                    raw
                }
            };
            Some(
                RecordModel {
                    lamports: spec_get_lamports(v),
                    rent_epoch: spec_get_rent_epoch(v),
                    owner,
                    data,
                    executable: spec_flags_executable(fl),
                },
            )
        }
    }

    pub fn new() -> (r: Self)
        ensures
            r.wf(),
            forall|h: int| r.record_at(h) is None,
            r.keys().len() == 0,
            forall|i: int| 0 <= i < 65536 ==> r.cells()[i] == 0,
            r.meta_words@.len() == 0,
            r.ebr.epoch() == 0,
            forall|e: int| 0 <= e < 3 ==> r.ebr.retired(e).len() == 0 && r.ebr.count(e) == 0,
            forall|p: int|
                0 <= p < 16 ==> (#[trigger] r.pools@[p]).num_slots() == 1 && r.pools@[p].free_count()
                    == 0 && r.pools@[p].active() == 0,
    {
        let mut pools: Vec<SubArena> = Vec::new();
        let mut i: usize = 0;
        while i < 16
            invariant
                i <= 16,
                pools@.len() == i,
                forall|p: int| 0 <= p < i ==> (#[trigger] pools@[p]).wf(),
                forall|p: int| 1 <= p < i ==> (#[trigger] pools@[p]).slot_size() == spec_tier_size(p),
                i > 0 ==> pools@[0].slot_size() == 8,
                forall|p: int, s: int| 0 <= p < i ==> !#[trigger] pools@[p].is_live(s),
                forall|p: int| 0 <= p < i ==> (#[trigger] pools@[p]).free_count() == 0,
                forall|p: int| 0 <= p < i ==> (#[trigger] pools@[p]).num_slots() == 1,
                forall|p: int| 0 <= p < i ==> (#[trigger] pools@[p]).active() == 0,
            decreases 16 - i,
        {
            let size = if i == 0 {
                8
            } else {
                tier_size(i)
            };
            let gb: usize = if i == 0 {
                0
            } else if i == 1 || i == 2 {
                64
            } else {
                16
            };
            pools.push(SubArena::new(size, gb));
            i = i + 1;
        }
        let mut owner_registry: Vec<u32> = Vec::new();
        let mut j: usize = 0;
        while j < 65536
            invariant
                j <= 65536,
                owner_registry@.len() == j,
                forall|k: int| 0 <= k < j ==> owner_registry@[k] == 0,
            decreases 65536 - j,
        {
            owner_registry.push(0);
            j = j + 1;
        }
        InMemoryAccountsDb {
            meta_words: Vec::new(),
            pools,
            pubkey_registry: PubkeyRegistry::new(),
            owner_registry,
            ebr: AsyncEbr::new(),
        }
    }

    /// The tier a payload of `len` bytes lands in: the smallest whose slot
    /// size holds it, or the last tier for anything larger.
    pub fn get_pool_id(len: usize) -> (r: u8)
        ensures
            r as int == spec_pool_id(len as int),
            r < 16,
    {
        pool_id_for_len(len)
    }

    /// Reads the record a handle holds, if any. Returns nothing exactly
    /// when the handle's metadata word is zero (never written).
    pub fn load(&self, account_id: u32) -> (r: Option<AccountInfo>)
        requires
            self.wf(),
        ensures
            r is None <==> self.record_at(account_id as int) is None,
            r matches Some(a) ==> self.record_at(account_id as int) == Some(
                RecordModel {
                    lamports: a.lamports,
                    rent_epoch: a.rent_epoch,
                    owner: a.owner,
                    data: a.data@,
                    executable: a.executable,
                },
            ),
    {
        if (account_id as usize) >= self.meta_words.len() {
            return None;
        }
        let w = self.meta_words[account_id as usize];
        if w == 0 {
            return None;
        }
        let m = Meta16B { word: w };
        proof {
            assert(self.live_handle(account_id as int));
            assert(self.word_wf(account_id as int));
            lemma_meta_field_bounds(m);
        }
        let lamports = m.get_lamports();
        let rent_epoch = m.get_rent_epoch();
        let oi = m.owner_idx();
        let cell = self.owner_registry[oi as usize];
        let owner = match self.pubkey_registry.get_pubkey(cell - 1) {
            Some(p) => p,
            None => Pubkey::zero(),
        };
        let pool_id = m.data_pool_id();
        let data_offset = m.data_offset();
        let tp = Pubkey::token_program_id();
        let data: Vec<u8> = if pool_id == 0 {
            Vec::new()
        } else {
            let raw = self.pools[pool_id as usize].read_slot(data_offset);
            if owner == tp && pool_id <= 3 {
                let token_flags = m.flags() >> 1;
                SPLCompressor::decompress(pool_id, &raw, token_flags, &self.pubkey_registry)
            } else {
                raw
            }
        };
        let executable = (m.flags() & 1) != 0;
        Some(AccountInfo { lamports, owner, data, rent_epoch, executable })
    }
}

/// An arena can hand out one more slot: something to recycle, or room to
/// move the bump cursor.
pub open spec fn pool_has_room(a: SubArena) -> bool {
    a.free_count() > 0 || (a.num_slots() <= a.capacity() && (a.num_slots() + 1) * a.slot_size()
        <= usize::MAX)
}

/// Whether some drained item names slot `s` of tier `q`.
pub open spec fn slot_in_items(items: Seq<RetiredSlot>, q: int, s: int) -> bool {
    exists|k: int|
        0 <= k < items.len() && (#[trigger] items[k]).pool_id as int == q && items[k].offset as int
            == s
}

/// How many drained items name slots of tier `q`.
pub open spec fn count_in_pool(items: Seq<RetiredSlot>, q: int) -> int
    decreases items.len(),
{
    if items.len() == 0 {
        0
    } else {
        count_in_pool(items.drop_last(), q) + if items.last().pool_id as int == q {
            1int
        } else {
            0
        }
    }
}

/// The data a read gives back for a record stored with payload `d` and
/// owner `owner`: the canonical token layout rebuilt from its compressed
/// form, or the verbatim bytes padded with zeros to their tier's slot
/// size. `ks0` is the registry the store compressed against, `ks1` the one
/// the read decodes against.
pub open spec fn spec_stored_data(d: Seq<u8>, owner: Pubkey, ks0: Seq<Pubkey>, ks1: Seq<Pubkey>) -> Seq<
    u8,
> {
    if owner == Pubkey::spec_token_program_id() {
        if d.len() >= 165 {
            spec_decompress(spec_tier(d), spec_compress_payload(d, ks0), spec_token_flags(d), ks1)
        } else {
            d + zero_bytes(176 - d.len())
        }
    } else {
        if d.len() == 0 {
            Seq::<u8>::empty()
        } else {
            d + zero_bytes(spec_tier_size(spec_pool_id(d.len() as int)) - d.len())
        }
    }
}

impl InMemoryAccountsDb {
    /// Finds or claims the owner-table cell for an identifier: the cell
    /// already holding its handle, or the first vacant cell. The same
    /// identifier always gets the same cell.
    fn get_or_register_owner(&mut self, owner: &Pubkey) -> (r: u16)
        requires
            old(self).pubkey_registry.wf(),
            old(self).keys().len() + 1 <= 0xffff_ffff,
            owner_table_wf(old(self).cells(), old(self).keys()),
            exists|i: int|
                1 <= i < 65536 && (old(self).cells()[i] == 0 || old(self).cells()[i] as int
                    == spec_registered_id(old(self).keys(), *owner) + 1),
        ensures
            final(self).pubkey_registry.wf(),
            final(self).keys() == spec_register(old(self).keys(), *owner),
            old(self).keys().is_prefix_of(final(self).keys()),
            owner_table_wf(final(self).cells(), final(self).keys()),
            1 <= r < 65536,
            final(self).cells()[r as int] != 0,
            final(self).cells()[r as int] - 1 < final(self).keys().len(),
            final(self).keys()[final(self).cells()[r as int] - 1] == *owner,
            forall|i: int|
                0 <= i < 65536 && i != r as int ==> final(self).cells()[i] == old(self).cells()[i],
            old(self).cells()[r as int] != 0 ==> final(self).cells() == old(self).cells(),
            final(self).meta_words@ == old(self).meta_words@,
            final(self).pools@ == old(self).pools@,
            final(self).ebr == old(self).ebr,
    {
        let id = self.pubkey_registry.register(owner);
        let target: u32 = id + 1;
        let ghost regsnap = self.pubkey_registry;
        let mut i: usize = 1;
        while i < 65536
            invariant
                1 <= i <= 65536,
                self.owner_registry@.len() == 65536,
                forall|j: int| 1 <= j < i ==> self.cells()[j] != 0 && self.cells()[j] != target,
                self.owner_registry@ == old(self).owner_registry@,
                self.meta_words@ == old(self).meta_words@,
                self.pools@ == old(self).pools@,
                self.ebr == old(self).ebr,
                self.pubkey_registry == regsnap,
                target <= self.keys().len(),
                target as int == id as int + 1,
                id as int == spec_registered_id(old(self).keys(), *owner),
                self.keys()[id as int] == *owner,
                self.pubkey_registry.wf(),
                owner_table_wf(old(self).cells(), old(self).keys()),
                old(self).keys().is_prefix_of(self.keys()),
                self.keys() == spec_register(old(self).keys(), *owner),
            decreases 65536 - i,
        {
            let val = self.owner_registry[i];
            if val == target {
                proof {
                    assert(self.cells()[i as int] == target);
                    assert(self.keys()[target - 1] == *owner);
                    assert(owner_table_wf(self.cells(), self.keys())) by {
                        assert forall|a: int| 0 <= a < 65536 implies #[trigger] self.cells()[a]
                            == 0 || self.cells()[a] - 1 < self.keys().len() by {
                            assert(old(self).cells()[a] == self.cells()[a]);
                            assert(old(self).keys().len() <= self.keys().len());
                        }
                    }
                }
                return i as u16;
            }
            if val == 0 {
                proof {
                    assert(old(self).cells()[i as int] == 0);
                    assert(forall|j: int|
                        1 <= j < i ==> old(self).cells()[j] != 0 && old(self).cells()[j]
                            != target) by {
                        assert(self.cells() == old(self).cells());
                    }
                }
                self.owner_registry.set(i, target);
                proof {
                    let cs = self.cells();
                    let pre = old(self).cells();
                    assert(cs =~= pre.update(i as int, target));
                    // No cell past the claimed one was ever nonzero: the
                    // claimed prefix would otherwise have covered it.
                    assert forall|b: int| i < b < 65536 implies pre[b] == 0 by {
                        if pre[b] != 0 {
                            assert(pre[i as int] != 0);
                        }
                    }
                    assert forall|a: int, b: int|
                        1 <= a < b < 65536 && #[trigger] cs[b] != 0 implies #[trigger] cs[a]
                        != 0 by {
                        if b == i as int {
                            assert(pre[a] != 0);
                        } else if b > i as int {
                            assert(pre[b] == 0);
                        } else {
                            assert(pre[b] != 0 && pre[a] != 0);
                        }
                    }
                    assert forall|a: int, b: int|
                        0 <= a < b < 65536 && cs[a] != 0 && cs[b] != 0 implies cs[a] != cs[b] by {
                        if a == i as int {
                            assert(pre[b] == 0);
                            assert(false);
                        } else if b == i as int {
                            assert(cs[a] == pre[a]);
                            if a >= 1 {
                                assert(pre[a] != target);
                            } else {
                                assert(pre[0] == 0);
                            }
                        } else {
                            assert(cs[a] == pre[a] && cs[b] == pre[b]);
                        }
                    }
                    assert(owner_table_wf(cs, self.keys()));
                }
                return i as u16;
            }
            i = i + 1;
        }
        proof {
            let w = choose|w: int|
                1 <= w < 65536 && (old(self).cells()[w] == 0 || old(self).cells()[w] as int
                    == spec_registered_id(old(self).keys(), *owner) + 1);
            assert(self.cells()[w] != 0 && self.cells()[w] != target);
            assert(false);
        }
        unreached()
    }

    /// Allocates a slot in one tier's arena and writes the payload into
    /// its front; the rest of the slot stays zero.
    fn pool_alloc_write(&mut self, pool_id: u8, buf: &Vec<u8>) -> (off: u32)
        requires
            old(self).pools_ok(),
            1 <= pool_id < 16,
            pool_has_room(old(self).pools@[pool_id as int]),
            buf@.len() <= spec_tier_size(pool_id as int),
        ensures
            final(self).pools_ok(),
            forall|q: int|
                0 <= q < 16 && q != pool_id as int ==> final(self).pools@[q] == old(self).pools@[q],
            ({
                let a0 = old(self).pools@[pool_id as int];
                let a1 = final(self).pools@[pool_id as int];
                &&& a1.capacity() == a0.capacity()
                &&& off != 0
                &&& !a0.is_live(off as int)
                &&& a1.is_live(off as int)
                &&& forall|i: int| a1.is_live(i) <==> (a0.is_live(i) || i == off as int)
                &&& forall|i: int| a0.is_live(i) ==> a1.slot(i) == a0.slot(i)
                &&& a1.slot(off as int) == buf@ + zero_bytes(
                    spec_tier_size(pool_id as int) - buf@.len(),
                )
                &&& a1.num_slots() == a0.num_slots() + (if a0.free_count() > 0 {
                    0int
                } else {
                    1
                })
                &&& a1.free_count() == (if a0.free_count() > 0 {
                    a0.free_count() - 1
                } else {
                    0int
                })
                &&& a1.active() == a0.active() + 1
            }),
            final(self).meta_words@ == old(self).meta_words@,
            final(self).pubkey_registry == old(self).pubkey_registry,
            final(self).owner_registry@ == old(self).owner_registry@,
            final(self).ebr == old(self).ebr,
    {
        let pid = pool_id as usize;
        let mut pool = self.pools.remove(pid);
        let ghost pa = pool;
        let off = pool.alloc_slot();
        let ghost pb = pool;
        pool.write_slot(off, buf);
        let ghost ss = old(self).pools@[pid as int].slot_size();
        proof {
            assert(zero_bytes(ss).skip(buf@.len() as int) =~= zero_bytes(ss - buf@.len()));
        }
        self.pools.insert(pid, pool);
        proof {
            assert(self.pools@ =~= old(self).pools@.update(pid as int, pool));
            let a0 = old(self).pools@[pid as int];
            assert(self.pools@[pid as int] == pool);
            assert(pa == a0);
            crate::arena::lemma_free_slots_count(pa);
            assert(pool.num_slots() == pb.num_slots() && pool.free_count() == pb.free_count()
                && pool.active() == pb.active());
            if pa.free_count() > 0 {
                assert(pb.num_slots() == pa.num_slots());
                assert(pb.free_count() == pa.free_count() - 1);
            } else {
                assert(pb.num_slots() == pa.num_slots() + 1);
                assert(pb.free_count() == 0);
            }
            assert(pb.active() == pa.active() + 1);
        }
        off
    }

    /// Hands the data slot a replaced metadata word referenced over to
    /// deferred reclamation; a word without a data slot retires nothing.
    fn retire_old_slot(&mut self, old_meta: Meta16B, guard: &Guard)
        requires
            old(self).ebr.wf(),
            0 <= guard.epoch() < 3,
        ensures
            final(self).ebr.wf(),
            final(self).ebr.epoch() == old(self).ebr.epoch(),
            forall|e: int| 0 <= e < 3 ==> final(self).ebr.count(e) == old(self).ebr.count(e),
            old_meta.spec_data_pool_id() == 0 || old_meta.spec_data_offset() == 0 ==> forall|e: int|
                0 <= e < 3 ==> final(self).ebr.retired(e) == old(self).ebr.retired(e),
            old_meta.spec_data_pool_id() != 0 && old_meta.spec_data_offset() != 0 ==> final(self).ebr.retired(guard.epoch()) == old(self).ebr.retired(guard.epoch()).push(
                RetiredSlot {
                    pool_id: old_meta.spec_data_pool_id(),
                    offset: old_meta.spec_data_offset(),
                },
            ) && forall|e: int|
                0 <= e < 3 && e != guard.epoch() ==> final(self).ebr.retired(e) == old(
                    self,
                ).ebr.retired(e),
            final(self).meta_words@ == old(self).meta_words@,
            final(self).pools@ == old(self).pools@,
            final(self).pubkey_registry == old(self).pubkey_registry,
            final(self).owner_registry@ == old(self).owner_registry@,
    {
        let pool_id = old_meta.data_pool_id();
        let offset = old_meta.data_offset();
        if pool_id == 0 || offset == 0 {
            return ;
        }
        self.ebr.retire(guard, pool_id, offset);
    }

    /// Returns a batch of drained slots to their tiers' free lists.
    fn free_retired(&mut self, drained: &Vec<RetiredSlot>)
        requires
            old(self).pools_ok(),
            forall|k: int|
                0 <= k < drained@.len() ==> old(self).retired_item_ok(#[trigger] drained@[k]),
            forall|k1: int, k2: int|
                0 <= k1 < k2 < drained@.len() ==> !((#[trigger] drained@[k1]).pool_id == (
                #[trigger] drained@[k2]).pool_id && drained@[k1].offset == drained@[k2].offset),
        ensures
            final(self).pools_ok(),
            forall|q: int|
                0 <= q < 16 ==> (#[trigger] final(self).pools@[q]).capacity() == old(
                    self,
                ).pools@[q].capacity() && final(self).pools@[q].num_slots() == old(
                    self,
                ).pools@[q].num_slots(),
            forall|q: int, s: int|
                0 <= q < 16 ==> ((#[trigger] final(self).pools@[q].is_live(s)) <==> (old(
                    self,
                ).pools@[q].is_live(s) && !slot_in_items(drained@, q, s))),
            forall|q: int, s: int|
                0 <= q < 16 && old(self).pools@[q].is_live(s) && !slot_in_items(drained@, q, s)
                    ==> #[trigger] final(self).pools@[q].slot(s) == old(self).pools@[q].slot(s),
            forall|q: int|
                0 <= q < 16 ==> (#[trigger] final(self).pools@[q]).free_count() == old(
                    self,
                ).pools@[q].free_count() + count_in_pool(drained@, q) && final(self).pools@[q].active()
                    == old(self).pools@[q].active() - count_in_pool(drained@, q),
            final(self).meta_words@ == old(self).meta_words@,
            final(self).pubkey_registry == old(self).pubkey_registry,
            final(self).owner_registry@ == old(self).owner_registry@,
            final(self).ebr == old(self).ebr,
    {
        let n = drained.len();
        proof {
            assert forall|q: int| 0 <= q < 16 implies count_in_pool(
                drained@.subrange(0, 0),
                q,
            ) == 0 by {
                assert(drained@.subrange(0, 0).len() == 0);
            }
        }
        let mut k: usize = 0;
        while k < n
            invariant
                n == drained@.len(),
                k <= n,
                self.pools_ok(),
                forall|k1: int|
                    0 <= k1 < n ==> old(self).retired_item_ok(#[trigger] drained@[k1]),
                forall|k1: int, k2: int|
                    0 <= k1 < k2 < n ==> !((#[trigger] drained@[k1]).pool_id == (
                    #[trigger] drained@[k2]).pool_id && drained@[k1].offset == drained@[k2].offset),
                forall|q: int|
                    0 <= q < 16 ==> (#[trigger] self.pools@[q]).capacity() == old(
                        self,
                    ).pools@[q].capacity() && self.pools@[q].num_slots() == old(
                        self,
                    ).pools@[q].num_slots(),
                forall|q: int, s: int|
                    0 <= q < 16 ==> ((#[trigger] self.pools@[q].is_live(s)) <==> (old(
                        self,
                    ).pools@[q].is_live(s) && !slot_in_items(drained@.subrange(0, k as int), q, s))),
                forall|q: int, s: int|
                    0 <= q < 16 && old(self).pools@[q].is_live(s) && !slot_in_items(
                        drained@.subrange(0, k as int),
                        q,
                        s,
                    ) ==> #[trigger] self.pools@[q].slot(s) == old(self).pools@[q].slot(s),
                forall|q: int|
                    0 <= q < 16 ==> (#[trigger] self.pools@[q]).free_count() == old(
                        self,
                    ).pools@[q].free_count() + count_in_pool(drained@.subrange(0, k as int), q)
                        && self.pools@[q].active() == old(self).pools@[q].active() - count_in_pool(
                        drained@.subrange(0, k as int),
                        q,
                    ),
                self.meta_words@ == old(self).meta_words@,
                self.pubkey_registry == old(self).pubkey_registry,
                self.owner_registry@ == old(self).owner_registry@,
                self.ebr == old(self).ebr,
            decreases n - k,
        {
            let it = drained[k];
            let ghost prefix = drained@.subrange(0, k as int);
            proof {
                assert(old(self).retired_item_ok(drained@[k as int]));
                assert(!slot_in_items(prefix, it.pool_id as int, it.offset as int)) by {
                    if slot_in_items(prefix, it.pool_id as int, it.offset as int) {
                        let w = choose|w: int|
                            0 <= w < prefix.len() && (#[trigger] prefix[w]).pool_id as int
                                == it.pool_id as int && prefix[w].offset as int
                                == it.offset as int;
                        assert(drained@[w].pool_id == drained@[k as int].pool_id
                            && drained@[w].offset == drained@[k as int].offset);
                    }
                }
            }
            let pid = it.pool_id as usize;
            let ghost pools0 = self.pools@;
            let mut pool = self.pools.remove(pid);
            pool.free(it.offset);
            self.pools.insert(pid, pool);
            proof {
                assert(self.pools@ =~= pools0.update(pid as int, pool));
                assert(drained@.subrange(0, k + 1) =~= prefix.push(drained@[k as int]));
                assert forall|q: int| 0 <= q < 16 implies count_in_pool(
                    drained@.subrange(0, k + 1),
                    q,
                ) == count_in_pool(prefix, q) + (if it.pool_id as int == q {
                    1int
                } else {
                    0
                }) by {
                    let np = drained@.subrange(0, k + 1);
                    assert(np.drop_last() =~= prefix);
                    assert(np.last() == it);
                }
                assert forall|q: int, s: int|
                    0 <= q < 16 implies ((#[trigger] self.pools@[q].is_live(s)) <==> (old(
                    self,
                ).pools@[q].is_live(s) && !slot_in_items(drained@.subrange(0, k + 1), q, s))) by {
                    let np = drained@.subrange(0, k + 1);
                    if slot_in_items(np, q, s) {
                        let w = choose|w: int|
                            0 <= w < np.len() && (#[trigger] np[w]).pool_id as int == q
                                && np[w].offset as int == s;
                        if w < k as int {
                            assert(slot_in_items(prefix, q, s)) by {
                                assert(prefix[w].pool_id as int == q && prefix[w].offset as int
                                    == s);
                            }
                        }
                    }
                    if slot_in_items(prefix, q, s) {
                        let w = choose|w: int|
                            0 <= w < prefix.len() && (#[trigger] prefix[w]).pool_id as int == q
                                && prefix[w].offset as int == s;
                        assert(np[w].pool_id as int == q && np[w].offset as int == s);
                        assert(slot_in_items(np, q, s));
                    }
                    if q == it.pool_id as int && s == it.offset as int {
                        assert(np[k as int].pool_id as int == q && np[k as int].offset as int
                            == s);
                        assert(slot_in_items(np, q, s));
                    }
                }
            }
            k = k + 1;
        }
        proof {
            assert(drained@.subrange(0, n as int) =~= drained@);
        }
    }

    /// One reclamation step while no reader is active: the epoch advances,
    /// the list of slots retired two epochs ago empties, and exactly those
    /// slots leave the live set and join their tiers' free lists. No stored
    /// record changes.
    pub fn reclaim(&mut self)
        requires
            old(self).wf(),
        ensures
            final(self).wf(),
            forall|h: int| final(self).record_at(h) == old(self).record_at(h),
            final(self).keys() == old(self).keys(),
            final(self).meta_words@ == old(self).meta_words@,
            final(self).cells() == old(self).cells(),
            final(self).ebr.epoch() == next_epoch(old(self).ebr.epoch()),
            final(self).ebr.retired(prev_epoch(old(self).ebr.epoch())).len() == 0,
            forall|e: int|
                0 <= e < 3 && e != prev_epoch(old(self).ebr.epoch()) ==> final(self).ebr.retired(e)
                    == old(self).ebr.retired(e),
            forall|q: int, s: int|
                0 <= q < 16 ==> ((#[trigger] final(self).pools@[q].is_live(s)) <==> (old(
                    self,
                ).pools@[q].is_live(s) && !slot_in_items(
                    old(self).ebr.retired(prev_epoch(old(self).ebr.epoch())),
                    q,
                    s,
                ))),
            forall|q: int, s: int|
                0 <= q < 16 && old(self).pools@[q].is_live(s) && !slot_in_items(
                    old(self).ebr.retired(prev_epoch(old(self).ebr.epoch())),
                    q,
                    s,
                ) ==> #[trigger] final(self).pools@[q].slot(s) == old(self).pools@[q].slot(s),
            forall|q: int|
                0 <= q < 16 ==> (#[trigger] final(self).pools@[q]).free_count() == old(
                    self,
                ).pools@[q].free_count() + count_in_pool(
                    old(self).ebr.retired(prev_epoch(old(self).ebr.epoch())),
                    q,
                ) && final(self).pools@[q].active() == old(self).pools@[q].active() - count_in_pool(
                    old(self).ebr.retired(prev_epoch(old(self).ebr.epoch())),
                    q,
                ) && final(self).pools@[q].num_slots() == old(self).pools@[q].num_slots(),
    {
        let ghost pre = *old(self);
        let drained = self.ebr.try_advance_epoch();
        proof {
            let pe = prev_epoch(pre.ebr.epoch());
            assert(0 <= pe < 3);
            assert(drained@ == pre.ebr.retired(pe));
            assert forall|k: int|
                0 <= k < drained@.len() implies pre.retired_item_ok(#[trigger] drained@[k]) by {
                assert(pre.retired_item_ok(pre.ebr.retired(pe)[k]));
            }
        }
        self.free_retired(&drained);
        proof {
            lemma_reclaim_frame(pre, *self, drained@);
        }
    }
}

/// After an advance drains one epoch's retired slots and frees them, the
/// state is well formed again and every stored record reads the same.
proof fn lemma_reclaim_frame(pre: InMemoryAccountsDb, post: InMemoryAccountsDb, drained: Seq<RetiredSlot>)
    requires
        pre.wf(),
        post.meta_words@ == pre.meta_words@,
        post.pubkey_registry == pre.pubkey_registry,
        post.owner_registry@ == pre.owner_registry@,
        post.pools_ok(),
        forall|q: int, s: int|
            0 <= q < 16 ==> ((#[trigger] post.pools@[q].is_live(s)) <==> (pre.pools@[q].is_live(s)
                && !slot_in_items(drained, q, s))),
        forall|q: int, s: int|
            0 <= q < 16 && pre.pools@[q].is_live(s) && !slot_in_items(drained, q, s)
                ==> #[trigger] post.pools@[q].slot(s) == pre.pools@[q].slot(s),
        post.ebr.wf(),
        forall|e: int| 0 <= e < 3 ==> post.ebr.count(e) == 0,
        // the drained items came out of one epoch's list, now emptied
        drained == pre.ebr.retired(prev_epoch(pre.ebr.epoch())),
        post.ebr.retired(prev_epoch(pre.ebr.epoch())).len() == 0,
        forall|e: int|
            0 <= e < 3 && e != prev_epoch(pre.ebr.epoch()) ==> post.ebr.retired(e)
                == pre.ebr.retired(e),
    ensures
        post.wf(),
        forall|h: int| post.record_at(h) == pre.record_at(h),
{
    let pe = prev_epoch(pre.ebr.epoch());
    // Live metadata references were never in any retired list, so their
    // slots survive the frees untouched.
    assert forall|h: int| pre.live_handle(h) && pre.handle_pool(h) != 0 implies !slot_in_items(
        drained,
        pre.handle_pool(h),
        pre.handle_offset(h),
    ) by {
        if slot_in_items(drained, pre.handle_pool(h), pre.handle_offset(h)) {
            let w = choose|w: int|
                0 <= w < drained.len() && (#[trigger] drained[w]).pool_id as int == pre.handle_pool(
                    h,
                ) && drained[w].offset as int == pre.handle_offset(h);
            assert(pre.ebr.retired(pe)[w] == drained[w]);
        }
    }
    assert forall|h: int| pre.live_handle(h) implies post.word_wf(h) && post.record_at(h)
        == pre.record_at(h) by {
        assert(pre.word_wf(h));
        lemma_meta_field_bounds(pre.meta_at(h));
        let p = pre.handle_pool(h);
        let off = pre.handle_offset(h);
        if p != 0 {
            assert(post.pools@[p].is_live(off));
            assert(post.pools@[p].slot(off) == pre.pools@[p].slot(off));
        }
        assert(post.handle_owner(h) == pre.handle_owner(h));
    }
    assert forall|h: int| !pre.live_handle(h) implies post.record_at(h) == pre.record_at(h) by {
        assert(!post.live_handle(h));
    }
    // Remaining retired items were distinct from the drained batch, so
    // they stay live; distinctness and disjointness carry over.
    assert forall|e: int, k: int|
        0 <= e < 3 && 0 <= k < post.ebr.retired(e).len() implies post.retired_item_ok(
        #[trigger] post.ebr.retired(e)[k],
    ) by {
        assert(e != pe);
        let it = post.ebr.retired(e)[k];
        assert(pre.retired_item_ok(it));
        assert(!slot_in_items(drained, it.pool_id as int, it.offset as int)) by {
            if slot_in_items(drained, it.pool_id as int, it.offset as int) {
                let w = choose|w: int|
                    0 <= w < drained.len() && (#[trigger] drained[w]).pool_id as int
                        == it.pool_id as int && drained[w].offset as int == it.offset as int;
                assert(pre.ebr.retired(pe)[w] == drained[w]);
                assert(!(e != pe || k != w) || !(pre.ebr.retired(e)[k].pool_id
                    == pre.ebr.retired(pe)[w].pool_id && pre.ebr.retired(e)[k].offset
                    == pre.ebr.retired(pe)[w].offset));
            }
        }
    }
    assert forall|e1: int, k1: int, e2: int, k2: int|
        0 <= e1 < 3 && 0 <= k1 < post.ebr.retired(e1).len() && 0 <= e2 < 3 && 0 <= k2
            < post.ebr.retired(e2).len() && (e1 != e2 || k1 != k2) implies !((
    #[trigger] post.ebr.retired(e1)[k1]).pool_id == (
    #[trigger] post.ebr.retired(e2)[k2]).pool_id && post.ebr.retired(e1)[k1].offset
        == post.ebr.retired(e2)[k2].offset) by {
        assert(e1 != pe && e2 != pe);
        assert(post.ebr.retired(e1)[k1] == pre.ebr.retired(e1)[k1]);
        assert(post.ebr.retired(e2)[k2] == pre.ebr.retired(e2)[k2]);
    }
    assert forall|e: int, k: int, h: int|
        0 <= e < 3 && 0 <= k < post.ebr.retired(e).len() && post.live_handle(h)
            && post.handle_pool(h) != 0 implies !((#[trigger] post.ebr.retired(e)[k]).pool_id as int
            == post.handle_pool(h) && post.ebr.retired(e)[k].offset as int
            == #[trigger] post.handle_offset(h)) by {
        assert(e != pe);
        assert(post.ebr.retired(e)[k] == pre.ebr.retired(e)[k]);
        assert(pre.live_handle(h));
    }
    assert(post.refs_disjoint()) by {
        assert forall|h1: int, h2: int|
            #![trigger post.handle_offset(h1), post.handle_offset(h2)]
            post.live_handle(h1) && post.live_handle(h2) && h1 != h2 && post.handle_pool(h1) != 0
                && post.handle_pool(h2) != 0 implies !(post.handle_pool(h1) == post.handle_pool(h2)
                && post.handle_offset(h1) == post.handle_offset(h2)) by {
            assert(pre.live_handle(h1) && pre.live_handle(h2));
            assert(pre.handle_offset(h1) == post.handle_offset(h1));
            assert(pre.handle_offset(h2) == post.handle_offset(h2));
        }
    }
}


impl InMemoryAccountsDb {
    /// Writes a record under a handle: the payload is compressed when the
    /// owner is the well-known token program and the record has canonical
    /// length, a data slot is filled, the owner is interned and celled,
    /// and the packed metadata word replaces the old one. The replaced
    /// word's data slot is retired, and one reclamation step runs. Every
    /// other handle reads exactly as before.
    #[verifier::rlimit(100)]
    #[verifier::spinoff_prover]
    pub fn store(&mut self, account_id: u32, info: &AccountInfo)
        requires
            old(self).wf(),
            account_id != 0,
            info.lamports <= 0x7fff_ffff_ffff_ffff,
            info.lamports == 0 ==> info.rent_epoch <= 4095,
            info.data@.len() <= 8192,
            old(self).keys().len() + 8 <= 0xffff_ffff,
            forall|p: int| 1 <= p < 16 ==> pool_has_room(#[trigger] old(self).pools@[p]),
            exists|i: int|
                1 <= i < 65536 && (old(self).cells()[i] == 0 || (old(self).keys().contains(
                    info.owner,
                ) && old(self).cells()[i] as int == key_index(old(self).keys(), info.owner) + 1)),
        ensures
            final(self).wf(),
            old(self).keys().is_prefix_of(final(self).keys()),
            final(self).record_at(account_id as int) == Some(
                RecordModel {
                    lamports: info.lamports,
                    rent_epoch: if info.lamports > 0 {
                        0xffff_ffff_ffff_ffff
                    } else {
                        info.rent_epoch
                    },
                    owner: info.owner,
                    data: spec_stored_data(
                        info.data@,
                        info.owner,
                        old(self).keys(),
                        final(self).keys(),
                    ),
                    executable: info.executable,
                },
            ),
            forall|h: int|
                h != account_id as int ==> final(self).record_at(h) == old(self).record_at(h),
            final(self).ebr.epoch() == next_epoch(old(self).ebr.epoch()),
            final(self).ebr.retired(prev_epoch(old(self).ebr.epoch())).len() == 0,
            ({
                let e0 = old(self).ebr.epoch();
                let w_old = if (account_id as int) < old(self).meta_words@.len() {
                    old(self).meta_words@[account_id as int]
                } else {
                    0
                };
                let om = Meta16B { word: w_old };
                let retired_one = w_old != 0 && om.spec_data_pool_id() != 0
                    && om.spec_data_offset() != 0;
                &&& (retired_one ==> final(self).ebr.retired(e0) == old(self).ebr.retired(
                    e0,
                ).push(
                    RetiredSlot {
                        pool_id: om.spec_data_pool_id(),
                        offset: om.spec_data_offset(),
                    },
                ))
                &&& (!retired_one ==> final(self).ebr.retired(e0) == old(self).ebr.retired(e0))
                &&& (forall|e: int|
                    0 <= e < 3 && e != e0 && e != prev_epoch(e0) ==> final(self).ebr.retired(e)
                        == old(self).ebr.retired(e))
            }),
            forall|q: int, s: int|
                0 <= q < 16 ==> ((#[trigger] final(self).pools@[q].is_live(s)) <==> ((old(
                    self,
                ).pools@[q].is_live(s) && !slot_in_items(
                    old(self).ebr.retired(prev_epoch(old(self).ebr.epoch())),
                    q,
                    s,
                )) || (final(self).handle_pool(account_id as int) != 0 && q == final(self).handle_pool(account_id as int) && s == final(self).handle_offset(
                    account_id as int,
                )))),
            forall|q: int|
                0 <= q < 16 ==> (#[trigger] final(self).pools@[q]).num_slots() == old(
                    self,
                ).pools@[q].num_slots() + (if final(self).handle_pool(account_id as int) != 0 && q
                    == final(self).handle_pool(account_id as int) && old(
                    self,
                ).pools@[q].free_count() == 0 {
                    1int
                } else {
                    0
                }),
            forall|q: int|
                0 <= q < 16 ==> (#[trigger] final(self).pools@[q]).free_count() == (if final(self).handle_pool(account_id as int) != 0 && q == final(self).handle_pool(
                    account_id as int,
                ) && old(self).pools@[q].free_count() > 0 {
                    old(self).pools@[q].free_count() - 1
                } else {
                    old(self).pools@[q].free_count()
                }) + count_in_pool(
                    old(self).ebr.retired(prev_epoch(old(self).ebr.epoch())),
                    q,
                ),
            forall|q: int|
                0 <= q < 16 ==> (#[trigger] final(self).pools@[q]).active() == old(
                    self,
                ).pools@[q].active() + (if final(self).handle_pool(account_id as int) != 0 && q
                    == final(self).handle_pool(account_id as int) {
                    1int
                } else {
                    0
                }) - count_in_pool(
                    old(self).ebr.retired(prev_epoch(old(self).ebr.epoch())),
                    q,
                ),
            forall|i: int|
                0 <= i < 65536 ==> #[trigger] final(self).cells()[i] == old(self).cells()[i] || (
                old(self).cells()[i] == 0 && final(self).cells()[i] != 0 && final(self).cells()[i]
                    - 1 < final(self).keys().len() && final(self).keys()[final(self).cells()[i]
                    - 1] == info.owner),
            exists|i: int|
                1 <= i < 65536 && #[trigger] final(self).cells()[i] != 0 && final(self).cells()[i]
                    - 1 < final(self).keys().len() && final(self).keys()[final(self).cells()[i]
                    - 1] == info.owner,
    {
        let ghost s0 = *old(self);
        let ghost ks0 = old(self).keys();
        let ghost d = info.data@;
        proof {
            crate::ebr::lemma_ebr_epoch_bound(self.ebr);
        }
        let guard = self.ebr.enter();
        let ghost ge = guard.epoch();

        let tp = Pubkey::token_program_id();
        let is_token = info.owner == tp;
        let (pool_id, data_buf, token_flags) = if is_token {
            SPLCompressor::compress(&info.data, &mut self.pubkey_registry)
        } else {
            let mut copy_buf: Vec<u8> = Vec::new();
            push_range(&mut copy_buf, &info.data, 0, info.data.len());
            proof {
                assert(copy_buf@ =~= info.data@);
            }
            (Self::get_pool_id(info.data.len()), copy_buf, 0u16)
        };
        let ghost ks_a = self.keys();
        proof {
            if !is_token {
                assert(ks_a == ks0);
                assert(ks0.is_prefix_of(ks_a)) by {
                    assert(ks0 =~= ks_a.subrange(0, ks0.len() as int));
                }
            }
            if !is_token && info.data@.len() > 0 {
                lemma_pool_id_smallest(d.len() as int);
            }
        }

        let flags = meta_flags(token_flags, info.executable);
        let data_offset: u32 = if pool_id > 0 {
            self.pool_alloc_write(pool_id, &data_buf)
        } else {
            0
        };
        let ghost pools_a = self.pools@;

        proof {
            // The owner table still matches the grown registry, and the
            // room guaranteed for the owner at entry still stands.
            assert(owner_table_wf(self.cells(), ks_a)) by {
                assert forall|i: int| 0 <= i < 65536 implies #[trigger] self.cells()[i] == 0
                    || self.cells()[i] - 1 < ks_a.len() by {
                    assert(s0.cells()[i] == self.cells()[i]);
                }
            }
            let w = choose|i: int|
                1 <= i < 65536 && (s0.cells()[i] == 0 || (ks0.contains(info.owner)
                    && s0.cells()[i] as int == key_index(ks0, info.owner) + 1));
            if s0.cells()[w] != 0 {
                lemma_key_index_prefix(ks0, ks_a, info.owner);
                assert(self.cells()[w] as int == spec_registered_id(ks_a, info.owner) + 1);
            }
        }
        let owner_idx = self.get_or_register_owner(&info.owner);
        let ghost ks_b = self.keys();
        proof {
            lemma_prefix_trans(ks0, ks_a, ks_b);
        }
        let lr = encode_lamports_rent(info.lamports, info.rent_epoch);
        let new_meta = Meta16B::pack(lr, owner_idx, data_offset, pool_id, flags);

        let ghost mw0 = self.meta_words@;
        let ghost s_own = *self;
        while self.meta_words.len() <= account_id as usize
            invariant
                mw0.len() <= self.meta_words@.len(),
                self.meta_words@.len() <= account_id as int + 1 || self.meta_words@ == mw0,
                self.meta_words@.subrange(0, mw0.len() as int) == mw0,
                forall|j: int|
                    mw0.len() <= j < self.meta_words@.len() ==> self.meta_words@[j] == 0,
                self.pools@ == s_own.pools@,
                self.pubkey_registry == s_own.pubkey_registry,
                self.owner_registry@ == s_own.owner_registry@,
                self.ebr == s_own.ebr,
            decreases account_id as int + 1 - self.meta_words@.len() + 1,
        {
            self.meta_words.push(0);
            proof {
                assert(self.meta_words@.subrange(0, mw0.len() as int) =~= mw0);
            }
        }
        let old_word = self.meta_words[account_id as usize];
        self.meta_words.set(account_id as usize, new_meta.word);
        proof {
            assert(old_word == if (account_id as int) < mw0.len() {
                mw0[account_id as int]
            } else {
                0u128
            });
        }
        let ghost s_set = *self;
        if old_word != 0 {
            self.retire_old_slot(Meta16B { word: old_word }, &guard);
        }
        let drained = self.ebr.exit(guard);
        let ghost pe = prev_epoch(s0.ebr.epoch());
        proof {
            assert(drained@ == s0.ebr.retired(pe));
            assert forall|k: int| 0 <= k < drained@.len() implies self.retired_item_ok(
                #[trigger] drained@[k],
            ) by {
                assert(s0.retired_item_ok(s0.ebr.retired(pe)[k]));
                let it = drained@[k];
                assert(s0.pools@[it.pool_id as int].is_live(it.offset as int));
                if it.pool_id == pool_id && pool_id > 0 {
                    assert(self.pools@[it.pool_id as int].is_live(it.offset as int));
                } else {
                    assert(self.pools@[it.pool_id as int] == s0.pools@[it.pool_id as int]);
                }
            }
            assert forall|k1: int, k2: int|
                0 <= k1 < k2 < drained@.len() implies !((#[trigger] drained@[k1]).pool_id == (
            #[trigger] drained@[k2]).pool_id && drained@[k1].offset == drained@[k2].offset) by {
                assert(s0.ebr.retired(pe)[k1] == drained@[k1]);
                assert(s0.ebr.retired(pe)[k2] == drained@[k2]);
            }
        }
        self.free_retired(&drained);

        proof {
            lemma_store_post(
                s0,
                s_set,
                *self,
                drained@,
                account_id as int,
                info.lamports,
                info.rent_epoch,
                info.owner,
                d,
                info.executable,
                ks0,
                ks_a,
                ks_b,
                pool_id,
                data_buf@,
                token_flags,
                data_offset,
                new_meta,
                ge,
            );
            // the epoch advanced and only the replaced slot was retired
            assert(mw0 == s0.meta_words@);
            assert(self.ebr.epoch() == next_epoch(ge));
            // any owner-table cell that changed was vacant and now holds
            // this record's owner; the owner's cell exists
            assert forall|i: int|
                0 <= i < 65536 implies #[trigger] self.cells()[i] == s0.cells()[i] || (
            s0.cells()[i] == 0 && self.cells()[i] != 0 && self.cells()[i] - 1 < self.keys().len()
                && self.keys()[self.cells()[i] - 1] == info.owner) by {
                if i != owner_idx as int {
                    assert(self.cells()[i] == s0.cells()[i]);
                } else {
                    if s0.cells()[i] != 0 {
                        assert(self.cells() == s0.cells());
                    }
                }
            }
            assert(1 <= owner_idx && (owner_idx as int) < 65536 && self.cells()[owner_idx as int] != 0
                && self.cells()[owner_idx as int] - 1 < self.keys().len()
                && self.keys()[self.cells()[owner_idx as int] - 1] == info.owner);
        }
    }
}


/// Everything `store` leaves behind: the state is well formed again, the
/// written handle reads as the stored record, and every other handle reads
/// exactly as before.
#[verifier::rlimit(100)]
proof fn lemma_store_post(
    s0: InMemoryAccountsDb,
    s_set: InMemoryAccountsDb,
    post: InMemoryAccountsDb,
    drained: Seq<RetiredSlot>,
    h: int,
    lamports: u64,
    rent_epoch: u64,
    owner: Pubkey,
    d: Seq<u8>,
    executable: bool,
    ks0: Seq<Pubkey>,
    ks_a: Seq<Pubkey>,
    ks_b: Seq<Pubkey>,
    pool_id: u8,
    payload: Seq<u8>,
    token_flags: u16,
    off: u32,
    m: Meta16B,
    ge: int,
)
    requires
        s0.wf(),
        1 <= h,
        d.len() <= 8192,
        ks0 == s0.keys(),
        ks0.len() + 8 <= 0xffff_ffff,
        owner == Pubkey::spec_token_program_id() && d.len() >= 165 ==> ks_a == spec_reg_after(
            d,
            ks0,
        ),
        owner == Pubkey::spec_token_program_id() && d.len() < 165 ==> ks_a == ks0,
        owner != Pubkey::spec_token_program_id() ==> ks_a == ks0,
        ks_b == spec_register(ks_a, owner),
        ks_b == post.keys(),
        ks0.is_prefix_of(ks_a),
        ks_a.is_prefix_of(ks_b),
        ks_a.len() <= ks0.len() + 4,
        post.pubkey_registry.wf(),
        owner == Pubkey::spec_token_program_id() && d.len() >= 165 ==> pool_id == spec_tier(d)
            && payload == spec_compress_payload(d, ks0) && token_flags == spec_token_flags(d)
            && payload.len() == spec_tier_size(pool_id as int),
        owner == Pubkey::spec_token_program_id() && d.len() < 165 ==> pool_id == 11 && payload == d
            && token_flags == 0,
        owner != Pubkey::spec_token_program_id() ==> pool_id as int == spec_pool_id(d.len() as int)
            && payload == d && token_flags == 0,
        token_flags < 2048,
        pool_id < 16,
        m.spec_owner_idx() >= 1,
        m.spec_data_offset() == off,
        m.spec_data_pool_id() == pool_id,
        m.spec_flags() == spec_meta_flags(token_flags, executable),
        spec_get_lamports(m.spec_lamports_rent()) == lamports,
        spec_get_rent_epoch(m.spec_lamports_rent()) == if lamports > 0 {
            0xffff_ffff_ffff_ffff
        } else {
            rent_epoch
        },
        m.word != 0,
        post.cells() == s_set.cells(),
        post.cells()[m.spec_owner_idx() as int] != 0,
        post.cells()[m.spec_owner_idx() as int] - 1 < ks_b.len(),
        ks_b[post.cells()[m.spec_owner_idx() as int] - 1] == owner,
        owner_table_wf(post.cells(), ks_b),
        forall|i: int|
            0 <= i < 65536 ==> #[trigger] post.cells()[i] == s0.cells()[i] || s0.cells()[i] == 0,
        post.meta_words@ == s_set.meta_words@,
        h < s_set.meta_words@.len(),
        s_set.meta_words@[h] == m.word,
        s0.meta_words@.len() <= s_set.meta_words@.len(),
        forall|j: int|
            0 <= j < s_set.meta_words@.len() && j != h ==> #[trigger] s_set.meta_words@[j] == (if j
                < s0.meta_words@.len() {
                s0.meta_words@[j]
            } else {
                0
            }),
        s_set.pools@.len() == 16,
        forall|q: int|
            0 <= q < 16 && q != pool_id as int ==> #[trigger] s_set.pools@[q] == s0.pools@[q],
        pool_id == 0 ==> s_set.pools@ == s0.pools@ && off == 0,
        pool_id > 0 ==> ({
            let a0 = s0.pools@[pool_id as int];
            let a1 = s_set.pools@[pool_id as int];
            &&& off != 0
            &&& !a0.is_live(off as int)
            &&& a1.is_live(off as int)
            &&& (forall|i: int| a1.is_live(i) <==> (a0.is_live(i) || i == off as int))
            &&& (forall|i: int| a0.is_live(i) ==> a1.slot(i) == a0.slot(i))
            &&& a1.slot(off as int) == payload + zero_bytes(
                spec_tier_size(pool_id as int) - payload.len(),
            )
            &&& payload.len() <= spec_tier_size(pool_id as int)
            &&& a1.num_slots() == a0.num_slots() + (if a0.free_count() > 0 {
                0int
            } else {
                1
            })
            &&& a1.free_count() == (if a0.free_count() > 0 {
                a0.free_count() - 1
            } else {
                0int
            })
            &&& a1.active() == a0.active() + 1
        }),
        post.pools_ok(),
        forall|q: int, s: int|
            0 <= q < 16 ==> ((#[trigger] post.pools@[q].is_live(s)) <==> (s_set.pools@[q].is_live(s)
                && !slot_in_items(drained, q, s))),
        forall|q: int, s: int|
            0 <= q < 16 && s_set.pools@[q].is_live(s) && !slot_in_items(drained, q, s)
                ==> #[trigger] post.pools@[q].slot(s) == s_set.pools@[q].slot(s),
        forall|q: int|
            0 <= q < 16 ==> (#[trigger] post.pools@[q]).free_count() == s_set.pools@[q].free_count()
                + count_in_pool(drained, q) && post.pools@[q].active() == s_set.pools@[q].active()
                - count_in_pool(drained, q) && post.pools@[q].num_slots()
                == s_set.pools@[q].num_slots(),
        post.ebr.wf(),
        forall|e: int| 0 <= e < 3 ==> post.ebr.count(e) == 0,
        ge == s0.ebr.epoch(),
        0 <= ge < 3,
        prev_epoch(ge) != ge,
        drained == s0.ebr.retired(prev_epoch(ge)),
        post.ebr.retired(prev_epoch(ge)).len() == 0,
        forall|e: int|
            0 <= e < 3 && e != prev_epoch(ge) && e != ge ==> #[trigger] post.ebr.retired(e)
                == s0.ebr.retired(e),
        ({
            let w_old = if h < s0.meta_words@.len() {
                s0.meta_words@[h]
            } else {
                0
            };
            let om = Meta16B { word: w_old };
            if w_old != 0 && om.spec_data_pool_id() != 0 && om.spec_data_offset() != 0 {
                post.ebr.retired(ge) == s0.ebr.retired(ge).push(
                    RetiredSlot {
                        pool_id: om.spec_data_pool_id(),
                        offset: om.spec_data_offset(),
                    },
                )
            } else {
                post.ebr.retired(ge) == s0.ebr.retired(ge)
            }
        }),
    ensures
        post.wf(),
        post.record_at(h) == Some(
            RecordModel {
                lamports,
                rent_epoch: if lamports > 0 {
                    0xffff_ffff_ffff_ffff
                } else {
                    rent_epoch
                },
                owner,
                data: spec_stored_data(d, owner, ks0, ks_b),
                executable,
            },
        ),
        forall|h2: int| h2 != h ==> post.record_at(h2) == s0.record_at(h2),
        post.handle_pool(h) == pool_id as int,
        post.handle_offset(h) == off as int,
        forall|q: int, s: int|
            0 <= q < 16 ==> ((#[trigger] post.pools@[q].is_live(s)) <==> ((s0.pools@[q].is_live(s)
                && !slot_in_items(drained, q, s)) || (pool_id as int != 0 && q == pool_id as int
                && s == off as int))),
        forall|q: int|
            0 <= q < 16 ==> (#[trigger] post.pools@[q]).num_slots() == s0.pools@[q].num_slots() + (
            if pool_id as int != 0 && q == pool_id as int && s0.pools@[q].free_count() == 0 {
                1int
            } else {
                0
            }),
        forall|q: int|
            0 <= q < 16 ==> (#[trigger] post.pools@[q]).free_count() == (if pool_id as int != 0 && q
                == pool_id as int && s0.pools@[q].free_count() > 0 {
                s0.pools@[q].free_count() - 1
            } else {
                s0.pools@[q].free_count()
            }) + count_in_pool(drained, q),
        forall|q: int|
            0 <= q < 16 ==> (#[trigger] post.pools@[q]).active() == s0.pools@[q].active() + (if
            pool_id as int != 0 && q == pool_id as int {
                1int
            } else {
                0
            }) - count_in_pool(drained, q),
{
    let tp = Pubkey::spec_token_program_id();
    let pe = prev_epoch(ge);
    let oi = m.spec_owner_idx() as int;
    let w_old = if h < s0.meta_words@.len() {
        s0.meta_words@[h]
    } else {
        0
    };
    let om = Meta16B { word: w_old };
    lemma_meta_field_bounds(m);
    lemma_meta_field_bounds(om);
    lemma_le32_roundtrip();
    lemma_flag_orthogonality(token_flags, executable);

    // Which handles are live afterwards: the written one, and exactly the
    // previously live others.
    assert(post.live_handle(h));
    assert forall|j: int| j != h implies (post.live_handle(j) == s0.live_handle(j)
        && (s0.live_handle(j) ==> post.meta_words@[j] == s0.meta_words@[j])) by {
        if 0 <= j < s_set.meta_words@.len() {
            assert(s_set.meta_words@[j] == (if j < s0.meta_words@.len() {
                s0.meta_words@[j]
            } else {
                0
            }));
        }
    }

    // The new slot was never live before, so no drained or retired item
    // names it, and it survives the frees.
    if pool_id > 0 {
        assert(!slot_in_items(drained, pool_id as int, off as int)) by {
            if slot_in_items(drained, pool_id as int, off as int) {
                let w = choose|w: int|
                    0 <= w < drained.len() && (#[trigger] drained[w]).pool_id as int
                        == pool_id as int && drained[w].offset as int == off as int;
                assert(s0.retired_item_ok(s0.ebr.retired(pe)[w]));
            }
        }
        assert(post.pools@[pool_id as int].is_live(off as int));
        assert(post.pools@[pool_id as int].slot(off as int) == payload + zero_bytes(
            spec_tier_size(pool_id as int) - payload.len(),
        ));
    }

    // Any slot a live old handle references survives untouched.
    assert forall|j: int|
        s0.live_handle(j) && j != h && s0.handle_pool(j) != 0 implies {
        let pj = s0.handle_pool(j);
        let sj = s0.handle_offset(j);
        &&& post.pools@[pj].is_live(sj)
        &&& post.pools@[pj].slot(sj) == s0.pools@[pj].slot(sj)
    } by {
        assert(s0.word_wf(j));
        let pj = s0.handle_pool(j);
        let sj = s0.handle_offset(j);
        lemma_meta_field_bounds(s0.meta_at(j));
        assert(s_set.pools@[pj].is_live(sj) && s_set.pools@[pj].slot(sj) == s0.pools@[pj].slot(
            sj,
        )) by {
            if pj == pool_id as int {
                assert(s0.pools@[pj].is_live(sj));
            } else {
                assert(s_set.pools@[pj] == s0.pools@[pj]);
            }
        }
        assert(!slot_in_items(drained, pj, sj)) by {
            if slot_in_items(drained, pj, sj) {
                let w = choose|w: int|
                    0 <= w < drained.len() && (#[trigger] drained[w]).pool_id as int == pj
                        && drained[w].offset as int == sj;
                assert(s0.ebr.retired(pe)[w] == drained[w]);
            }
        }
    }

    // The replaced word's slot, if any, is in the current epoch's list and
    // still live.
    if w_old != 0 && om.spec_data_pool_id() != 0 && om.spec_data_offset() != 0 {
        let po = om.spec_data_pool_id() as int;
        let so = om.spec_data_offset() as int;
        assert(s0.live_handle(h));
        assert(s0.word_wf(h));
        assert(s0.handle_pool(h) == po && s0.handle_offset(h) == so);
        assert(s0.pools@[po].is_live(so));
        assert(s_set.pools@[po].is_live(so)) by {
            if po != pool_id as int {
                assert(s_set.pools@[po] == s0.pools@[po]);
            }
        }
        assert(!slot_in_items(drained, po, so)) by {
            if slot_in_items(drained, po, so) {
                let w = choose|w: int|
                    0 <= w < drained.len() && (#[trigger] drained[w]).pool_id as int == po
                        && drained[w].offset as int == so;
                assert(s0.ebr.retired(pe)[w] == drained[w]);
            }
        }
        assert(post.pools@[po].is_live(so));
    }

    // Identifier handles inside a freshly written compressed payload are
    // bounded by the registry, now and forever.
    if owner == tp && d.len() >= 165 {
        lemma_register_frame(ks0, mint_pk(d));
        lemma_register_frame(reg1(d, ks0), owner_pk(d));
        if has_delegate(d) {
            lemma_register_frame(reg2(d, ks0), delegate_pk(d));
        }
        if has_close_auth(d) {
            lemma_register_frame(reg3(d, ks0), close_pk(d));
        }
        assert(payload.len() == spec_tier_size(pool_id as int));
        assert(payload.subrange(0, 4) =~= spec_u32_bytes(spec_mint_id(d, ks0) as u32));
        assert(payload.subrange(4, 8) =~= spec_u32_bytes(spec_owner_id(d, ks0) as u32));
        if pool_id == 3 {
            assert(payload.subrange(32, 36) =~= spec_u32_bytes(spec_delegate_id(d, ks0) as u32));
            assert(payload.subrange(36, 40) =~= spec_u32_bytes(spec_close_id(d, ks0) as u32));
        }
        assert(ids_bounded(payload, ks_b.len() as int, pool_id as int)) by {
            assert(spec_mint_id(d, ks0) < reg1(d, ks0).len() <= ks_a.len() <= ks_b.len());
            assert(spec_owner_id(d, ks0) < reg2(d, ks0).len() <= ks_a.len());
            if pool_id == 3 {
                assert(reg1(d, ks0).len() >= 1);
                assert(spec_delegate_id(d, ks0) < ks_a.len());
                assert(spec_close_id(d, ks0) < ks_a.len());
            }
        }
        assert(payload + zero_bytes(0) =~= payload);
    }

    // Well-formedness of each written word.
    assert forall|j: int| post.live_handle(j) implies post.word_wf(j) by {
        if j == h {
            assert(post.handle_owner(h) == owner);
            if pool_id > 0 {
                assert(post.pools@[pool_id as int].is_live(off as int));
            }
            if 1 <= pool_id <= 3 && post.handle_owner(h) == tp {
                assert(owner == tp && d.len() >= 165);
                assert(post.pools@[pool_id as int].slot(off as int) =~= payload);
            }
        } else {
            assert(s0.live_handle(j));
            assert(s0.word_wf(j));
            lemma_meta_field_bounds(s0.meta_at(j));
            let oj = s0.meta_at(j).spec_owner_idx() as int;
            assert(post.cells()[oj] == s0.cells()[oj]);
            assert(post.handle_owner(j) == s0.handle_owner(j)) by {
                assert(s0.cells()[oj] - 1 < ks0.len());
                lemma_prefix_trans(ks0, ks_a, ks_b);
                lemma_prefix_lookup(ks0, ks_b, s0.cells()[oj] - 1);
            }
            let pj = s0.handle_pool(j);
            let sj = s0.handle_offset(j);
            if 1 <= pj <= 3 && s0.handle_owner(j) == tp {
                assert(ids_bounded(s0.pools@[pj].slot(sj), ks0.len() as int, pj));
                assert(post.pools@[pj].slot(sj) == s0.pools@[pj].slot(sj));
                assert(ks0.len() <= ks_b.len());
            }
        }
    }

    // No two live words share a data slot.
    assert(post.refs_disjoint()) by {
        assert forall|h1: int, h2: int|
            #![trigger post.handle_offset(h1), post.handle_offset(h2)]
            post.live_handle(h1) && post.live_handle(h2) && h1 != h2 && post.handle_pool(h1) != 0
                && post.handle_pool(h2) != 0 implies !(post.handle_pool(h1) == post.handle_pool(h2)
            && post.handle_offset(h1) == post.handle_offset(h2)) by {
            if h1 != h && h2 != h {
                assert(s0.handle_offset(h1) == post.handle_offset(h1));
                assert(s0.handle_offset(h2) == post.handle_offset(h2));
            } else {
                let j = if h1 == h {
                    h2
                } else {
                    h1
                };
                assert(s0.live_handle(j) && s0.word_wf(j));
                if s0.handle_pool(j) == pool_id as int {
                    assert(s0.pools@[pool_id as int].is_live(s0.handle_offset(j)));
                    assert(!s0.pools@[pool_id as int].is_live(off as int));
                }
            }
        }
    }

    // Retired slots: still live, pairwise distinct, untouched by live
    // words.
    let item_old = RetiredSlot {
        pool_id: om.spec_data_pool_id(),
        offset: om.spec_data_offset(),
    };
    let pushed = w_old != 0 && om.spec_data_pool_id() != 0 && om.spec_data_offset() != 0;
    assert forall|e: int, k: int|
        0 <= e < 3 && 0 <= k < post.ebr.retired(e).len() implies ((#[trigger] post.ebr.retired(
        e,
    )[k]) == item_old && pushed && e == ge && k == s0.ebr.retired(ge).len()) || (0 <= k
        < s0.ebr.retired(e).len() && post.ebr.retired(e)[k] == s0.ebr.retired(e)[k]) by {
        assert(e != pe);
    }
    assert forall|e: int, k: int|
        0 <= e < 3 && 0 <= k < post.ebr.retired(e).len() implies post.retired_item_ok(
        #[trigger] post.ebr.retired(e)[k],
    ) by {
        let it = post.ebr.retired(e)[k];
        if pushed && e == ge && k == s0.ebr.retired(ge).len() {
            assert(post.pools@[item_old.pool_id as int].is_live(item_old.offset as int));
        } else {
            assert(s0.retired_item_ok(it));
            let pi = it.pool_id as int;
            let si = it.offset as int;
            assert(s_set.pools@[pi].is_live(si)) by {
                if pi != pool_id as int {
                    assert(s_set.pools@[pi] == s0.pools@[pi]);
                }
            }
            assert(!slot_in_items(drained, pi, si)) by {
                if slot_in_items(drained, pi, si) {
                    let w = choose|w: int|
                        0 <= w < drained.len() && (#[trigger] drained[w]).pool_id as int == pi
                            && drained[w].offset as int == si;
                    assert(s0.ebr.retired(pe)[w] == drained[w]);
                    assert(!(e != pe || k != w) || !(s0.ebr.retired(e)[k].pool_id
                        == s0.ebr.retired(pe)[w].pool_id && s0.ebr.retired(e)[k].offset
                        == s0.ebr.retired(pe)[w].offset));
                }
            }
            assert(post.pools@[pi].is_live(si));
        }
    }
    assert forall|e1: int, k1: int, e2: int, k2: int|
        0 <= e1 < 3 && 0 <= k1 < post.ebr.retired(e1).len() && 0 <= e2 < 3 && 0 <= k2
            < post.ebr.retired(e2).len() && (e1 != e2 || k1 != k2) implies !((
    #[trigger] post.ebr.retired(e1)[k1]).pool_id == (
    #[trigger] post.ebr.retired(e2)[k2]).pool_id && post.ebr.retired(e1)[k1].offset
        == post.ebr.retired(e2)[k2].offset) by {
        let it1 = post.ebr.retired(e1)[k1];
        let it2 = post.ebr.retired(e2)[k2];
        let new1 = pushed && e1 == ge && k1 == s0.ebr.retired(ge).len();
        let new2 = pushed && e2 == ge && k2 == s0.ebr.retired(ge).len();
        if new1 && !new2 {
            assert(it2 == s0.ebr.retired(e2)[k2]);
            assert(s0.live_handle(h) && s0.handle_pool(h) != 0);
        } else if !new1 && new2 {
            assert(it1 == s0.ebr.retired(e1)[k1]);
            assert(s0.live_handle(h) && s0.handle_pool(h) != 0);
        } else if !new1 && !new2 {
            assert(it1 == s0.ebr.retired(e1)[k1] && it2 == s0.ebr.retired(e2)[k2]);
        }
    }
    assert forall|e: int, k: int, j: int|
        0 <= e < 3 && 0 <= k < post.ebr.retired(e).len() && post.live_handle(j)
            && post.handle_pool(j) != 0 implies !((#[trigger] post.ebr.retired(e)[k]).pool_id as int
        == post.handle_pool(j) && post.ebr.retired(e)[k].offset as int
        == #[trigger] post.handle_offset(j)) by {
        let it = post.ebr.retired(e)[k];
        let new_item = pushed && e == ge && k == s0.ebr.retired(ge).len();
        if j == h {
            if new_item {
                // the replaced slot versus the fresh slot of the same write
                assert(s0.pools@[item_old.pool_id as int].is_live(item_old.offset as int));
                if item_old.pool_id as int == pool_id as int {
                    assert(!s0.pools@[pool_id as int].is_live(off as int));
                }
            } else {
                assert(it == s0.ebr.retired(e)[k]);
                assert(s0.retired_item_ok(it));
                if it.pool_id as int == pool_id as int {
                    assert(s0.pools@[pool_id as int].is_live(it.offset as int));
                    assert(!s0.pools@[pool_id as int].is_live(off as int));
                }
            }
        } else {
            assert(s0.live_handle(j) && s0.handle_pool(j) == post.handle_pool(j)
                && s0.handle_offset(j) == post.handle_offset(j));
            if new_item {
                assert(s0.live_handle(h) && s0.handle_pool(h) != 0);
                assert(s0.handle_offset(h) == item_old.offset as int);
                assert(s0.handle_offset(j) == s0.handle_offset(j));
            } else {
                assert(it == s0.ebr.retired(e)[k]);
            }
        }
    }

    assert(post.wf());

    // The written handle reads back as the stored record.
    assert(post.record_at(h) == Some(
        RecordModel {
            lamports,
            rent_epoch: if lamports > 0 {
                0xffff_ffff_ffff_ffff
            } else {
                rent_epoch
            },
            owner,
            data: spec_stored_data(d, owner, ks0, ks_b),
            executable,
        },
    )) by {
        assert(post.handle_owner(h) == owner);
        assert(spec_flags_executable(m.spec_flags()) == executable);
        assert(spec_flags_token(m.spec_flags()) == token_flags);
        if pool_id == 0 {
            assert(owner != tp && d.len() == 0);
            assert(spec_stored_data(d, owner, ks0, ks_b) =~= Seq::<u8>::empty());
        } else {
            let raw = post.pools@[pool_id as int].slot(off as int);
            if owner == tp && d.len() >= 165 {
                assert(raw =~= payload);
                assert(1 <= pool_id as int <= 3);
            } else if owner == tp {
                assert(pool_id == 11);
                assert(raw == d + zero_bytes(176 - d.len()));
            } else {
                assert(raw == d + zero_bytes(spec_tier_size(pool_id as int) - d.len()));
                assert(!(owner == tp && 1 <= pool_id as int <= 3));
            }
        }
    }

    assert(post.handle_pool(h) == pool_id as int && post.handle_offset(h) == off as int);
    // Live-set and count accounting per tier.
    assert forall|q: int, s: int|
        0 <= q < 16 implies ((#[trigger] post.pools@[q].is_live(s)) <==> ((s0.pools@[q].is_live(s)
        && !slot_in_items(drained, q, s)) || (pool_id as int != 0 && q == pool_id as int && s
        == off as int))) by {
        if pool_id as int != 0 && q == pool_id as int && s == off as int {
            assert(post.pools@[q].is_live(s));
        }
        if q != pool_id as int {
            assert(s_set.pools@[q] == s0.pools@[q]);
        }
    }
    assert forall|q: int| 0 <= q < 16 implies (#[trigger] post.pools@[q]).num_slots()
        == s0.pools@[q].num_slots() + (if pool_id as int != 0 && q == pool_id as int
        && s0.pools@[q].free_count() == 0 {
        1int
    } else {
        0
    }) && post.pools@[q].free_count() == (if pool_id as int != 0 && q == pool_id as int
        && s0.pools@[q].free_count() > 0 {
        s0.pools@[q].free_count() - 1
    } else {
        s0.pools@[q].free_count()
    }) + count_in_pool(drained, q) && post.pools@[q].active() == s0.pools@[q].active() + (if pool_id
        as int != 0 && q == pool_id as int {
        1int
    } else {
        0
    }) - count_in_pool(drained, q) by {
        crate::arena::lemma_free_slots_count(s0.pools@[q]);
        if q != pool_id as int || pool_id == 0 {
            assert(s_set.pools@[q] == s0.pools@[q]);
        }
    }

    // Every other handle reads exactly as before.
    assert forall|h2: int| h2 != h implies post.record_at(h2) == s0.record_at(h2) by {
        if s0.live_handle(h2) {
            assert(s0.word_wf(h2));
            lemma_meta_field_bounds(s0.meta_at(h2));
            let oj = s0.meta_at(h2).spec_owner_idx() as int;
            assert(post.handle_owner(h2) == s0.handle_owner(h2)) by {
                assert(post.cells()[oj] == s0.cells()[oj]);
                assert(s0.cells()[oj] - 1 < ks0.len());
                lemma_prefix_trans(ks0, ks_a, ks_b);
                lemma_prefix_lookup(ks0, ks_b, s0.cells()[oj] - 1);
            }
            let pj = s0.handle_pool(h2);
            let sj = s0.handle_offset(h2);
            if pj != 0 {
                assert(post.pools@[pj].slot(sj) == s0.pools@[pj].slot(sj));
                if 1 <= pj <= 3 && s0.handle_owner(h2) == tp {
                    lemma_prefix_trans(ks0, ks_a, ks_b);
                    lemma_decompress_stable(
                        pj as u8,
                        s0.pools@[pj].slot(sj),
                        spec_flags_token(s0.meta_at(h2).spec_flags()),
                        ks0,
                        ks_b,
                    );
                }
            }
        } else {
            assert(!post.live_handle(h2));
        }
    }
}


/// Store/load round trip: a record whose verbatim payload exactly fills
/// its tier's slot, or whose owner is the well-known token program and
/// whose payload is a canonical token record, reads back byte for byte.
/// Together with the lamports field of `store`'s contract this gives the
/// full round trip, up to the rent-epoch sentinel rule.
pub proof fn lemma_store_load_roundtrip(d: Seq<u8>, owner: Pubkey, ks0: Seq<Pubkey>, ks1: Seq<Pubkey>)
    requires
        distinct_keys(ks0),
        ks0.len() + 4 <= 0xffff_ffff,
        owner == Pubkey::spec_token_program_id() ==> canonical_token(d) && spec_reg_after(
            d,
            ks0,
        ).is_prefix_of(ks1),
        owner != Pubkey::spec_token_program_id() ==> d.len() == spec_tier_size(
            spec_pool_id(d.len() as int),
        ),
    ensures
        spec_stored_data(d, owner, ks0, ks1) == d,
{
    if owner == Pubkey::spec_token_program_id() {
        lemma_compress_roundtrip(d, ks0, ks1);
    } else {
        if d.len() == 0 {
            assert(spec_stored_data(d, owner, ks0, ks1) =~= d);
        } else {
            assert(d + zero_bytes(0) =~= d);
        }
    }
}

} // verus!
