//! The 16-byte packed metadata word. Bits 0..64 hold the mixed lamports /
//! rent-epoch field, bits 64..80 the owner-table slot, bits 80..112 the data
//! slot index, bits 112..116 the tier, and bits 116..128 twelve flag bits.
//! Flag bit 0 is `executable`; the compressor's own flag bits sit above it,
//! so the two never collide.

use vstd::prelude::*;

verus! {

/// Compressor flag bits, within the compressor's own flag value.
/// Bits 0..2 hold the account state.
pub const SPL_FLAG_STATE_MASK: u16 = 0x3;

pub const SPL_FLAG_IS_NATIVE: u16 = 4;

pub const SPL_FLAG_HAS_DELEGATE: u16 = 8;

pub const SPL_FLAG_HAS_CLOSE_AUTH: u16 = 16;

pub const SPL_FLAG_HAS_DEL_AMT: u16 = 32;

/// The state byte of the well-known token account layout.
pub enum SplAccountState {
    Uninitialized,
    Initialized,
    Frozen,
}

#[derive(Clone, Copy, PartialEq, Eq, Structural, Debug)]
pub struct Meta16B {
    pub word: u128,
}

impl Meta16B {
    pub open spec fn spec_lamports_rent(self) -> u64 {
        (self.word & 0xffff_ffff_ffff_ffff) as u64
    }

    pub open spec fn spec_owner_idx(self) -> u16 {
        ((self.word >> 64) & 0xffff) as u16
    }

    pub open spec fn spec_data_offset(self) -> u32 {
        ((self.word >> 80) & 0xffff_ffff) as u32
    }

    pub open spec fn spec_data_pool_id(self) -> u8 {
        ((self.word >> 112) & 0xf) as u8
    }

    pub open spec fn spec_flags(self) -> u16 {
        ((self.word >> 116) & 0xfff) as u16
    }

    pub fn lamports_rent(&self) -> (r: u64)
        ensures
            r == self.spec_lamports_rent(),
    {
        (self.word & 0xffff_ffff_ffff_ffff) as u64
    }

    pub fn owner_idx(&self) -> (r: u16)
        ensures
            r == self.spec_owner_idx(),
    {
        ((self.word >> 64) & 0xffff) as u16
    }

    pub fn data_offset(&self) -> (r: u32)
        ensures
            r == self.spec_data_offset(),
    {
        ((self.word >> 80) & 0xffff_ffff) as u32
    }

    pub fn data_pool_id(&self) -> (r: u8)
        ensures
            r == self.spec_data_pool_id(),
    {
        ((self.word >> 112) & 0xf) as u8
    }

    pub fn flags(&self) -> (r: u16)
        ensures
            r == self.spec_flags(),
    {
        ((self.word >> 116) & 0xfff) as u16
    }

    /// Assembles a metadata word from its five fields.
    pub fn pack(lamports_rent: u64, owner_idx: u16, data_offset: u32, data_pool_id: u8, flags: u16) -> (r:
        Meta16B)
        requires
            data_pool_id < 16,
            flags < 4096,
        ensures
            r.spec_lamports_rent() == lamports_rent,
            r.spec_owner_idx() == owner_idx,
            r.spec_data_offset() == data_offset,
            r.spec_data_pool_id() == data_pool_id,
            r.spec_flags() == flags,
            owner_idx != 0 ==> r.word != 0,
    {
        let word: u128 = (lamports_rent as u128) | (owner_idx as u128) << 64 | (data_offset
            as u128) << 80 | (data_pool_id as u128) << 112 | (flags as u128) << 116;
        proof {
            let l = lamports_rent as u128;
            let o = owner_idx as u128;
            let d = data_offset as u128;
            let p = data_pool_id as u128;
            let f = flags as u128;
            assert((l <= 0xffff_ffff_ffff_ffff && o <= 0xffff && d <= 0xffff_ffff && p < 16 && f
                < 4096) ==> (((l | o << 64 | d << 80 | p << 112 | f << 116)
                & 0xffff_ffff_ffff_ffff == l) && (((l | o << 64 | d << 80 | p << 112 | f << 116)
                >> 64) & 0xffff == o) && (((l | o << 64 | d << 80 | p << 112 | f << 116) >> 80)
                & 0xffff_ffff == d) && (((l | o << 64 | d << 80 | p << 112 | f << 116) >> 112) & 0xf
                == p) && (((l | o << 64 | d << 80 | p << 112 | f << 116) >> 116) & 0xfff == f) && (o
                != 0 ==> (l | o << 64 | d << 80 | p << 112 | f << 116) != 0))) by (bit_vector);
        }
        Meta16B { word }
    }
}

/// The tier and flag fields cannot exceed their bit widths.
pub proof fn lemma_meta_field_bounds(m: Meta16B)
    ensures
        m.spec_data_pool_id() < 16,
        m.spec_flags() < 4096,
{
    let w = m.word;
    assert((w >> 112) & 0xf < 16 && (w >> 116) & 0xfff < 4096) by (bit_vector);
}

/// The lamports a mixed field denotes: with the exempt bit set, the upper 63
/// bits; otherwise bits 1..52.
pub open spec fn spec_get_lamports(v: u64) -> u64 {
    if v & 1 == 1 {
        v >> 1
    } else {
        (v >> 1) & 0x7_ffff_ffff_ffff
    }
}

/// The rent epoch a mixed field denotes: the sentinel maximum with the
/// exempt bit set, otherwise bits 52..64.
pub open spec fn spec_get_rent_epoch(v: u64) -> u64 {
    if v & 1 == 1 {
        0xffff_ffff_ffff_ffff
    } else {
        v >> 52
    }
}

/// The mixed field stored for given lamports and rent epoch: positive
/// lamports are treated as rent-exempt and the epoch is dropped.
pub open spec fn spec_encode_lamports_rent(lamports: u64, rent_epoch: u64) -> u64 {
    if lamports > 0 {
        (lamports << 1) | 1
    } else {
        rent_epoch << 52
    }
}

impl Meta16B {
    pub fn get_lamports(&self) -> (r: u64)
        ensures
            r == spec_get_lamports(self.spec_lamports_rent()),
    {
        let val = self.lamports_rent();
        if (val & 1) != 0 {
            proof {
                assert(val & 1 != 0 ==> val & 1 == 1) by (bit_vector);
            }
            val >> 1
        } else {
            (val >> 1) & 0x7_ffff_ffff_ffff
        }
    }

    pub fn get_rent_epoch(&self) -> (r: u64)
        ensures
            r == spec_get_rent_epoch(self.spec_lamports_rent()),
    {
        let val = self.lamports_rent();
        if (val & 1) != 0 {
            proof {
                assert(val & 1 != 0 ==> val & 1 == 1) by (bit_vector);
            }
            0xffff_ffff_ffff_ffff
        } else {
            val >> 52
        }
    }
}

/// Encodes lamports and rent epoch into the mixed field.
pub fn encode_lamports_rent(lamports: u64, rent_epoch: u64) -> (r: u64)
    requires
        lamports <= 0x7fff_ffff_ffff_ffff,
        lamports == 0 ==> rent_epoch <= 4095,
    ensures
        r == spec_encode_lamports_rent(lamports, rent_epoch),
        spec_get_lamports(r) == lamports,
        spec_get_rent_epoch(r) == if lamports > 0 {
            0xffff_ffff_ffff_ffff
        } else {
            rent_epoch
        },
{
    if lamports > 0 {
        let r = (lamports << 1) | 1;
        proof {
            let l = lamports;
            assert(l <= 0x7fff_ffff_ffff_ffff ==> (((l << 1) | 1) & 1 == 1 && ((l << 1) | 1) >> 1
                == l)) by (bit_vector);
        }
        r
    } else {
        let r = rent_epoch << 52;
        proof {
            let e = rent_epoch;
            assert(e <= 4095 ==> ((e << 52) & 1 == 0 && ((e << 52) >> 1) & 0x7_ffff_ffff_ffff == 0
                && (e << 52) >> 52 == e)) by (bit_vector);
        }
        r
    }
}

/// The twelve-bit metadata flag field: the executable bit in bit 0, the
/// compressor's flags shifted above it.
pub open spec fn spec_meta_flags(token_flags: u16, executable: bool) -> u16 {
    ((token_flags << 1) | if executable {
        1
    } else {
        0
    }) as u16
}

pub open spec fn spec_flags_executable(flags: u16) -> bool {
    flags & 1 != 0
}

pub open spec fn spec_flags_token(flags: u16) -> u16 {
    flags >> 1
}

pub fn meta_flags(token_flags: u16, executable: bool) -> (r: u16)
    requires
        token_flags < 2048,
    ensures
        r == spec_meta_flags(token_flags, executable),
        r < 4096,
{
    let r = (token_flags << 1) | if executable {
        1
    } else {
        0
    };
    proof {
        let t = token_flags;
        assert(t < 2048 ==> ((t << 1) | 1 < 4096 && (t << 1) | 0 < 4096)) by (bit_vector);
    }
    r
}

/// The executable bit and the compressor flags occupy disjoint bits: either
/// one is read back unchanged, whatever the other is.
pub proof fn lemma_flag_orthogonality(token_flags: u16, executable: bool)
    requires
        token_flags < 2048,
    ensures
        spec_flags_token(spec_meta_flags(token_flags, executable)) == token_flags,
        spec_flags_executable(spec_meta_flags(token_flags, executable)) == executable,
        spec_meta_flags(token_flags, true) >> 1 == spec_meta_flags(token_flags, false) >> 1,
{
    let t = token_flags;
    assert(t < 2048 ==> (((t << 1) | 1) >> 1 == t && ((t << 1) | 0) >> 1 == t && ((t << 1) | 1) & 1
        != 0 && ((t << 1) | 0) & 1 == 0)) by (bit_vector);
}

impl SplAccountState {
    /// The byte this state is written as in the canonical layout.
    pub fn code(&self) -> (r: u8)
        ensures
            r < 3,
    {
        match self {
            SplAccountState::Uninitialized => 0,
            SplAccountState::Initialized => 1,
            SplAccountState::Frozen => 2,
        }
    }
}

} // verus!
