//! The tier table: sixteen size classes for data slots. Tier 0 is the
//! "no data" tier; a record is placed in the smallest tier whose slot size
//! holds it, and anything larger than the last tier falls into that tier.

use vstd::prelude::*;

verus! {

/// Slot size of each tier, as the table in the data model gives it.
pub open spec fn spec_tier_size(i: int) -> int {
    if i == 0 {
        0
    } else if i == 1 {
        16
    } else if i == 2 {
        32
    } else if i == 3 {
        48
    } else if i == 4 {
        64
    } else if i == 5 {
        80
    } else if i == 6 {
        96
    } else if i == 7 {
        112
    } else if i == 8 {
        128
    } else if i == 9 {
        144
    } else if i == 10 {
        160
    } else if i == 11 {
        176
    } else if i == 12 {
        256
    } else if i == 13 {
        512
    } else if i == 14 {
        1024
    } else if i == 15 {
        8192
    } else {
        0
    }
}

/// The tier chosen for a payload of `len` bytes: the smallest tier whose
/// slot size is at least `len`, or the last tier if none is.
pub open spec fn spec_pool_id(len: int) -> int {
    if len <= 0 {
        0
    } else if len <= 16 {
        1
    } else if len <= 32 {
        2
    } else if len <= 48 {
        3
    } else if len <= 64 {
        4
    } else if len <= 80 {
        5
    } else if len <= 96 {
        6
    } else if len <= 112 {
        7
    } else if len <= 128 {
        8
    } else if len <= 144 {
        9
    } else if len <= 160 {
        10
    } else if len <= 176 {
        11
    } else if len <= 256 {
        12
    } else if len <= 512 {
        13
    } else if len <= 1024 {
        14
    } else {
        15
    }
}

/// The chosen tier is the smallest one that holds the payload: every tier
/// below it is too small, and the chosen one suffices whenever any does.
pub proof fn lemma_pool_id_smallest(len: int)
    requires
        len >= 0,
    ensures
        0 <= spec_pool_id(len) < 16,
        len <= 8192 ==> spec_tier_size(spec_pool_id(len)) >= len,
        forall|j: int| 0 <= j < spec_pool_id(len) ==> spec_tier_size(j) < len,
        len > 8192 ==> spec_pool_id(len) == 15,
{
}

pub fn tier_size(i: usize) -> (r: usize)
    requires
        i < 16,
    ensures
        r as int == spec_tier_size(i as int),
{
    if i == 0 {
        0
    } else if i == 1 {
        16
    } else if i == 2 {
        32
    } else if i == 3 {
        48
    } else if i == 4 {
        64
    } else if i == 5 {
        80
    } else if i == 6 {
        96
    } else if i == 7 {
        112
    } else if i == 8 {
        128
    } else if i == 9 {
        144
    } else if i == 10 {
        160
    } else if i == 11 {
        176
    } else if i == 12 {
        256
    } else if i == 13 {
        512
    } else if i == 14 {
        1024
    } else {
        8192
    }
}

pub fn pool_id_for_len(len: usize) -> (r: u8)
    ensures
        r as int == spec_pool_id(len as int),
        r < 16,
{
    if len <= 16 {
        if len == 0 {
            0
        } else {
            1
        }
    } else if len <= 32 {
        2
    } else if len <= 48 {
        3
    } else if len <= 64 {
        4
    } else if len <= 80 {
        5
    } else if len <= 96 {
        6
    } else if len <= 112 {
        7
    } else if len <= 128 {
        8
    } else if len <= 144 {
        9
    } else if len <= 160 {
        10
    } else if len <= 176 {
        11
    } else if len <= 256 {
        12
    } else if len <= 512 {
        13
    } else if len <= 1024 {
        14
    } else {
        15
    }
}

} // verus!
