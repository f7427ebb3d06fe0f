//! Schema-aware compression of the well-known 165-byte token account layout
//! into one of three compact tiers. Identifiers inside the record are
//! interned; the payload stores their dense handles. Decompression rebuilds
//! the canonical 165 bytes from a tier, a payload, the compressor flags and
//! the registry.

use crate::bytes_le::{
    lemma_le32_roundtrip, lemma_le32_zero, lemma_le64_roundtrip, lemma_le64_zero,
    lemma_zero_word_bytes, push_range, push_u32, push_zeros, read_u32, read_u64, spec_le32,
    spec_le64, spec_u32_bytes, zero_bytes,
};
use crate::meta16b::{
    SPL_FLAG_HAS_CLOSE_AUTH, SPL_FLAG_HAS_DELEGATE, SPL_FLAG_HAS_DEL_AMT, SPL_FLAG_IS_NATIVE,
    SPL_FLAG_STATE_MASK,
};
use crate::pubkey::{
    lemma_pubkey_bytes_len, lemma_pubkey_from_bytes_roundtrip, Pubkey,
};
use crate::pubkey_registry::{
    distinct_keys, lemma_prefix_lookup, lemma_prefix_trans, lemma_register_frame, spec_register,
    spec_registered_id, PubkeyRegistry,
};
use crate::tiers::spec_tier_size;
use vstd::prelude::*;

verus! {

pub struct SPLCompressor;

/// Field views of the canonical 165-byte token account layout.
pub open spec fn mint_bytes(d: Seq<u8>) -> Seq<u8> {
    d.subrange(0, 32)
}

pub open spec fn owner_bytes(d: Seq<u8>) -> Seq<u8> {
    d.subrange(32, 64)
}

pub open spec fn amount_bytes(d: Seq<u8>) -> Seq<u8> {
    d.subrange(64, 72)
}

pub open spec fn delegate_tag(d: Seq<u8>) -> u32 {
    spec_le32(d.subrange(72, 76))
}

pub open spec fn delegate_bytes(d: Seq<u8>) -> Seq<u8> {
    d.subrange(76, 108)
}

pub open spec fn state_byte(d: Seq<u8>) -> u8 {
    d[108]
}

pub open spec fn native_tag(d: Seq<u8>) -> u32 {
    spec_le32(d.subrange(109, 113))
}

pub open spec fn native_amount_bytes(d: Seq<u8>) -> Seq<u8> {
    d.subrange(113, 121)
}

pub open spec fn del_amount(d: Seq<u8>) -> u64 {
    spec_le64(d.subrange(121, 129))
}

pub open spec fn del_amount_bytes(d: Seq<u8>) -> Seq<u8> {
    d.subrange(121, 129)
}

pub open spec fn close_tag(d: Seq<u8>) -> u32 {
    spec_le32(d.subrange(129, 133))
}

pub open spec fn close_bytes(d: Seq<u8>) -> Seq<u8> {
    d.subrange(133, 165)
}

pub open spec fn has_delegate(d: Seq<u8>) -> bool {
    delegate_tag(d) != 0
}

pub open spec fn is_native(d: Seq<u8>) -> bool {
    native_tag(d) != 0
}

pub open spec fn has_close_auth(d: Seq<u8>) -> bool {
    close_tag(d) != 0
}

pub open spec fn has_del_amt(d: Seq<u8>) -> bool {
    del_amount(d) > 0
}

pub open spec fn mint_pk(d: Seq<u8>) -> Pubkey {
    Pubkey::spec_from_bytes(mint_bytes(d))
}

pub open spec fn owner_pk(d: Seq<u8>) -> Pubkey {
    Pubkey::spec_from_bytes(owner_bytes(d))
}

pub open spec fn delegate_pk(d: Seq<u8>) -> Pubkey {
    Pubkey::spec_from_bytes(delegate_bytes(d))
}

pub open spec fn close_pk(d: Seq<u8>) -> Pubkey {
    Pubkey::spec_from_bytes(close_bytes(d))
}

/// The compressor's flag value: state in the low two bits, then one bit
/// each for native, delegate, close authority and delegated amount.
pub open spec fn spec_token_flags(d: Seq<u8>) -> u16 {
    ((state_byte(d) as u16) & SPL_FLAG_STATE_MASK) | (if is_native(d) {
        SPL_FLAG_IS_NATIVE
    } else {
        0
    }) | (if has_delegate(d) {
        SPL_FLAG_HAS_DELEGATE
    } else {
        0
    }) | (if has_close_auth(d) {
        SPL_FLAG_HAS_CLOSE_AUTH
    } else {
        0
    }) | (if has_del_amt(d) {
        SPL_FLAG_HAS_DEL_AMT
    } else {
        0
    })
}

/// The tier a canonical record compresses into: the bare tier when no
/// optional field is present, the native tier when only the native amount
/// is, and the full tier otherwise.
pub open spec fn spec_tier(d: Seq<u8>) -> u8 {
    if !has_delegate(d) && !has_close_auth(d) && !has_del_amt(d) && !is_native(d) {
        1
    } else if !has_delegate(d) && !has_close_auth(d) && !has_del_amt(d) {
        2
    } else {
        3
    }
}

/// Registry states along the compressor's interning order: mint, owner,
/// then (in the full tier) delegate and close authority when present.
pub open spec fn reg1(d: Seq<u8>, ks: Seq<Pubkey>) -> Seq<Pubkey> {
    spec_register(ks, mint_pk(d))
}

pub open spec fn reg2(d: Seq<u8>, ks: Seq<Pubkey>) -> Seq<Pubkey> {
    spec_register(reg1(d, ks), owner_pk(d))
}

pub open spec fn reg3(d: Seq<u8>, ks: Seq<Pubkey>) -> Seq<Pubkey> {
    if has_delegate(d) {
        spec_register(reg2(d, ks), delegate_pk(d))
    } else {
        reg2(d, ks)
    }
}

/// The registry after compressing `d` against `ks`.
pub open spec fn spec_reg_after(d: Seq<u8>, ks: Seq<Pubkey>) -> Seq<Pubkey> {
    if has_close_auth(d) {
        spec_register(reg3(d, ks), close_pk(d))
    } else {
        reg3(d, ks)
    }
}

pub open spec fn spec_mint_id(d: Seq<u8>, ks: Seq<Pubkey>) -> int {
    spec_registered_id(ks, mint_pk(d))
}

pub open spec fn spec_owner_id(d: Seq<u8>, ks: Seq<Pubkey>) -> int {
    spec_registered_id(reg1(d, ks), owner_pk(d))
}

pub open spec fn spec_delegate_id(d: Seq<u8>, ks: Seq<Pubkey>) -> int {
    if has_delegate(d) {
        spec_registered_id(reg2(d, ks), delegate_pk(d))
    } else {
        0
    }
}

pub open spec fn spec_close_id(d: Seq<u8>, ks: Seq<Pubkey>) -> int {
    if has_close_auth(d) {
        spec_registered_id(reg3(d, ks), close_pk(d))
    } else {
        0
    }
}

/// The payload bytes compression writes for a canonical record.
pub open spec fn spec_compress_payload(d: Seq<u8>, ks: Seq<Pubkey>) -> Seq<u8> {
    let head = spec_u32_bytes(spec_mint_id(d, ks) as u32) + spec_u32_bytes(
        spec_owner_id(d, ks) as u32,
    ) + amount_bytes(d);
    if spec_tier(d) == 1 {
        head
    } else if spec_tier(d) == 2 {
        head + native_amount_bytes(d) + zero_bytes(8)
    } else {
        head + (if is_native(d) {
            native_amount_bytes(d)
        } else {
            zero_bytes(8)
        }) + del_amount_bytes(d) + spec_u32_bytes(spec_delegate_id(d, ks) as u32) + spec_u32_bytes(
            spec_close_id(d, ks) as u32,
        ) + zero_bytes(8)
    }
}

/// The identifier a handle resolves to, or the zero identifier for a
/// handle the registry never produced.
pub open spec fn lookup_or_zero(ks: Seq<Pubkey>, id: int) -> Pubkey {
    if 0 <= id < ks.len() {
        ks[id]
    } else {
        Pubkey::spec_zero()
    }
}

/// The canonical bytes decompression rebuilds from a tier, payload, flag
/// value and registry. Tags are written as one when the matching flag is
/// set; fields whose flag is clear stay zero.
pub open spec fn spec_decompress(tier: u8, c: Seq<u8>, flags: u16, ks: Seq<Pubkey>) -> Seq<u8> {
    let mint = lookup_or_zero(ks, spec_le32(c.subrange(0, 4)) as int);
    let owner = lookup_or_zero(ks, spec_le32(c.subrange(4, 8)) as int);
    let native = flags & SPL_FLAG_IS_NATIVE != 0;
    let with_delegate = tier == 3 && flags & SPL_FLAG_HAS_DELEGATE != 0;
    let with_close = tier == 3 && flags & SPL_FLAG_HAS_CLOSE_AUTH != 0;
    mint.bytes() + owner.bytes() + c.subrange(8, 16) + (if with_delegate {
        spec_u32_bytes(1)
    } else {
        zero_bytes(4)
    }) + (if with_delegate {
        lookup_or_zero(ks, spec_le32(c.subrange(32, 36)) as int).bytes()
    } else {
        zero_bytes(32)
    }) + seq![(flags & SPL_FLAG_STATE_MASK) as u8] + (if native {
        spec_u32_bytes(1)
    } else {
        zero_bytes(4)
    }) + (if native && (tier == 2 || tier == 3) {
        c.subrange(16, 24)
    } else {
        zero_bytes(8)
    }) + (if tier == 3 {
        c.subrange(24, 32)
    } else {
        zero_bytes(8)
    }) + (if with_close {
        spec_u32_bytes(1)
    } else {
        zero_bytes(4)
    }) + (if with_close {
        lookup_or_zero(ks, spec_le32(c.subrange(36, 40)) as int).bytes()
    } else {
        zero_bytes(32)
    })
}

/// How the five flag components combine and read back out.
proof fn lemma_flags_bits(s: u16, n16: u16, dl16: u16, ca16: u16, da16: u16)
    requires
        n16 == 0 || n16 == SPL_FLAG_IS_NATIVE,
        dl16 == 0 || dl16 == SPL_FLAG_HAS_DELEGATE,
        ca16 == 0 || ca16 == SPL_FLAG_HAS_CLOSE_AUTH,
        da16 == 0 || da16 == SPL_FLAG_HAS_DEL_AMT,
    ensures
        ((s & 3) | n16 | dl16 | ca16 | da16) & 3 == s & 3,
        ((s & 3) | n16 | dl16 | ca16 | da16) & 4 == n16,
        ((s & 3) | n16 | dl16 | ca16 | da16) & 8 == dl16,
        ((s & 3) | n16 | dl16 | ca16 | da16) & 16 == ca16,
        ((s & 3) | n16 | dl16 | ca16 | da16) & 32 == da16,
        ((s & 3) | n16 | dl16 | ca16 | da16) < 64,
{
    assert(((n16 == 0 || n16 == 4) && (dl16 == 0 || dl16 == 8) && (ca16 == 0 || ca16 == 16) && (
    da16 == 0 || da16 == 32)) ==> (((s & 3) | n16 | dl16 | ca16 | da16) & 3 == s & 3 && ((s & 3)
        | n16 | dl16 | ca16 | da16) & 4 == n16 && ((s & 3) | n16 | dl16 | ca16 | da16) & 8 == dl16
        && ((s & 3) | n16 | dl16 | ca16 | da16) & 16 == ca16 && ((s & 3) | n16 | dl16 | ca16 | da16)
        & 32 == da16 && ((s & 3) | n16 | dl16 | ca16 | da16) < 64)) by (bit_vector);
}

/// The flag value of a canonical record is small, and each predicate reads
/// back out of it.
pub proof fn lemma_token_flags_decode(d: Seq<u8>)
    requires
        d.len() >= 165,
    ensures
        spec_token_flags(d) < 64,
        (spec_token_flags(d) & SPL_FLAG_IS_NATIVE != 0) == is_native(d),
        (spec_token_flags(d) & SPL_FLAG_HAS_DELEGATE != 0) == has_delegate(d),
        (spec_token_flags(d) & SPL_FLAG_HAS_CLOSE_AUTH != 0) == has_close_auth(d),
        (spec_token_flags(d) & SPL_FLAG_HAS_DEL_AMT != 0) == has_del_amt(d),
        spec_token_flags(d) & SPL_FLAG_STATE_MASK == (state_byte(d) as u16) & 3,
        state_byte(d) < 4 ==> (spec_token_flags(d) & SPL_FLAG_STATE_MASK) as u8 == state_byte(d),
{
    let s = state_byte(d) as u16;
    let n16: u16 = if is_native(d) {
        SPL_FLAG_IS_NATIVE
    } else {
        0
    };
    let dl16: u16 = if has_delegate(d) {
        SPL_FLAG_HAS_DELEGATE
    } else {
        0
    };
    let ca16: u16 = if has_close_auth(d) {
        SPL_FLAG_HAS_CLOSE_AUTH
    } else {
        0
    };
    let da16: u16 = if has_del_amt(d) {
        SPL_FLAG_HAS_DEL_AMT
    } else {
        0
    };
    lemma_flags_bits(s, n16, dl16, ca16, da16);
    assert(s < 4 ==> s & 3 == s) by (bit_vector);
}

impl SPLCompressor {
    /// Compresses a record owned by the well-known token program. A record
    /// shorter than the canonical layout is not a token account after all:
    /// it is passed through verbatim, bound for a tier that holds the full
    /// canonical size, so that reads never mistake it for compressed data.
    pub fn compress(data: &Vec<u8>, registry: &mut PubkeyRegistry) -> (r: (u8, Vec<u8>, u16))
        requires
            old(registry).wf(),
            old(registry).keys().len() + 4 <= 0xffff_ffff,
        ensures
            final(registry).wf(),
            old(registry).keys().is_prefix_of(final(registry).keys()),
            final(registry).keys().len() <= old(registry).keys().len() + 4,
            r.0 < 16,
            r.2 < 64,
            data@.len() < 165 ==> r.0 == 11 && r.1@ == data@ && r.2 == 0 && final(registry).keys()
                == old(registry).keys(),
            data@.len() >= 165 ==> r.0 == spec_tier(data@) && r.1@ == spec_compress_payload(
                data@,
                old(registry).keys(),
            ) && r.2 == spec_token_flags(data@) && final(registry).keys() == spec_reg_after(
                data@,
                old(registry).keys(),
            ),
            data@.len() >= 165 ==> r.1@.len() == spec_tier_size(r.0 as int),
    {
        let len = data.len();
        if len < 165 {
            let mut buf: Vec<u8> = Vec::new();
            push_range(&mut buf, data, 0, len);
            proof {
                assert(buf@ =~= data@);
            }
            return (11, buf, 0);
        }
        let ghost ks0 = old(registry).keys();
        let mint = Pubkey::read_at(data, 0);
        let owner = Pubkey::read_at(data, 32);
        let delegate_tag_v = read_u32(data, 72);
        let state = data[108];
        let is_native_tag_v = read_u32(data, 109);
        let del_amt = read_u64(data, 121);
        let close_auth_tag_v = read_u32(data, 129);

        let has_delegate_v = delegate_tag_v != 0;
        let has_del_amt_v = del_amt > 0;
        let has_close_auth_v = close_auth_tag_v != 0;
        let is_native_v = is_native_tag_v != 0;

        let flags: u16 = ((state as u16) & SPL_FLAG_STATE_MASK) | (if is_native_v {
            SPL_FLAG_IS_NATIVE
        } else {
            0
        }) | (if has_delegate_v {
            SPL_FLAG_HAS_DELEGATE
        } else {
            0
        }) | (if has_close_auth_v {
            SPL_FLAG_HAS_CLOSE_AUTH
        } else {
            0
        }) | (if has_del_amt_v {
            SPL_FLAG_HAS_DEL_AMT
        } else {
            0
        });
        proof {
            assert(has_delegate_v == has_delegate(data@));
            assert(is_native_v == is_native(data@));
            assert(has_close_auth_v == has_close_auth(data@));
            assert(has_del_amt_v == has_del_amt(data@));
            assert(flags == spec_token_flags(data@));
            lemma_token_flags_decode(data@);
        }

        let mint_id = registry.register(&mint);
        let owner_id = registry.register(&owner);
        proof {
            lemma_prefix_trans(ks0, reg1(data@, ks0), reg2(data@, ks0));
        }

        if !has_delegate_v && !has_close_auth_v && !has_del_amt_v && !is_native_v {
            let mut buf: Vec<u8> = Vec::new();
            push_u32(&mut buf, mint_id);
            push_u32(&mut buf, owner_id);
            push_range(&mut buf, data, 64, 72);
            proof {
                assert(buf@ =~= spec_compress_payload(data@, ks0));
            }
            (1, buf, flags)
        } else if !has_delegate_v && !has_close_auth_v && !has_del_amt_v {
            let mut buf: Vec<u8> = Vec::new();
            push_u32(&mut buf, mint_id);
            push_u32(&mut buf, owner_id);
            push_range(&mut buf, data, 64, 72);
            push_range(&mut buf, data, 113, 121);
            push_zeros(&mut buf, 8);
            proof {
                assert(buf@ =~= spec_compress_payload(data@, ks0));
            }
            (2, buf, flags)
        } else {
            let delegate_id: u32 = if has_delegate_v {
                let dpk = Pubkey::read_at(data, 76);
                registry.register(&dpk)
            } else {
                0
            };
            proof {
                lemma_prefix_trans(ks0, reg2(data@, ks0), reg3(data@, ks0));
            }
            let close_id: u32 = if has_close_auth_v {
                let cpk = Pubkey::read_at(data, 133);
                registry.register(&cpk)
            } else {
                0
            };
            proof {
                lemma_prefix_trans(ks0, reg3(data@, ks0), spec_reg_after(data@, ks0));
            }
            let mut buf: Vec<u8> = Vec::new();
            push_u32(&mut buf, mint_id);
            push_u32(&mut buf, owner_id);
            push_range(&mut buf, data, 64, 72);
            if is_native_v {
                push_range(&mut buf, data, 113, 121);
            } else {
                push_zeros(&mut buf, 8);
            }
            push_range(&mut buf, data, 121, 129);
            push_u32(&mut buf, delegate_id);
            push_u32(&mut buf, close_id);
            push_zeros(&mut buf, 8);
            proof {
                assert(buf@ =~= spec_compress_payload(data@, ks0));
            }
            (3, buf, flags)
        }
    }

    /// Rebuilds the canonical 165-byte record from a compressed payload.
    #[verifier::rlimit(80)]
    pub fn decompress(tier: u8, compressed: &Vec<u8>, flags: u16, registry: &PubkeyRegistry) -> (out:
        Vec<u8>)
        requires
            registry.wf(),
            1 <= tier <= 3,
            compressed@.len() == spec_tier_size(tier as int),
        ensures
            out@ == spec_decompress(tier, compressed@, flags, registry.keys()),
            out@.len() == 165,
    {
        let mut out: Vec<u8> = Vec::new();
        let mint_id = read_u32(compressed, 0);
        let owner_id = read_u32(compressed, 4);
        let mint = match registry.get_pubkey(mint_id) {
            Some(p) => p,
            None => Pubkey::zero(),
        };
        let owner = match registry.get_pubkey(owner_id) {
            Some(p) => p,
            None => Pubkey::zero(),
        };
        mint.append_bytes(&mut out);
        owner.append_bytes(&mut out);
        push_range(&mut out, compressed, 8, 16);
        proof {
            lemma_pubkey_bytes_len(mint);
            lemma_pubkey_bytes_len(owner);
        }
        let with_delegate = tier == 3 && (flags & SPL_FLAG_HAS_DELEGATE) != 0;
        if with_delegate {
            push_u32(&mut out, 1);
            let del_id = read_u32(compressed, 32);
            let del = match registry.get_pubkey(del_id) {
                Some(p) => p,
                None => Pubkey::zero(),
            };
            del.append_bytes(&mut out);
            proof {
                lemma_pubkey_bytes_len(del);
            }
        } else {
            push_zeros(&mut out, 4);
            push_zeros(&mut out, 32);
        }
        out.push((flags & SPL_FLAG_STATE_MASK) as u8);
        if (flags & SPL_FLAG_IS_NATIVE) != 0 {
            push_u32(&mut out, 1);
            if tier == 2 || tier == 3 {
                push_range(&mut out, compressed, 16, 24);
            } else {
                push_zeros(&mut out, 8);
            }
        } else {
            push_zeros(&mut out, 4);
            push_zeros(&mut out, 8);
        }
        if tier == 3 {
            push_range(&mut out, compressed, 24, 32);
        } else {
            push_zeros(&mut out, 8);
        }
        let with_close = tier == 3 && (flags & SPL_FLAG_HAS_CLOSE_AUTH) != 0;
        if with_close {
            push_u32(&mut out, 1);
            let close_id = read_u32(compressed, 36);
            let close = match registry.get_pubkey(close_id) {
                Some(p) => p,
                None => Pubkey::zero(),
            };
            close.append_bytes(&mut out);
            proof {
                lemma_pubkey_bytes_len(close);
            }
        } else {
            push_zeros(&mut out, 4);
            push_zeros(&mut out, 32);
        }
        proof {
            assert(out@ =~= spec_decompress(tier, compressed@, flags, registry.keys()));
        }
        out
    }
}

/// Decompression reads the registry only at the handles the payload names:
/// once those resolve, any extension of the registry decodes identically.
pub proof fn lemma_decompress_stable(
    tier: u8,
    c: Seq<u8>,
    flags: u16,
    ks1: Seq<Pubkey>,
    ks2: Seq<Pubkey>,
)
    requires
        ks1.is_prefix_of(ks2),
        spec_le32(c.subrange(0, 4)) < ks1.len(),
        spec_le32(c.subrange(4, 8)) < ks1.len(),
        tier == 3 ==> spec_le32(c.subrange(32, 36)) < ks1.len() && spec_le32(c.subrange(36, 40))
            < ks1.len(),
    ensures
        spec_decompress(tier, c, flags, ks1) == spec_decompress(tier, c, flags, ks2),
{
    assert(ks1.len() <= ks2.len());
    lemma_prefix_lookup(ks1, ks2, spec_le32(c.subrange(0, 4)) as int);
    lemma_prefix_lookup(ks1, ks2, spec_le32(c.subrange(4, 8)) as int);
    if tier == 3 {
        lemma_prefix_lookup(ks1, ks2, spec_le32(c.subrange(32, 36)) as int);
        lemma_prefix_lookup(ks1, ks2, spec_le32(c.subrange(36, 40)) as int);
    }
}

/// A canonical token record: full length, a state the schema names, tag
/// words that are zero or one, and optional fields zeroed when their tag
/// is zero.
pub open spec fn canonical_token(d: Seq<u8>) -> bool {
    &&& d.len() == 165
    &&& state_byte(d) < 3
    &&& (delegate_tag(d) == 0 || delegate_tag(d) == 1)
    &&& (native_tag(d) == 0 || native_tag(d) == 1)
    &&& (close_tag(d) == 0 || close_tag(d) == 1)
    &&& (delegate_tag(d) == 0 ==> delegate_bytes(d) == zero_bytes(32))
    &&& (native_tag(d) == 0 ==> native_amount_bytes(d) == zero_bytes(8))
    &&& (close_tag(d) == 0 ==> close_bytes(d) == zero_bytes(32))
}

/// Compressor invertibility: decompressing what compression produced, with
/// any registry that extends the one compression left behind, rebuilds the
/// canonical record byte for byte.
#[verifier::rlimit(60)]
pub proof fn lemma_compress_roundtrip(d: Seq<u8>, ks: Seq<Pubkey>, ks2: Seq<Pubkey>)
    requires
        canonical_token(d),
        distinct_keys(ks),
        ks.len() + 4 <= 0xffff_ffff,
        spec_reg_after(d, ks).is_prefix_of(ks2),
    ensures
        spec_decompress(spec_tier(d), spec_compress_payload(d, ks), spec_token_flags(d), ks2) == d,
{
    lemma_le32_roundtrip();
    lemma_le64_roundtrip();
    lemma_zero_word_bytes();
    lemma_token_flags_decode(d);
    let t = spec_tier(d);
    let f = spec_token_flags(d);
    let c = spec_compress_payload(d, ks);

    // Registry bookkeeping: every interned identifier keeps its handle in
    // every later state, including the extension the decoder sees.
    let m = mint_pk(d);
    let o = owner_pk(d);
    lemma_register_frame(ks, m);
    let mint_id = spec_mint_id(d, ks);
    lemma_register_frame(reg1(d, ks), o);
    let owner_id = spec_owner_id(d, ks);
    if has_delegate(d) {
        lemma_register_frame(reg2(d, ks), delegate_pk(d));
    }
    if has_close_auth(d) {
        lemma_register_frame(reg3(d, ks), close_pk(d));
    }
    let ra = spec_reg_after(d, ks);
    lemma_prefix_trans(reg1(d, ks), reg2(d, ks), reg3(d, ks));
    lemma_prefix_trans(reg1(d, ks), reg3(d, ks), ra);
    lemma_prefix_trans(reg1(d, ks), ra, ks2);
    lemma_prefix_trans(reg2(d, ks), reg3(d, ks), ra);
    lemma_prefix_trans(reg2(d, ks), ra, ks2);
    lemma_prefix_trans(reg3(d, ks), ra, ks2);
    lemma_prefix_lookup(reg1(d, ks), ks2, mint_id);
    lemma_prefix_lookup(reg2(d, ks), ks2, owner_id);
    assert(ks2[mint_id] == m);
    assert(ks2[owner_id] == o);
    let del_id = spec_delegate_id(d, ks);
    let close_id = spec_close_id(d, ks);
    if has_delegate(d) {
        lemma_prefix_lookup(reg3(d, ks), ks2, del_id);
        assert(ks2[del_id] == delegate_pk(d));
    }
    if has_close_auth(d) {
        lemma_prefix_lookup(ra, ks2, close_id);
        assert(ks2[close_id] == close_pk(d));
    }

    // Identify the payload's pieces.
    assert(c.subrange(0, 4) =~= spec_u32_bytes(mint_id as u32));
    assert(c.subrange(4, 8) =~= spec_u32_bytes(owner_id as u32));
    assert(c.subrange(8, 16) =~= amount_bytes(d));
    if t == 2 {
        assert(c.subrange(16, 24) =~= native_amount_bytes(d));
    }
    if t == 3 {
        assert(c.subrange(16, 24) =~= (if is_native(d) {
            native_amount_bytes(d)
        } else {
            zero_bytes(8)
        }));
        assert(c.subrange(24, 32) =~= del_amount_bytes(d));
        assert(c.subrange(32, 36) =~= spec_u32_bytes(del_id as u32));
        assert(c.subrange(36, 40) =~= spec_u32_bytes(close_id as u32));
    }

    // Identifier fields come back through the registry.
    lemma_pubkey_from_bytes_roundtrip(mint_bytes(d));
    lemma_pubkey_from_bytes_roundtrip(owner_bytes(d));
    lemma_pubkey_from_bytes_roundtrip(delegate_bytes(d));
    lemma_pubkey_from_bytes_roundtrip(close_bytes(d));

    // Tag and optional regions of the record, by cases on each tag.
    if delegate_tag(d) == 0 {
        lemma_le32_zero(d.subrange(72, 76));
    } else {
        assert(d.subrange(72, 76) == spec_u32_bytes(1)) by {
            assert(spec_u32_bytes(spec_le32(d.subrange(72, 76))) == d.subrange(72, 76));
        }
    }
    if native_tag(d) == 0 {
        lemma_le32_zero(d.subrange(109, 113));
    } else {
        assert(d.subrange(109, 113) == spec_u32_bytes(1)) by {
            assert(spec_u32_bytes(spec_le32(d.subrange(109, 113))) == d.subrange(109, 113));
        }
    }
    if close_tag(d) == 0 {
        lemma_le32_zero(d.subrange(129, 133));
    } else {
        assert(d.subrange(129, 133) == spec_u32_bytes(1)) by {
            assert(spec_u32_bytes(spec_le32(d.subrange(129, 133))) == d.subrange(129, 133));
        }
    }
    if !has_del_amt(d) {
        lemma_le64_zero(d.subrange(121, 129));
    }

    assert(spec_decompress(t, c, f, ks2) =~= d);
}

} // verus!
