//! A 32-byte public identifier, held as four little-endian 64-bit words so
//! that equality stays structural. Its byte view is the 32-byte string the
//! rest of the system speaks of.

use crate::bytes_le::{lemma_le64_roundtrip, push_u64, read_u64, spec_le64, spec_u64_bytes};
use vstd::prelude::*;

verus! {

#[derive(Clone, Copy, PartialEq, Eq, Structural, Debug)]
pub struct Pubkey {
    pub w0: u64,
    pub w1: u64,
    pub w2: u64,
    pub w3: u64,
}

impl Pubkey {
    /// The 32-byte string this identifier stands for.
    pub open spec fn bytes(self) -> Seq<u8> {
        spec_u64_bytes(self.w0) + spec_u64_bytes(self.w1) + spec_u64_bytes(self.w2)
            + spec_u64_bytes(self.w3)
    }

    pub open spec fn spec_from_bytes(s: Seq<u8>) -> Pubkey {
        Pubkey {
            w0: spec_le64(s.subrange(0, 8)),
            w1: spec_le64(s.subrange(8, 16)),
            w2: spec_le64(s.subrange(16, 24)),
            w3: spec_le64(s.subrange(24, 32)),
        }
    }

    pub open spec fn spec_zero() -> Pubkey {
        Pubkey { w0: 0, w1: 0, w2: 0, w3: 0 }
    }

    /// The well-known owner identifier whose accounts the compressor
    /// applies to, its 32 bytes read as four little-endian words.
    pub open spec fn spec_token_program_id() -> Pubkey {
        Pubkey {
            w0: 0x93a165d7e1f6dd06,
            w1: 0xac79ebce46e1cbd9,
            w2: 0x91375b5fed85b41c,
            w3: 0xa900ff7e85f58c3a,
        }
    }

    pub fn zero() -> (r: Pubkey)
        ensures
            r == Self::spec_zero(),
    {
        Pubkey { w0: 0, w1: 0, w2: 0, w3: 0 }
    }

    pub fn token_program_id() -> (r: Pubkey)
        ensures
            r == Self::spec_token_program_id(),
    {
        Pubkey {
            w0: 0x93a165d7e1f6dd06,
            w1: 0xac79ebce46e1cbd9,
            w2: 0x91375b5fed85b41c,
            w3: 0xa900ff7e85f58c3a,
        }
    }

    /// Reads an identifier out of 32 bytes of a buffer.
    pub fn read_at(v: &Vec<u8>, off: usize) -> (r: Pubkey)
        requires
            off + 32 <= v@.len(),
        ensures
            r == Self::spec_from_bytes(v@.subrange(off as int, off + 32)),
    {
        let n = v.len();
        let w0 = read_u64(v, off);
        let w1 = read_u64(v, off + 8);
        let w2 = read_u64(v, off + 16);
        let w3 = read_u64(v, off + 24);
        proof {
            let s = v@.subrange(off as int, off + 32);
            assert(v@.subrange(off as int, off + 8) =~= s.subrange(0, 8));
            assert(v@.subrange(off + 8, off + 16) =~= s.subrange(8, 16));
            assert(v@.subrange(off + 16, off + 24) =~= s.subrange(16, 24));
            assert(v@.subrange(off + 24, off + 32) =~= s.subrange(24, 32));
        }
        Pubkey { w0, w1, w2, w3 }
    }

    /// Appends the 32 bytes of this identifier to a buffer.
    pub fn append_bytes(&self, out: &mut Vec<u8>)
        ensures
            final(out)@ == old(out)@ + self.bytes(),
    {
        push_u64(out, self.w0);
        push_u64(out, self.w1);
        push_u64(out, self.w2);
        push_u64(out, self.w3);
        proof {
            assert(out@ =~= old(out)@ + self.bytes());
        }
    }
}

/// Every identifier's byte view has exactly 32 bytes.
pub proof fn lemma_pubkey_bytes_len(p: Pubkey)
    ensures
        p.bytes().len() == 32,
{
    lemma_le64_roundtrip();
}

/// Reading 32 bytes into an identifier and writing it back yields the same
/// bytes.
pub proof fn lemma_pubkey_from_bytes_roundtrip(s: Seq<u8>)
    requires
        s.len() == 32,
    ensures
        Pubkey::spec_from_bytes(s).bytes() == s,
{
    lemma_le64_roundtrip();
    assert(Pubkey::spec_from_bytes(s).bytes() =~= s);
}

} // verus!
