//! Little-endian byte encoding of 32-bit and 64-bit words, with round-trip
//! proofs. Readers take a buffer and an offset; writers append to a buffer.

use vstd::prelude::*;

verus! {

/// The word a 4-byte little-endian sequence denotes.
pub open spec fn spec_le32(s: Seq<u8>) -> u32
    recommends
        s.len() == 4,
{
    (s[0] as u32) | (s[1] as u32) << 8 | (s[2] as u32) << 16 | (s[3] as u32) << 24
}

/// The 4-byte little-endian encoding of a 32-bit word.
pub open spec fn spec_u32_bytes(x: u32) -> Seq<u8> {
    seq![(x & 0xff) as u8, ((x >> 8) & 0xff) as u8, ((x >> 16) & 0xff) as u8, ((x >> 24)
        & 0xff) as u8]
}

/// The word an 8-byte little-endian sequence denotes.
pub open spec fn spec_le64(s: Seq<u8>) -> u64
    recommends
        s.len() == 8,
{
    (s[0] as u64) | (s[1] as u64) << 8 | (s[2] as u64) << 16 | (s[3] as u64) << 24 | (s[4]
        as u64) << 32 | (s[5] as u64) << 40 | (s[6] as u64) << 48 | (s[7] as u64) << 56
}

/// The 8-byte little-endian encoding of a 64-bit word.
pub open spec fn spec_u64_bytes(x: u64) -> Seq<u8> {
    seq![(x & 0xff) as u8, ((x >> 8) & 0xff) as u8, ((x >> 16) & 0xff) as u8, ((x >> 24)
        & 0xff) as u8, ((x >> 32) & 0xff) as u8, ((x >> 40) & 0xff) as u8, ((x >> 48)
        & 0xff) as u8, ((x >> 56) & 0xff) as u8]
}

/// Encoding then decoding a 32-bit word gives the word back, and decoding
/// then encoding 4 bytes gives the bytes back.
pub proof fn lemma_le32_roundtrip()
    ensures
        forall|x: u32|
            #![trigger spec_u32_bytes(x)]
            spec_u32_bytes(x).len() == 4 && spec_le32(spec_u32_bytes(x)) == x,
        forall|s: Seq<u8>|
            #![trigger spec_u32_bytes(spec_le32(s))]
            s.len() == 4 ==> spec_u32_bytes(spec_le32(s)) == s,
{
    assert forall|x: u32|
        #![trigger spec_u32_bytes(x)]
        spec_u32_bytes(x).len() == 4 && spec_le32(spec_u32_bytes(x)) == x by {
        assert(x & 0xff < 256 && (x >> 8) & 0xff < 256 && (x >> 16) & 0xff < 256 && (x >> 24) & 0xff
            < 256) by (bit_vector);
        assert(x == (x & 0xff) | ((x >> 8) & 0xff) << 8 | ((x >> 16) & 0xff) << 16 | ((x >> 24)
            & 0xff) << 24) by (bit_vector);
    }
    assert forall|s: Seq<u8>| s.len() == 4 implies #[trigger] spec_u32_bytes(spec_le32(s)) == s by {
        let x = spec_le32(s);
        let b0 = s[0] as u32;
        let b1 = s[1] as u32;
        let b2 = s[2] as u32;
        let b3 = s[3] as u32;
        assert((x == b0 | b1 << 8 | b2 << 16 | b3 << 24 && b0 < 256 && b1 < 256 && b2 < 256 && b3
            < 256) ==> b0 == (x & 0xff) && b1 == ((x >> 8) & 0xff) && b2 == ((x >> 16) & 0xff) && b3
            == ((x >> 24) & 0xff)) by (bit_vector);
        assert(spec_u32_bytes(spec_le32(s)) =~= s);
    }
}

/// Encoding then decoding a 64-bit word gives the word back, and decoding
/// then encoding 8 bytes gives the bytes back.
pub proof fn lemma_le64_roundtrip()
    ensures
        forall|x: u64|
            #![trigger spec_u64_bytes(x)]
            spec_u64_bytes(x).len() == 8 && spec_le64(spec_u64_bytes(x)) == x,
        forall|s: Seq<u8>|
            #![trigger spec_u64_bytes(spec_le64(s))]
            s.len() == 8 ==> spec_u64_bytes(spec_le64(s)) == s,
{
    assert forall|x: u64|
        #![trigger spec_u64_bytes(x)]
        spec_u64_bytes(x).len() == 8 && spec_le64(spec_u64_bytes(x)) == x by {
        assert(x & 0xff < 256 && (x >> 8) & 0xff < 256 && (x >> 16) & 0xff < 256 && (x >> 24) & 0xff
            < 256 && (x >> 32) & 0xff < 256 && (x >> 40) & 0xff < 256 && (x >> 48) & 0xff < 256 && (
        x >> 56) & 0xff < 256) by (bit_vector);
        assert(x == (x & 0xff) | ((x >> 8) & 0xff) << 8 | ((x >> 16) & 0xff) << 16 | ((x >> 24)
            & 0xff) << 24 | ((x >> 32) & 0xff) << 32 | ((x >> 40) & 0xff) << 40 | ((x >> 48)
            & 0xff) << 48 | ((x >> 56) & 0xff) << 56) by (bit_vector);
    }
    assert forall|s: Seq<u8>| s.len() == 8 implies #[trigger] spec_u64_bytes(spec_le64(s)) == s by {
        let x = spec_le64(s);
        let b0 = s[0] as u64;
        let b1 = s[1] as u64;
        let b2 = s[2] as u64;
        let b3 = s[3] as u64;
        let b4 = s[4] as u64;
        let b5 = s[5] as u64;
        let b6 = s[6] as u64;
        let b7 = s[7] as u64;
        assert((x == b0 | b1 << 8 | b2 << 16 | b3 << 24 | b4 << 32 | b5 << 40 | b6 << 48 | b7 << 56
            && b0 < 256 && b1 < 256 && b2 < 256 && b3 < 256 && b4 < 256 && b5 < 256 && b6 < 256
            && b7 < 256) ==> b0 == (x & 0xff) && b1 == ((x >> 8) & 0xff) && b2 == ((x >> 16) & 0xff)
            && b3 == ((x >> 24) & 0xff) && b4 == ((x >> 32) & 0xff) && b5 == ((x >> 40) & 0xff)
            && b6 == ((x >> 48) & 0xff) && b7 == ((x >> 56) & 0xff)) by (bit_vector);
        assert(spec_u64_bytes(spec_le64(s)) =~= s);
    }
}

pub fn read_u32(v: &Vec<u8>, off: usize) -> (x: u32)
    requires
        off + 4 <= v@.len(),
    ensures
        x == spec_le32(v@.subrange(off as int, off + 4)),
{
    let n = v.len();
    let x = (v[off] as u32) | (v[off + 1] as u32) << 8 | (v[off + 2] as u32) << 16 | (v[off
        + 3] as u32) << 24;
    proof {
        let s = v@.subrange(off as int, off + 4);
        assert(s[0] == v@[off as int] && s[1] == v@[off + 1] && s[2] == v@[off + 2] && s[3] == v@[off
            + 3]);
    }
    x
}

pub fn read_u64(v: &Vec<u8>, off: usize) -> (x: u64)
    requires
        off + 8 <= v@.len(),
    ensures
        x == spec_le64(v@.subrange(off as int, off + 8)),
{
    let n = v.len();
    let x = (v[off] as u64) | (v[off + 1] as u64) << 8 | (v[off + 2] as u64) << 16 | (v[off
        + 3] as u64) << 24 | (v[off + 4] as u64) << 32 | (v[off + 5] as u64) << 40 | (v[off
        + 6] as u64) << 48 | (v[off + 7] as u64) << 56;
    proof {
        let s = v@.subrange(off as int, off + 8);
        assert(s[0] == v@[off as int] && s[1] == v@[off + 1] && s[2] == v@[off + 2] && s[3] == v@[off
            + 3] && s[4] == v@[off + 4] && s[5] == v@[off + 5] && s[6] == v@[off + 6] && s[7]
            == v@[off + 7]);
    }
    x
}

pub fn push_u32(out: &mut Vec<u8>, x: u32)
    ensures
        final(out)@ == old(out)@ + spec_u32_bytes(x),
{
    out.push((x & 0xff) as u8);
    out.push(((x >> 8) & 0xff) as u8);
    out.push(((x >> 16) & 0xff) as u8);
    out.push(((x >> 24) & 0xff) as u8);
    proof {
        assert(out@ =~= old(out)@ + spec_u32_bytes(x));
    }
}

pub fn push_u64(out: &mut Vec<u8>, x: u64)
    ensures
        final(out)@ == old(out)@ + spec_u64_bytes(x),
{
    out.push((x & 0xff) as u8);
    out.push(((x >> 8) & 0xff) as u8);
    out.push(((x >> 16) & 0xff) as u8);
    out.push(((x >> 24) & 0xff) as u8);
    out.push(((x >> 32) & 0xff) as u8);
    out.push(((x >> 40) & 0xff) as u8);
    out.push(((x >> 48) & 0xff) as u8);
    out.push(((x >> 56) & 0xff) as u8);
    proof {
        assert(out@ =~= old(out)@ + spec_u64_bytes(x));
    }
}

/// A sequence of `n` zero bytes.
pub open spec fn zero_bytes(n: int) -> Seq<u8> {
    Seq::new(n as nat, |i: int| 0u8)
}

/// Appends the bytes `src[a..b]` to a buffer.
pub fn push_range(out: &mut Vec<u8>, src: &Vec<u8>, a: usize, b: usize)
    requires
        a <= b,
        b <= src@.len(),
    ensures
        final(out)@ == old(out)@ + src@.subrange(a as int, b as int),
{
    let mut j: usize = a;
    while j < b
        invariant
            a <= j <= b,
            b <= src@.len(),
            out@ == old(out)@ + src@.subrange(a as int, j as int),
        decreases b - j,
    {
        out.push(src[j]);
        proof {
            assert(out@ =~= old(out)@ + src@.subrange(a as int, j + 1));
        }
        j = j + 1;
    }
}

/// Appends `n` zero bytes to a buffer.
pub fn push_zeros(out: &mut Vec<u8>, n: usize)
    ensures
        final(out)@ == old(out)@ + zero_bytes(n as int),
{
    let mut j: usize = 0;
    while j < n
        invariant
            j <= n,
            out@ == old(out)@ + zero_bytes(j as int),
        decreases n - j,
    {
        out.push(0);
        proof {
            assert(out@ =~= old(out)@ + zero_bytes(j + 1));
        }
        j = j + 1;
    }
    proof {
        assert(out@ =~= old(out)@ + zero_bytes(n as int));
    }
}

/// The zero word encodes as zero bytes, for both widths.
pub proof fn lemma_zero_word_bytes()
    ensures
        spec_u32_bytes(0) == zero_bytes(4),
        spec_u64_bytes(0) == zero_bytes(8),
{
    assert(0u32 & 0xff == 0 && (0u32 >> 8) & 0xff == 0 && (0u32 >> 16) & 0xff == 0 && (0u32 >> 24)
        & 0xff == 0) by (bit_vector);
    assert(0u64 & 0xff == 0 && (0u64 >> 8) & 0xff == 0 && (0u64 >> 16) & 0xff == 0 && (0u64 >> 24)
        & 0xff == 0 && (0u64 >> 32) & 0xff == 0 && (0u64 >> 40) & 0xff == 0 && (0u64 >> 48) & 0xff
        == 0 && (0u64 >> 56) & 0xff == 0) by (bit_vector);
    assert(spec_u32_bytes(0) =~= zero_bytes(4));
    assert(spec_u64_bytes(0) =~= zero_bytes(8));
}

/// A 4-byte region decodes to zero exactly when it is all zero.
pub proof fn lemma_le32_zero(s: Seq<u8>)
    requires
        s.len() == 4,
    ensures
        spec_le32(s) == 0 <==> s == zero_bytes(4),
{
    lemma_le32_roundtrip();
    lemma_zero_word_bytes();
    if spec_le32(s) == 0 {
        assert(spec_u32_bytes(spec_le32(s)) == s);
    }
    if s == zero_bytes(4) {
        assert(spec_le32(spec_u32_bytes(0)) == 0);
    }
}

/// An 8-byte region decodes to zero exactly when it is all zero.
pub proof fn lemma_le64_zero(s: Seq<u8>)
    requires
        s.len() == 8,
    ensures
        spec_le64(s) == 0 <==> s == zero_bytes(8),
{
    lemma_le64_roundtrip();
    lemma_zero_word_bytes();
    if spec_le64(s) == 0 {
        assert(spec_u64_bytes(spec_le64(s)) == s);
    }
    if s == zero_bytes(8) {
        assert(spec_le64(spec_u64_bytes(0)) == 0);
    }
}

} // verus!
