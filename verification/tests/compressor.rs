use accounts_db::pubkey::Pubkey;
use accounts_db::pubkey_registry::PubkeyRegistry;
use accounts_db::spl_compressor::SPLCompressor;

fn pk(a: u64, b: u64) -> Pubkey {
    Pubkey { w0: a, w1: b, w2: b.wrapping_mul(3), w3: a + 1 }
}

fn pk_bytes(p: &Pubkey) -> Vec<u8> {
    let mut v = Vec::new();
    p.append_bytes(&mut v);
    v
}

#[allow(clippy::too_many_arguments)]
fn token_record(
    mint: &Pubkey,
    owner: &Pubkey,
    amount: u64,
    delegate: Option<&Pubkey>,
    state: u8,
    native: Option<u64>,
    delegated_amount: u64,
    close: Option<&Pubkey>,
) -> Vec<u8> {
    let mut d = vec![0u8; 165];
    d[0..32].copy_from_slice(&pk_bytes(mint));
    d[32..64].copy_from_slice(&pk_bytes(owner));
    d[64..72].copy_from_slice(&amount.to_le_bytes());
    if let Some(del) = delegate {
        d[72..76].copy_from_slice(&1u32.to_le_bytes());
        d[76..108].copy_from_slice(&pk_bytes(del));
    }
    d[108] = state;
    if let Some(amt) = native {
        d[109..113].copy_from_slice(&1u32.to_le_bytes());
        d[113..121].copy_from_slice(&amt.to_le_bytes());
    }
    d[121..129].copy_from_slice(&delegated_amount.to_le_bytes());
    if let Some(ca) = close {
        d[129..133].copy_from_slice(&1u32.to_le_bytes());
        d[133..165].copy_from_slice(&pk_bytes(ca));
    }
    d
}

#[test]
fn bare_account_compresses_to_first_tier_and_back() {
    let mut reg = PubkeyRegistry::new();
    let d = token_record(&pk(1, 1), &pk(2, 2), 1000, None, 1, None, 0, None);
    let (tier, payload, flags) = SPLCompressor::compress(&d, &mut reg);
    assert_eq!(tier, 1);
    assert_eq!(payload.len(), 16);
    assert_eq!(flags, 1);
    let back = SPLCompressor::decompress(tier, &payload, flags, &reg);
    assert_eq!(back, d);
}

#[test]
fn native_account_compresses_to_second_tier_and_back() {
    let mut reg = PubkeyRegistry::new();
    let d = token_record(&pk(1, 1), &pk(2, 2), 5, None, 1, Some(42), 0, None);
    let (tier, payload, flags) = SPLCompressor::compress(&d, &mut reg);
    assert_eq!(tier, 2);
    assert_eq!(payload.len(), 32);
    // state 1, native bit
    assert_eq!(flags, 1 | 4);
    let back = SPLCompressor::decompress(tier, &payload, flags, &reg);
    assert_eq!(back, d);
}

#[test]
fn delegated_account_compresses_to_third_tier_and_back() {
    let mut reg = PubkeyRegistry::new();
    let mint = pk(1, 1);
    let owner = pk(2, 2);
    let delegate = pk(3, 3);
    let close = pk(4, 4);
    let d = token_record(&mint, &owner, 9, Some(&delegate), 2, None, 7, Some(&close));
    let (tier, payload, flags) = SPLCompressor::compress(&d, &mut reg);
    assert_eq!(tier, 3);
    assert_eq!(payload.len(), 48);
    // state 2, delegate, close authority, delegated amount
    assert_eq!(flags, 2 | 8 | 16 | 32);
    // the four identifiers got four distinct handles
    let ids = [
        reg.get_id(&mint).unwrap(),
        reg.get_id(&owner).unwrap(),
        reg.get_id(&delegate).unwrap(),
        reg.get_id(&close).unwrap(),
    ];
    for i in 0..4 {
        for j in (i + 1)..4 {
            assert_ne!(ids[i], ids[j]);
        }
    }
    let back = SPLCompressor::decompress(tier, &payload, flags, &reg);
    assert_eq!(back, d);
}

#[test]
fn frozen_state_survives_the_round_trip() {
    let mut reg = PubkeyRegistry::new();
    let d = token_record(&pk(8, 8), &pk(9, 9), 0, None, 2, None, 0, None);
    let (tier, payload, flags) = SPLCompressor::compress(&d, &mut reg);
    assert_eq!(flags & 3, 2);
    let back = SPLCompressor::decompress(tier, &payload, flags, &reg);
    assert_eq!(back[108], 2);
    assert_eq!(back, d);
}

#[test]
fn short_record_passes_through_verbatim() {
    let mut reg = PubkeyRegistry::new();
    let d = vec![7u8; 100];
    let (tier, payload, flags) = SPLCompressor::compress(&d, &mut reg);
    // too short to be a token account: stored untouched, in a tier that
    // holds the full canonical size so reads never try to decompress it
    assert_eq!(tier, 11);
    assert_eq!(payload, d);
    assert_eq!(flags, 0);
}

#[test]
fn oversized_tag_normalizes_to_one() {
    // a tag word of 5 still means "present"; the round trip writes it
    // back as 1 (the documented lossy normalization)
    let mut reg = PubkeyRegistry::new();
    let delegate = pk(3, 3);
    let mut d = token_record(&pk(1, 1), &pk(2, 2), 9, Some(&delegate), 1, None, 0, None);
    d[72..76].copy_from_slice(&5u32.to_le_bytes());
    let (tier, payload, flags) = SPLCompressor::compress(&d, &mut reg);
    assert_eq!(tier, 3);
    let back = SPLCompressor::decompress(tier, &payload, flags, &reg);
    assert_eq!(u32::from_le_bytes(back[72..76].try_into().unwrap()), 1);
    let mut normalized = d.clone();
    normalized[72..76].copy_from_slice(&1u32.to_le_bytes());
    assert_eq!(back, normalized);
}

#[test]
fn trailing_bytes_beyond_canonical_length_are_dropped() {
    let mut reg = PubkeyRegistry::new();
    let mut d = token_record(&pk(1, 1), &pk(2, 2), 3, None, 0, None, 0, None);
    d.extend_from_slice(&[0xaa; 10]);
    let (tier, payload, flags) = SPLCompressor::compress(&d, &mut reg);
    assert_eq!(tier, 1);
    let back = SPLCompressor::decompress(tier, &payload, flags, &reg);
    assert_eq!(back.len(), 165);
    assert_eq!(back[..], d[..165]);
}
