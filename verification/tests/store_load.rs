use accounts_db::in_memory::{AccountInfo, InMemoryAccountsDb};
use accounts_db::pubkey::Pubkey;

fn pk(a: u64, b: u64) -> Pubkey {
    Pubkey { w0: a, w1: b, w2: b + 17, w3: a ^ 5 }
}

fn pk_bytes(p: &Pubkey) -> Vec<u8> {
    let mut v = Vec::new();
    p.append_bytes(&mut v);
    v
}

#[allow(clippy::too_many_arguments)]
fn token_record(
    mint: &Pubkey,
    owner: &Pubkey,
    amount: u64,
    delegate: Option<&Pubkey>,
    state: u8,
    native: Option<u64>,
    delegated_amount: u64,
    close: Option<&Pubkey>,
) -> Vec<u8> {
    let mut d = vec![0u8; 165];
    d[0..32].copy_from_slice(&pk_bytes(mint));
    d[32..64].copy_from_slice(&pk_bytes(owner));
    d[64..72].copy_from_slice(&amount.to_le_bytes());
    if let Some(del) = delegate {
        d[72..76].copy_from_slice(&1u32.to_le_bytes());
        d[76..108].copy_from_slice(&pk_bytes(del));
    }
    d[108] = state;
    if let Some(amt) = native {
        d[109..113].copy_from_slice(&1u32.to_le_bytes());
        d[113..121].copy_from_slice(&amt.to_le_bytes());
    }
    d[121..129].copy_from_slice(&delegated_amount.to_le_bytes());
    if let Some(ca) = close {
        d[129..133].copy_from_slice(&1u32.to_le_bytes());
        d[133..165].copy_from_slice(&pk_bytes(ca));
    }
    d
}

#[test]
fn load_of_an_unwritten_handle_is_absent() {
    let db = InMemoryAccountsDb::new();
    assert!(db.load(0).is_none());
    assert!(db.load(1).is_none());
    assert!(db.load(12345).is_none());
}

#[test]
fn non_token_record_of_length_100_lands_in_tier_seven() {
    // the smallest tier holding 100 bytes is the 112-byte one
    let mut db = InMemoryAccountsDb::new();
    let owner = pk(77, 1);
    let data = vec![0x5au8; 100];
    db.store(
        5,
        &AccountInfo { lamports: 500, owner, data: data.clone(), rent_epoch: 7, executable: true },
    );
    assert_eq!(InMemoryAccountsDb::get_pool_id(100), 7);
    assert_eq!(db.pools[7].active_slots(), 1);
    let got = db.load(5).unwrap();
    assert_eq!(got.lamports, 500);
    assert_eq!(got.owner, owner);
    assert!(got.executable);
    // lamports > 0: the stored rent epoch is replaced by the exempt
    // sentinel
    assert_eq!(got.rent_epoch, u64::MAX);
    // verbatim payloads come back padded with zeros to the slot size
    let mut expected = data;
    expected.resize(112, 0);
    assert_eq!(got.data, expected);
}

#[test]
fn exact_fit_record_round_trips_byte_for_byte() {
    let mut db = InMemoryAccountsDb::new();
    let owner = pk(3, 9);
    let data: Vec<u8> = (0..64u8).collect();
    db.store(
        9,
        &AccountInfo { lamports: 0, owner, data: data.clone(), rent_epoch: 12, executable: false },
    );
    let got = db.load(9).unwrap();
    assert_eq!(got.data, data);
    assert_eq!(got.lamports, 0);
    assert_eq!(got.rent_epoch, 12);
    assert!(!got.executable);
}

#[test]
fn empty_record_has_no_data_slot() {
    let mut db = InMemoryAccountsDb::new();
    let owner = pk(8, 8);
    db.store(
        2,
        &AccountInfo { lamports: 1, owner, data: vec![], rent_epoch: 0, executable: false },
    );
    let got = db.load(2).unwrap();
    assert!(got.data.is_empty());
    for p in 1..16 {
        assert_eq!(db.pools[p].active_slots(), 0);
    }
}

#[test]
fn bare_token_account_uses_a_sixteen_byte_slot() {
    let mut db = InMemoryAccountsDb::new();
    let tp = Pubkey::token_program_id();
    let d = token_record(&pk(1, 1), &pk(2, 2), 1000, None, 1, None, 0, None);
    db.store(
        3,
        &AccountInfo { lamports: 10, owner: tp, data: d.clone(), rent_epoch: 0, executable: false },
    );
    assert_eq!(db.pools[1].active_slots(), 1);
    let got = db.load(3).unwrap();
    assert_eq!(got.owner, tp);
    assert_eq!(got.data, d);
}

#[test]
fn native_token_account_uses_the_second_tier() {
    let mut db = InMemoryAccountsDb::new();
    let tp = Pubkey::token_program_id();
    let d = token_record(&pk(1, 1), &pk(2, 2), 5, None, 1, Some(42), 0, None);
    db.store(
        4,
        &AccountInfo { lamports: 1, owner: tp, data: d.clone(), rent_epoch: 0, executable: false },
    );
    assert_eq!(db.pools[2].active_slots(), 1);
    assert_eq!(db.pools[1].active_slots(), 0);
    let got = db.load(4).unwrap();
    assert_eq!(got.data, d);
}

#[test]
fn delegated_token_account_uses_the_third_tier() {
    let mut db = InMemoryAccountsDb::new();
    let tp = Pubkey::token_program_id();
    let delegate = pk(31, 3);
    let close = pk(41, 4);
    let d = token_record(&pk(1, 1), &pk(2, 2), 9, Some(&delegate), 1, None, 7, Some(&close));
    db.store(
        6,
        &AccountInfo { lamports: 1, owner: tp, data: d.clone(), rent_epoch: 0, executable: false },
    );
    assert_eq!(db.pools[3].active_slots(), 1);
    // delegate and close authority were interned as distinct identifiers
    let did = db.pubkey_registry.get_id(&delegate).unwrap();
    let cid = db.pubkey_registry.get_id(&close).unwrap();
    assert_ne!(did, cid);
    let got = db.load(6).unwrap();
    assert_eq!(got.data, d);
}

#[test]
fn short_token_owned_record_is_stored_verbatim() {
    let mut db = InMemoryAccountsDb::new();
    let tp = Pubkey::token_program_id();
    let data = vec![0x11u8; 100];
    db.store(
        8,
        &AccountInfo { lamports: 1, owner: tp, data: data.clone(), rent_epoch: 0, executable: false },
    );
    // bound for the tier that holds the full canonical size
    assert_eq!(db.pools[11].active_slots(), 1);
    let got = db.load(8).unwrap();
    let mut expected = data;
    expected.resize(176, 0);
    assert_eq!(got.data, expected);
}

#[test]
fn executable_flag_never_alters_token_data() {
    let mut db = InMemoryAccountsDb::new();
    let tp = Pubkey::token_program_id();
    let d = token_record(&pk(1, 1), &pk(2, 2), 55, None, 2, Some(3), 0, None);
    db.store(
        10,
        &AccountInfo { lamports: 1, owner: tp, data: d.clone(), rent_epoch: 0, executable: true },
    );
    db.store(
        11,
        &AccountInfo { lamports: 1, owner: tp, data: d.clone(), rent_epoch: 0, executable: false },
    );
    let a = db.load(10).unwrap();
    let b = db.load(11).unwrap();
    assert!(a.executable);
    assert!(!b.executable);
    assert_eq!(a.data, b.data);
    assert_eq!(a.data, d);
}

#[test]
fn stores_to_one_handle_leave_others_untouched() {
    let mut db = InMemoryAccountsDb::new();
    let d1: Vec<u8> = vec![1; 16];
    let d2: Vec<u8> = vec![2; 16];
    db.store(
        1,
        &AccountInfo { lamports: 10, owner: pk(1, 0), data: d1.clone(), rent_epoch: 0, executable: false },
    );
    db.store(
        2,
        &AccountInfo { lamports: 20, owner: pk(2, 0), data: d2.clone(), rent_epoch: 0, executable: false },
    );
    db.store(
        1,
        &AccountInfo { lamports: 30, owner: pk(3, 0), data: vec![3; 16], rent_epoch: 0, executable: false },
    );
    let got = db.load(2).unwrap();
    assert_eq!(got.lamports, 20);
    assert_eq!(got.owner, pk(2, 0));
    assert_eq!(got.data, d2);
}

#[test]
fn record_with_all_zero_fields_is_still_present() {
    // even a zero-lamport, zero-epoch, empty, non-executable record packs
    // into a nonzero metadata word, because owner cell 0 stays reserved
    let mut db = InMemoryAccountsDb::new();
    let owner = pk(0, 0);
    db.store(
        1,
        &AccountInfo { lamports: 0, owner, data: vec![], rent_epoch: 0, executable: false },
    );
    let got = db.load(1).unwrap();
    assert_eq!(got.lamports, 0);
    assert_eq!(got.rent_epoch, 0);
    assert_eq!(got.owner, owner);
    assert!(got.data.is_empty());
    assert!(!got.executable);
}

#[test]
fn token_program_identifier_matches_its_base58_form() {
    // 32 bytes of the well-known owner, little-endian words
    let tp = Pubkey::token_program_id();
    let expected: [u8; 32] = [
        6, 221, 246, 225, 215, 101, 161, 147, 217, 203, 225, 70, 206, 235, 121, 172, 28, 180, 133,
        237, 95, 91, 55, 145, 58, 140, 245, 133, 126, 255, 0, 169,
    ];
    assert_eq!(pk_bytes(&tp), expected);
}
