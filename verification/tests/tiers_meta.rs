use accounts_db::in_memory::InMemoryAccountsDb;
use accounts_db::meta16b::{encode_lamports_rent, meta_flags, Meta16B};

#[test]
fn pool_id_picks_smallest_tier() {
    // the tier table: [0, 16, 32, 48, 64, 80, 96, 112, 128, 144, 160, 176,
    // 256, 512, 1024, 8192]
    assert_eq!(InMemoryAccountsDb::get_pool_id(0), 0);
    assert_eq!(InMemoryAccountsDb::get_pool_id(1), 1);
    assert_eq!(InMemoryAccountsDb::get_pool_id(16), 1);
    assert_eq!(InMemoryAccountsDb::get_pool_id(17), 2);
    assert_eq!(InMemoryAccountsDb::get_pool_id(48), 3);
    assert_eq!(InMemoryAccountsDb::get_pool_id(100), 7);
    assert_eq!(InMemoryAccountsDb::get_pool_id(112), 7);
    assert_eq!(InMemoryAccountsDb::get_pool_id(165), 11);
    assert_eq!(InMemoryAccountsDb::get_pool_id(176), 11);
    assert_eq!(InMemoryAccountsDb::get_pool_id(177), 12);
    assert_eq!(InMemoryAccountsDb::get_pool_id(1024), 14);
    assert_eq!(InMemoryAccountsDb::get_pool_id(1025), 15);
    assert_eq!(InMemoryAccountsDb::get_pool_id(8192), 15);
    assert_eq!(InMemoryAccountsDb::get_pool_id(9000), 15);
}

#[test]
fn meta_word_packs_and_unpacks() {
    let lr = encode_lamports_rent(0, 77);
    let m = Meta16B::pack(lr, 3, 42, 12, 9);
    assert_eq!(m.owner_idx(), 3);
    assert_eq!(m.data_offset(), 42);
    assert_eq!(m.data_pool_id(), 12);
    assert_eq!(m.flags(), 9);
    assert_eq!(m.get_lamports(), 0);
    assert_eq!(m.get_rent_epoch(), 77);
}

#[test]
fn positive_lamports_report_exempt_sentinel() {
    let lr = encode_lamports_rent(500, 7);
    let m = Meta16B::pack(lr, 1, 0, 0, 0);
    assert_eq!(m.get_lamports(), 500);
    assert_eq!(m.get_rent_epoch(), u64::MAX);
}

#[test]
fn zero_lamports_keep_rent_epoch() {
    let lr = encode_lamports_rent(0, 4095);
    let m = Meta16B::pack(lr, 1, 0, 0, 0);
    assert_eq!(m.get_lamports(), 0);
    assert_eq!(m.get_rent_epoch(), 4095);
}

#[test]
fn executable_bit_is_disjoint_from_token_flags() {
    let with_exec = meta_flags(0x2b, true);
    let without_exec = meta_flags(0x2b, false);
    assert_eq!(with_exec >> 1, 0x2b);
    assert_eq!(without_exec >> 1, 0x2b);
    assert_eq!(with_exec & 1, 1);
    assert_eq!(without_exec & 1, 0);
}
