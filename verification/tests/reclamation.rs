use accounts_db::in_memory::{AccountInfo, InMemoryAccountsDb};
use accounts_db::pubkey::Pubkey;

fn pk(a: u64, b: u64) -> Pubkey {
    Pubkey { w0: a, w1: b, w2: 0, w3: 0 }
}

#[test]
fn overwriting_one_handle_recycles_every_replaced_slot() {
    let mut db = InMemoryAccountsDb::new();
    let owner = pk(1, 1);
    for round in 0..1000u64 {
        let mut data = vec![0u8; 256];
        data[0..8].copy_from_slice(&round.to_le_bytes());
        db.store(
            7,
            &AccountInfo { lamports: 1, owner, data, rent_epoch: 0, executable: false },
        );
    }
    // drain the two epochs still holding retired slots
    db.reclaim();
    db.reclaim();
    // 256-byte payloads live in tier 12; exactly one slot is still in
    // use, and every other slot ever created sits on the free list
    let created = db.pools[12].slots_created() as usize;
    assert_eq!(db.pools[12].active_slots(), 1);
    assert_eq!(db.pools[12].free_list_len(), created - 2);
    // replaced slots were recycled: far fewer slots exist than stores
    assert!(created < 10);
    let got = db.load(7).unwrap();
    assert_eq!(u64::from_le_bytes(got.data[0..8].try_into().unwrap()), 999);
}

#[test]
fn replaced_slot_is_not_freed_in_the_same_round() {
    let mut db = InMemoryAccountsDb::new();
    let owner = pk(2, 2);
    db.store(
        1,
        &AccountInfo { lamports: 1, owner, data: vec![1; 16], rent_epoch: 0, executable: false },
    );
    db.store(
        1,
        &AccountInfo { lamports: 1, owner, data: vec![2; 16], rent_epoch: 0, executable: false },
    );
    // the first slot was retired, not yet freed: reclamation defers it
    assert_eq!(db.pools[1].active_slots(), 2);
    assert_eq!(db.pools[1].free_list_len(), 0);
    db.reclaim();
    db.reclaim();
    assert_eq!(db.pools[1].active_slots(), 1);
    assert_eq!(db.pools[1].free_list_len(), 1);
}

#[test]
fn distinct_handles_with_distinct_owners_fill_the_owner_table_once() {
    let mut db = InMemoryAccountsDb::new();
    let n: u64 = 500;
    for h in 1..=n {
        let owner = pk(h, 1000 + h);
        db.store(
            h as u32,
            &AccountInfo { lamports: h, owner, data: vec![h as u8; 8], rent_epoch: 0, executable: false },
        );
    }
    // every record resolves its own owner
    for h in 1..=n {
        let got = db.load(h as u32).unwrap();
        assert_eq!(got.owner, pk(h, 1000 + h));
        assert_eq!(got.lamports, h);
    }
    // the owner table holds exactly the distinct owner set, each once,
    // and never in the reserved cell 0
    assert_eq!(db.owner_registry[0], 0);
    let mut cells: Vec<u32> = db.owner_registry.iter().copied().filter(|c| *c != 0).collect();
    assert_eq!(cells.len(), n as usize);
    cells.sort_unstable();
    cells.dedup();
    assert_eq!(cells.len(), n as usize);
}

#[test]
fn storing_the_same_owner_twice_claims_one_cell() {
    let mut db = InMemoryAccountsDb::new();
    let owner = pk(9, 9);
    db.store(
        1,
        &AccountInfo { lamports: 1, owner, data: vec![], rent_epoch: 0, executable: false },
    );
    db.store(
        2,
        &AccountInfo { lamports: 2, owner, data: vec![], rent_epoch: 0, executable: false },
    );
    let claimed = db.owner_registry.iter().filter(|c| **c != 0).count();
    assert_eq!(claimed, 1);
    assert_eq!(db.load(1).unwrap().owner, owner);
    assert_eq!(db.load(2).unwrap().owner, owner);
}
