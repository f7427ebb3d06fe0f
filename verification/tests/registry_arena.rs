use accounts_db::arena::SubArena;
use accounts_db::pubkey::Pubkey;
use accounts_db::pubkey_registry::PubkeyRegistry;

fn pk(a: u64, b: u64) -> Pubkey {
    Pubkey { w0: a, w1: b, w2: a ^ b, w3: 7 }
}

#[test]
fn register_is_stable() {
    let mut reg = PubkeyRegistry::new();
    let x = pk(1, 2);
    let y = pk(3, 4);
    let idx = reg.register(&x);
    let idy = reg.register(&y);
    assert_ne!(idx, idy);
    // the same identifier keeps its handle on every invocation
    assert_eq!(reg.register(&x), idx);
    assert_eq!(reg.register(&y), idy);
    assert_eq!(reg.register(&x), idx);
}

#[test]
fn lookup_of_register_returns_the_identifier() {
    let mut reg = PubkeyRegistry::new();
    let x = pk(11, 22);
    let id = reg.register(&x);
    assert_eq!(reg.get_pubkey(id), Some(x));
    assert_eq!(reg.get_id(&x), Some(id));
}

#[test]
fn unknown_handles_and_identifiers_resolve_to_nothing() {
    let mut reg = PubkeyRegistry::new();
    assert_eq!(reg.get_pubkey(0), None);
    assert_eq!(reg.get_id(&pk(9, 9)), None);
    reg.register(&pk(1, 1));
    assert_eq!(reg.get_pubkey(1), None);
}

#[test]
fn handles_are_dense_and_monotonic() {
    let mut reg = PubkeyRegistry::new();
    for i in 0..10u64 {
        let id = reg.register(&pk(i, 100));
        assert_eq!(id, i as u32);
    }
}

#[test]
fn arena_allocates_distinct_zeroed_slots() {
    let mut a = SubArena::new(16, 1);
    let s1 = a.alloc_slot();
    let s2 = a.alloc_slot();
    assert_ne!(s1, 0);
    assert_ne!(s2, 0);
    assert_ne!(s1, s2);
    assert_eq!(a.read_slot(s1), vec![0u8; 16]);
    let payload = vec![1u8, 2, 3, 4];
    a.write_slot(s1, &payload);
    let mut expected = payload.clone();
    expected.resize(16, 0);
    assert_eq!(a.read_slot(s1), expected);
    assert_eq!(a.read_slot(s2), vec![0u8; 16]);
}

#[test]
fn arena_recycles_freed_slots_zeroed() {
    let mut a = SubArena::new(16, 1);
    let s1 = a.alloc_slot();
    a.write_slot(s1, &vec![9u8; 16]);
    assert_eq!(a.active_slots(), 1);
    a.free(s1);
    assert_eq!(a.active_slots(), 0);
    assert_eq!(a.free_list_len(), 1);
    let s2 = a.alloc_slot();
    // last-in first-out recycling, and the slot comes back zeroed
    assert_eq!(s2, s1);
    assert_eq!(a.free_list_len(), 0);
    assert_eq!(a.read_slot(s2), vec![0u8; 16]);
}

#[test]
fn recycling_is_last_in_first_out() {
    let mut a = SubArena::new(16, 1);
    let s1 = a.alloc_slot();
    let s2 = a.alloc_slot();
    let s3 = a.alloc_slot();
    a.free(s1);
    a.free(s3);
    // the most recently freed slot is handed out first
    assert_eq!(a.alloc_slot(), s3);
    assert_eq!(a.alloc_slot(), s1);
    assert_eq!(a.free_list_len(), 0);
    let _ = s2;
}

#[test]
fn freeing_the_null_slot_does_nothing() {
    let mut a = SubArena::new(16, 1);
    let s1 = a.alloc_slot();
    a.free(0);
    assert_eq!(a.free_list_len(), 0);
    assert_eq!(a.active_slots(), 1);
    a.free(s1);
    assert_eq!(a.free_list_len(), 1);
}
