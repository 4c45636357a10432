use lazy_thread_local::keys::KeyEntry;
use lazy_thread_local::keys::KeyTable;
use lazy_thread_local::tls::SeedInit;
use lazy_thread_local::tls::ThreadLocal;

fn seeded(value: u8) -> SeedInit<u8> {
    SeedInit { seed: value }
}

#[test]
fn t() {
    let mut table: KeyTable<u8> = KeyTable::new();

    let mut r: ThreadLocal<u8, SeedInit<u8>> = ThreadLocal::new(seeded(6), &mut table, 1);

    assert!(*r.get(&mut table, 1) == 6);
    *r.get_mut(&mut table, 1) = 7;
    assert!(*r.get(&mut table, 1) == 7);
    *r.get_mut(&mut table, 1) = 8;
    assert!(*r.get(&mut table, 1) == 8);

    let mut r: ThreadLocal<u8, SeedInit<u8>> = ThreadLocal::const_new(6);

    assert!(*r.get(&mut table, 1) == 6);
    *r.get_mut(&mut table, 1) = 7;
    assert!(*r.get(&mut table, 1) == 7);
    *r.get_mut(&mut table, 1) = 8;
    assert!(*r.get(&mut table, 1) == 8);
}

#[test]
fn first_get_returns_initial_value_and_is_stable() {
    let mut table: KeyTable<u32> = KeyTable::new();
    let mut c = ThreadLocal::new(seeded_u32(41), &mut table, 1);
    assert_eq!(*c.get(&mut table, 1), 41);
    assert_eq!(*c.get(&mut table, 1), 41);
    *c.get_mut(&mut table, 1) = 99;
    assert_eq!(*c.get(&mut table, 1), 99);
    assert_eq!(*c.get(&mut table, 1), 99);
}

fn seeded_u32(value: u32) -> SeedInit<u32> {
    SeedInit { seed: value }
}

#[test]
fn mutation_is_not_visible_to_other_threads() {
    let mut table: KeyTable<u32> = KeyTable::new();
    let mut c = ThreadLocal::new(seeded_u32(5), &mut table, 1);
    *c.get_mut(&mut table, 1) = 42;
    assert_eq!(*c.get(&mut table, 2), 5);
    assert_eq!(*c.get(&mut table, 1), 42);
    assert_eq!(*c.get(&mut table, 2), 5);
}

#[test]
fn const_seeded_first_gets_yield_seed_on_every_thread() {
    let mut table: KeyTable<u32> = KeyTable::new();
    let mut c: ThreadLocal<u32, SeedInit<u32>> = ThreadLocal::const_new(17);
    assert!(!c.key_created);
    assert_eq!(*c.get(&mut table, 1), 17);
    assert!(c.key_created);
    let key = c.key;
    assert_eq!(*c.get(&mut table, 2), 17);
    assert_eq!(*c.get(&mut table, 3), 17);
    // the key was materialised once, by the first access
    assert_eq!(c.key, key);
}

#[test]
fn teardown_clears_all_slots_and_recycles_the_key() {
    let mut table: KeyTable<u32> = KeyTable::new();
    let mut c = ThreadLocal::new(seeded_u32(5), &mut table, 1);
    *c.get_mut(&mut table, 1) = 50;
    *c.get_mut(&mut table, 2) = 60;
    let key = c.key;
    c.teardown(&mut table);

    // force the next creation onto the recycle pool: the fresh candidate
    // collides with a placeholder row inserted by a plain lookup
    let next_candidate = 1usize;
    table.get_key(1, next_candidate);
    let mut c2 = ThreadLocal::new(seeded_u32(7), &mut table, 1);
    assert_eq!(c2.key, key);
    // the recycled key observes no stale state from the torn-down container
    assert_eq!(*c2.get(&mut table, 1), 7);
    assert_eq!(*c2.get(&mut table, 2), 7);
}

#[test]
fn recycled_keys_are_reusable_over_bounded_cycles() {
    let mut table: KeyTable<u8> = KeyTable::new();
    let first = table.create_key(9);
    assert_eq!(first, 0);
    table.delete_key(first);
    for round in 1usize..20 {
        // a placeholder row at the fresh candidate forces the pool draw
        table.get_key(9, round);
        let key = table.create_key(9);
        assert_eq!(key, first);
        table.delete_key(key);
    }
}

#[test]
fn lookup_inserts_placeholder_and_set_fills_it() {
    let mut table: KeyTable<u8> = KeyTable::new();
    let key = table.create_key(4);
    assert!(!table.get_key(4, key));
    table.set_key(4, key, 11);
    assert!(table.get_key(4, key));
    assert_eq!(*table.value_ref(4, key), 11);
    // another thread's slot under the same key stays independent
    assert!(!table.get_key(5, key));
}

#[test]
fn delete_of_an_unknown_key_is_a_harmless_sweep() {
    let mut table: KeyTable<u8> = KeyTable::new();
    table.delete_key(3);
    let key = table.create_key(1);
    table.set_key(1, key, 2);
    assert_eq!(*table.value_ref(1, key), 2);
}

#[test]
fn rows_compare_by_their_pair_alone() {
    let a = KeyEntry { thread_id: 1u64, key: 2usize, value: Some(9u8) };
    let b = KeyEntry { thread_id: 1u64, key: 2usize, value: None };
    let c = KeyEntry { thread_id: 1u64, key: 3usize, value: None };
    let d = KeyEntry { thread_id: 2u64, key: 0usize, value: None };
    assert!(a == b);
    assert!(a != c);
    assert!(a < c);
    assert!(c < d);
    assert!(b <= a);
}

#[test]
fn value_mut_writes_through() {
    let mut table: KeyTable<u8> = KeyTable::new();
    let key = table.create_key(1);
    table.set_key(1, key, 10);
    *table.value_mut(1, key) = 20;
    assert_eq!(*table.value_ref(1, key), 20);
}
