use lazy_thread_local::allocator::Allocator;
use lazy_thread_local::allocator::RAllocator;

#[test]
fn block_round_trips_bytes_and_recovers_its_size() {
    let mut b = RAllocator::allocate(16);
    assert_eq!(b.stored_size(), 16);
    b.write(0, 0xab);
    b.write(15, 0x01);
    assert_eq!(b.read(0), 0xab);
    assert_eq!(b.read(15), 0x01);
    assert_eq!(b.stored_size(), 16);
    RAllocator::deallocate(b);
}

#[test]
fn empty_allocation_still_recovers_its_size() {
    let b = RAllocator::allocate(0);
    assert_eq!(b.stored_size(), 0);
    RAllocator::deallocate(b);
}

#[test]
fn large_size_survives_the_bookkeeping_word() {
    // the stored word is little-endian over eight bytes; a size above one
    // byte exercises the higher digits
    let b = RAllocator::allocate(70000);
    assert_eq!(b.stored_size(), 70000);
    RAllocator::deallocate(b);
}
