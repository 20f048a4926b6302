use lib::heap::{bin_chunk_size, size_to_bin, FreeListAllocator, HEAP_SIZE, NUM_BINS};

const BASE: usize = 0x4010_0000;

#[test]
fn size_to_bin_rounds_up_to_granule() {
    assert_eq!(size_to_bin(0), None);
    assert_eq!(size_to_bin(1), Some(0));
    assert_eq!(size_to_bin(16), Some(0));
    assert_eq!(size_to_bin(17), Some(1));
    assert_eq!(size_to_bin(32), Some(1));
    assert_eq!(size_to_bin(255), Some(15));
    assert_eq!(size_to_bin(256), Some(15));
    assert_eq!(size_to_bin(257), None);
    assert_eq!(size_to_bin(4096), None);
}

#[test]
fn bin_chunk_size_is_granule_multiple() {
    assert_eq!(bin_chunk_size(0), 16);
    assert_eq!(bin_chunk_size(1), 32);
    assert_eq!(bin_chunk_size(15), 256);
}

#[test]
fn new_allocator_is_empty() {
    let a = FreeListAllocator::new(BASE);
    assert_eq!(a.base(), BASE);
    assert_eq!(a.total(), 1024 * 1024);
    assert_eq!(a.total(), HEAP_SIZE);
    assert_eq!(a.used(), 0);
    assert_eq!(a.allocs(), 0);
    assert_eq!(a.frees(), 0);
    assert_eq!(a.reuses(), 0);
    for b in 0..NUM_BINS {
        assert_eq!(a.bin_count(b), 0);
    }
}

#[test]
fn freed_chunk_is_handed_out_again() {
    let mut a = FreeListAllocator::new(BASE);
    let x = a.allocate(24, 8).unwrap();
    assert_eq!(x, BASE);
    assert_eq!(a.used(), 32);
    a.deallocate(x, 24, 8);
    assert_eq!(a.bin_count(1), 1);
    assert_eq!(a.frees(), 1);
    let y = a.allocate(30, 4).unwrap();
    assert_eq!(y, x);
    assert_eq!(a.bin_count(1), 0);
    assert_eq!(a.reuses(), 1);
    assert_eq!(a.allocs(), 2);
    assert_eq!(a.used(), 32);
}

#[test]
fn free_lists_are_last_in_first_out() {
    let mut a = FreeListAllocator::new(BASE);
    let p = a.allocate(10, 1).unwrap();
    let q = a.allocate(10, 1).unwrap();
    let r = a.allocate(10, 1).unwrap();
    assert_eq!((p, q, r), (BASE, BASE + 16, BASE + 32));
    a.deallocate(p, 10, 1);
    a.deallocate(r, 10, 1);
    assert_eq!(a.bin_count(0), 2);
    assert_eq!(a.allocate(5, 1), Some(r));
    assert_eq!(a.allocate(5, 1), Some(p));
    assert_eq!(a.allocate(5, 1), Some(BASE + 48));
}

#[test]
fn other_bins_do_not_share_free_chunks() {
    let mut a = FreeListAllocator::new(BASE);
    let p = a.allocate(16, 16).unwrap();
    a.deallocate(p, 16, 16);
    let q = a.allocate(17, 16).unwrap();
    assert_eq!(q, BASE + 16);
    assert_eq!(a.bin_count(0), 1);
    assert_eq!(a.reuses(), 0);
}

#[test]
fn zero_sized_request_uses_smallest_bin() {
    let mut a = FreeListAllocator::new(BASE);
    let p = a.allocate(0, 1).unwrap();
    assert_eq!(p, BASE);
    assert_eq!(a.used(), 16);
    a.deallocate(p, 0, 1);
    assert_eq!(a.bin_count(0), 1);
}

#[test]
fn bumped_chunks_are_granule_aligned_and_disjoint() {
    let mut a = FreeListAllocator::new(BASE);
    let p = a.allocate(1, 1).unwrap();
    let q = a.allocate(100, 8).unwrap();
    let r = a.allocate(3, 2).unwrap();
    assert_eq!(p, BASE);
    assert_eq!(q, BASE + 16);
    assert_eq!(r, BASE + 16 + 112);
    assert_eq!(p % 16, 0);
    assert_eq!(q % 16, 0);
    assert_eq!(r % 16, 0);
}

#[test]
fn large_request_is_aligned_and_never_recycled() {
    let mut a = FreeListAllocator::new(BASE);
    let small = a.allocate(8, 8).unwrap();
    assert_eq!(small, BASE);
    let big = a.allocate(1000, 256).unwrap();
    assert_eq!(big, BASE + 256);
    assert_eq!(a.used(), 256 + 1000);
    a.deallocate(big, 1000, 256);
    assert_eq!(a.frees(), 1);
    for b in 0..NUM_BINS {
        assert_eq!(a.bin_count(b), 0);
    }
    let again = a.allocate(1000, 256).unwrap();
    assert_eq!(again, BASE + 1280);
    assert_eq!(a.reuses(), 0);
}

#[test]
fn large_request_aligns_to_at_least_granule() {
    let mut a = FreeListAllocator::new(BASE);
    a.allocate(300, 1).unwrap();
    let q = a.allocate(300, 1).unwrap();
    assert_eq!(q, BASE + 304);
}

#[test]
fn exhausted_arena_fails_without_change() {
    let mut a = FreeListAllocator::new(BASE);
    assert_eq!(a.allocate(HEAP_SIZE + 1, 16), None);
    assert_eq!(a.allocs(), 0);
    assert_eq!(a.used(), 0);
    let p = a.allocate(HEAP_SIZE - 16, 16).unwrap();
    assert_eq!(p, BASE);
    let q = a.allocate(16, 16).unwrap();
    assert_eq!(q, BASE + HEAP_SIZE - 16);
    assert_eq!(a.used(), HEAP_SIZE);
    assert_eq!(a.allocate(1, 1), None);
    assert_eq!(a.allocate(512, 16), None);
    assert_eq!(a.allocs(), 2);
    assert_eq!(a.used(), HEAP_SIZE);
    a.deallocate(q, 16, 16);
    assert_eq!(a.allocate(3, 1), Some(q));
}

#[test]
fn counters_track_allocations() {
    let mut a = FreeListAllocator::new(BASE);
    let mut live = Vec::new();
    for i in 1..=40usize {
        live.push((a.allocate(i * 7, 8).unwrap(), i * 7));
    }
    assert_eq!(a.allocs(), 40);
    for (p, s) in live.drain(..20) {
        a.deallocate(p, s, 8);
    }
    assert_eq!(a.frees(), 20);
    assert_eq!(a.allocs() - a.frees(), 20);
    assert!(a.reuses() <= a.allocs());
}

#[test]
fn over_aligned_small_request_is_aligned() {
    let mut a = FreeListAllocator::new(BASE);
    assert_eq!(a.allocate(16, 16), Some(BASE));
    let p = a.allocate(32, 64).unwrap();
    assert_eq!(p % 64, 0);
    assert_eq!(p, BASE + 64);
    assert_eq!(a.used(), 64 + 32);
    a.deallocate(p, 32, 64);
    for b in 0..NUM_BINS {
        assert_eq!(a.bin_count(b), 0);
    }
    let q = a.allocate(32, 64).unwrap();
    assert_eq!(q, BASE + 128);
}

#[test]
fn reuse_skips_calls_of_other_bins() {
    let mut a = FreeListAllocator::new(BASE);
    let p = a.allocate(40, 8).unwrap();
    let q = a.allocate(100, 8).unwrap();
    a.deallocate(p, 40, 8);
    let r = a.allocate(5, 1).unwrap();
    a.deallocate(q, 100, 8);
    a.deallocate(r, 5, 1);
    let big = a.allocate(2000, 8).unwrap();
    a.deallocate(big, 2000, 8);
    assert_eq!(a.allocate(48, 16), Some(p));
}

#[test]
fn free_list_is_a_stack() {
    let mut a = FreeListAllocator::new(BASE);
    let x = a.allocate(20, 4).unwrap();
    let y = a.allocate(20, 4).unwrap();
    let z = a.allocate(20, 4).unwrap();
    a.deallocate(x, 20, 4);
    a.deallocate(y, 20, 4);
    assert_eq!(a.allocate(20, 4), Some(y));
    a.deallocate(z, 20, 4);
    assert_eq!(a.allocate(20, 4), Some(z));
    assert_eq!(a.allocate(20, 4), Some(x));
    assert_eq!(a.bin_count(1), 0);
}

#[test]
fn reset_empties_in_place() {
    let mut a = FreeListAllocator::new(BASE);
    let p = a.allocate(8, 8).unwrap();
    a.deallocate(p, 8, 8);
    a.allocate(1000, 8).unwrap();
    a.reset(BASE + 0x10_0000);
    assert_eq!(a.base(), BASE + 0x10_0000);
    assert_eq!((a.used(), a.allocs(), a.frees(), a.reuses()), (0, 0, 0, 0));
    assert_eq!(a.bin_count(0), 0);
    assert_eq!(a.allocate(8, 8), Some(BASE + 0x10_0000));
}

#[test]
fn base_never_changes() {
    let mut a = FreeListAllocator::new(BASE);
    for i in 1..50usize {
        let p = a.allocate(i * 11, 8).unwrap();
        if i % 3 == 0 {
            a.deallocate(p, i * 11, 8);
        }
        assert_eq!(a.base(), BASE);
        assert_eq!(a.base() % 16, 0);
        assert!(a.used() <= a.total());
    }
}
