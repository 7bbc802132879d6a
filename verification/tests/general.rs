//! End-to-end tests of the dynamic allocator and the global entry
//! points.

use elfmalloc::general::DynamicAllocator;
use elfmalloc::global::GlobalAllocator;

#[test]
fn general_alloc_basic_global_single_threaded() {
    let mut ga = GlobalAllocator::new();
    for size in ((1 << 13) - 8)..((1 << 13) + 1) {
        let item = ga.allocate(size * 8);
        assert!(item != 0);
        ga.write(item, 0, 10);
        assert_eq!(ga.read(item, 0), 10);
        ga.free(item);
    }
}

#[test]
fn general_alloc_basic_clone_single_threaded() {
    let mut da = DynamicAllocator::new();
    let h = da.new_handle();
    for size in ((1 << 13) - 8)..((1 << 13) + 1) {
        let item = da.allocate_via(h, size * 8);
        assert!(item != 0);
        da.write(item, 0, 10);
        assert_eq!(da.read(item, 0), 10);
        da.free_via(h, item);
    }
}

#[test]
fn all_sizes_one_thread() {
    let mut ga = GlobalAllocator::new();
    for size in 1..((1 << 21) + 1) {
        let item = ga.allocate(size);
        assert!(item != 0);
        ga.write(item, 0, 10);
        ga.free(item);
        if size + 2 > 1 << 20 {
            return;
        }
    }
}

#[test]
fn alloc_returns_distinct_live_pointers() {
    let mut da = DynamicAllocator::new();
    let p1 = da.allocate(64);
    let p2 = da.allocate(64);
    let p3 = da.allocate(64);
    assert!(p1 != 0 && p2 != 0 && p3 != 0);
    assert!(p1 != p2 && p2 != p3 && p1 != p3);
    da.free(p1);
    da.free(p2);
    da.free(p3);
}

#[test]
fn alloc_alignment() {
    let mut da = DynamicAllocator::new();
    let p8 = da.allocate(5);
    assert_eq!(p8 % 8, 0);
    let p16 = da.allocate(100);
    assert_eq!(p16 % 16, 0);
    let p256 = da.allocate(200);
    assert_eq!(p256 % 256, 0);
    let p4096 = da.allocate(5000);
    assert_eq!(p4096 % 4096, 0);
    let plarge = da.allocate(3 << 20);
    assert_eq!(plarge % 4096, 0);
    da.free(p8);
    da.free(p16);
    da.free(p256);
    da.free(p4096);
    da.free(plarge);
}

#[test]
fn write_read_roundtrip() {
    let mut da = DynamicAllocator::new();
    let p = da.allocate(32);
    for i in 0..32 {
        da.write(p, i, (i as u8).wrapping_mul(7));
    }
    for i in 0..32 {
        assert_eq!(da.read(p, i), (i as u8).wrapping_mul(7));
    }
    da.free(p);
}

#[test]
fn realloc_null_allocates() {
    let mut da = DynamicAllocator::new();
    let p = da.realloc(0, 48);
    assert!(p != 0);
    da.free(p);
}

#[test]
fn realloc_zero_frees() {
    let mut da = DynamicAllocator::new();
    let p = da.allocate(48);
    let r = da.realloc(p, 0);
    assert_eq!(r, 0);
}

#[test]
fn realloc_fitting_keeps_pointer() {
    let mut da = DynamicAllocator::new();
    // a request of 100 bytes is granted a 112-byte class object, so any
    // resize within that class must return the same pointer
    let p = da.allocate(100);
    let r = da.realloc(p, 112);
    assert_eq!(r, p);
    da.free(p);
}

#[test]
fn realloc_grow_preserves_prefix() {
    let mut da = DynamicAllocator::new();
    let p = da.allocate(40);
    for i in 0..40 {
        da.write(p, i, 0xA0u8.wrapping_add(i as u8));
    }
    let q = da.realloc(p, 4000);
    assert!(q != 0);
    assert!(q != p);
    for i in 0..40 {
        assert_eq!(da.read(q, i), 0xA0u8.wrapping_add(i as u8));
    }
    da.free(q);
}

#[test]
fn realloc_grow_into_large_preserves_prefix() {
    let mut da = DynamicAllocator::new();
    let p = da.allocate(512 * 1024);
    for i in 0..64 {
        da.write(p, i, 3u8.wrapping_add(i as u8));
    }
    let q = da.realloc(p, 2 << 20);
    assert!(q != 0);
    for i in 0..64 {
        assert_eq!(da.read(q, i), 3u8.wrapping_add(i as u8));
    }
    da.free(q);
}

#[test]
fn large_commitment_header() {
    let mut da = DynamicAllocator::new();
    let n = 2 << 20;
    let p = da.allocate(n);
    assert!(p != 0);
    assert!(!da.contains(p));
    let (total, base) = da.get_commitment(p);
    assert_eq!(base, p - 4096);
    assert_eq!(total, n + 4096);
    da.free(p);
    // the header word records the requested size plus the header page,
    // even when the request is not a whole number of pages
    let m = (2 << 20) + 1;
    let q = da.allocate(m);
    assert!(q != 0);
    let (word, qbase) = da.get_commitment(q);
    assert_eq!(word, m + 4096);
    assert_eq!(qbase, q - 4096);
    da.free(q);
}

#[test]
fn small_allocations_live_in_creek() {
    let mut da = DynamicAllocator::new();
    let p = da.allocate(64);
    assert!(da.contains(p));
    let q = da.allocate(2 << 20);
    assert!(!da.contains(q));
    da.free(p);
    da.free(q);
}

#[test]
fn heavy_churn_reuses_creek() {
    let mut da = DynamicAllocator::new();
    for _round in 0..2 {
        let mut ptrs = Vec::new();
        for _ in 0..4096 {
            let p = da.allocate(16);
            assert!(p != 0);
            ptrs.push(p);
        }
        ptrs.sort_unstable();
        ptrs.dedup();
        assert_eq!(ptrs.len(), 4096);
        for p in ptrs {
            da.free(p);
        }
    }
}

#[test]
fn handles_share_the_back_end() {
    // a block allocated through one handle is live for every handle of
    // the same allocator: either side may free what the other allocated
    let mut da = DynamicAllocator::new();
    let h = da.new_handle();
    let p = da.allocate_via(h, 64);
    assert!(p != 0);
    da.write(p, 0, 42);
    assert_eq!(da.read(p, 0), 42);
    da.free(p);
    let q = da.allocate(24);
    assert!(q != 0);
    da.free_via(h, q);
}

#[test]
fn global_recursive_init_routes_to_large() {
    let mut ga = GlobalAllocator::new();
    ga.init_begin();
    assert!(ga.is_initializing());
    let p = ga.allocate(64);
    assert!(p != 0);
    // the bypass maps a page-aligned large block whatever the size
    assert_eq!(p % 4096, 0);
    ga.init_end();
    assert!(!ga.is_initializing());
    ga.free(p);
}

#[test]
fn global_reclaim_queue_drains() {
    let mut ga = GlobalAllocator::new();
    let p = ga.allocate(64);
    assert!(p != 0);
    ga.init_begin();
    ga.free(p);
    ga.init_end();
    ga.drain_reclaim();
    let q = ga.allocate(64);
    assert!(q != 0);
    ga.free(q);
}

#[test]
fn global_realloc_after_init() {
    let mut ga = GlobalAllocator::new();
    let p = ga.allocate(100);
    ga.write(p, 0, 9);
    let q = ga.realloc(p, 5000);
    assert!(q != 0);
    assert_eq!(ga.read(q, 0), 9);
    ga.free(q);
}

#[test]
fn slab_drains_back_to_page_allocator() {
    // fill one whole slab of the 16-byte class and one object more, so a
    // second slab enters circulation; then free everything, draining the
    // first slab back to the page allocator, and allocate again
    let mut da = DynamicAllocator::new();
    let cap = (2097152 - 4096) / 16;
    let mut ptrs = Vec::with_capacity(cap + 1);
    for _ in 0..(cap + 1) {
        let p = da.allocate(16);
        assert!(p != 0);
        ptrs.push(p);
    }
    for p in ptrs {
        da.free(p);
    }
    let q = da.allocate(16);
    assert!(q != 0);
    da.free(q);
}

#[test]
fn magazine_overflow_flushes_batches() {
    // more frees than both magazine batches hold, forcing a flush, then
    // reuse from the refilled magazine
    let mut da = DynamicAllocator::new();
    let mut ptrs = Vec::new();
    for _ in 0..40 {
        let p = da.allocate(48);
        assert!(p != 0);
        ptrs.push(p);
    }
    for p in ptrs {
        da.free(p);
    }
    let mut again = Vec::new();
    for _ in 0..40 {
        let p = da.allocate(48);
        assert!(p != 0);
        again.push(p);
    }
    again.sort_unstable();
    again.dedup();
    assert_eq!(again.len(), 40);
    for p in again {
        da.free(p);
    }
}
