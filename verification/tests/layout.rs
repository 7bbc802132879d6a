//! Tests of the size-class arithmetic and the page-mapping
//! configuration.

use elfmalloc::layout::{class_of, class_size, round_up};
use elfmalloc::mmap_alloc::{
    MapAlloc, MapAllocBuilder, MapStep, PROT_EXEC, PROT_NONE, PROT_READ, PROT_READ_EXEC,
    PROT_READ_WRITE, PROT_READ_WRITE_EXEC, PROT_WRITE, PROT_WRITE_EXEC, get_perm, next_multiple,
};

#[test]
fn round_up_multiples_of_16() {
    assert_eq!(round_up(0), 0);
    assert_eq!(round_up(1), 16);
    assert_eq!(round_up(16), 16);
    assert_eq!(round_up(17), 32);
    assert_eq!(round_up(100), 112);
}

#[test]
fn word_class_serves_tiny_requests() {
    assert_eq!(class_of(0), 0);
    assert_eq!(class_of(8), 0);
    assert_eq!(class_size(0), 8);
}

#[test]
fn small_tier_is_multiples_of_16() {
    assert_eq!(class_of(9), 1);
    assert_eq!(class_size(1), 16);
    assert_eq!(class_of(100), 7);
    assert_eq!(class_size(7), 112);
    assert_eq!(class_of(192), 12);
    assert_eq!(class_size(12), 192);
}

#[test]
fn medium_tier_is_powers_of_two() {
    assert_eq!(class_of(193), 13);
    assert_eq!(class_size(13), 256);
    assert_eq!(class_of(257), 14);
    assert_eq!(class_size(14), 512);
    assert_eq!(class_of(1 << 19), 24);
    assert_eq!(class_size(24), 1 << 19);
    assert_eq!(class_of((1 << 20) - 1), 25);
    assert_eq!(class_size(25), 1 << 20);
}

#[test]
fn perm_words_cover_all_combinations() {
    assert_eq!(get_perm(false, false, false), PROT_NONE);
    assert_eq!(get_perm(true, false, false), PROT_READ);
    assert_eq!(get_perm(false, true, false), PROT_WRITE);
    assert_eq!(get_perm(false, false, true), PROT_EXEC);
    assert_eq!(get_perm(true, true, false), PROT_READ_WRITE);
    assert_eq!(get_perm(true, false, true), PROT_READ_EXEC);
    assert_eq!(get_perm(false, true, true), PROT_WRITE_EXEC);
    assert_eq!(get_perm(true, true, true), PROT_READ_WRITE_EXEC);
    assert_eq!(get_perm(true, true, false), 3);
}

#[test]
fn next_multiple_rounds_to_unit() {
    assert_eq!(next_multiple(0, 4096), 0);
    assert_eq!(next_multiple(1, 4096), 4096);
    assert_eq!(next_multiple(4096, 4096), 4096);
    assert_eq!(next_multiple(4097, 4096), 8192);
    assert_eq!(next_multiple(5, 4), 8);
}

#[test]
fn builder_default_builds() {
    let b = MapAllocBuilder::default();
    let m = b.build();
    assert!(m.is_some());
}

#[test]
fn builder_permission_methods_chain() {
    let b = MapAllocBuilder::default().no_write().no_read().exec().read().write().no_exec();
    assert!(b.build().is_some());
}

#[test]
fn builder_obj_size_must_be_page_multiple() {
    let b = MapAllocBuilder::default().obj_size(4096 * 4);
    let m = b.build();
    assert!(m.is_some());
}

#[test]
fn alloc_helper_accepts_nonzero_and_retries_zero() {
    let m = MapAlloc::default();
    match m.alloc_helper(8192, 12288) {
        MapStep::Done(p) => assert_eq!(p, 12288),
        MapStep::UnmapRetry { .. } => panic!("nonzero mapping must be accepted"),
    }
    match m.alloc_helper(8192, 0) {
        MapStep::Done(_) => panic!("a mapping at zero must be retried"),
        MapStep::UnmapRetry { unmap_base, unmap_size } => {
            assert!(unmap_base > 0);
            assert!(unmap_base + unmap_size == 8192);
        },
    }
}

#[test]
fn uncommit_echoes_range() {
    let m = MapAlloc::default();
    let (p, s) = m.uncommit(0, 8192, 1);
    assert_eq!(p, 0);
    assert_eq!(s, 8192);
}

#[test]
fn commit_step_is_page_size() {
    let m = MapAlloc::default();
    let step = m.commit(0, 1);
    assert!(step >= 1);
}
