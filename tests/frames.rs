use rusty_os::page::{
    align_val, alloc_pages, dealloc, init, page_allocations, zalloc, FreeError, PAGE_SIZE,
};

const HEAP_START: usize = 0x8000_0000;

#[test]
fn align_val_rounds_up_to_power_of_two() {
    assert_eq!(align_val(4097, 12), 8192);
    assert_eq!(align_val(4096, 12), 4096);
    assert_eq!(align_val(0, 3), 0);
    assert_eq!(align_val(9, 3), 16);
    assert_eq!(align_val(16, 3), 16);
    assert_eq!(align_val((1usize << 40) + 1, 40), 2usize << 40);
    assert_eq!(align_val(5, 63), 1usize << 63);
}

#[test]
fn init_places_frames_past_descriptor_table() {
    let fa = init(HEAP_START, 64 * PAGE_SIZE);
    assert_eq!(fa.page_count(), 64);
    // 64 descriptor bytes, rounded up to the next frame boundary
    assert_eq!(fa.alloc_start(), HEAP_START + 4096);
    for i in 0..64 {
        assert!(!fa.is_taken(i));
    }
    assert_eq!(fa.heap_start(), HEAP_START);
    assert_eq!(fa.heap_size(), 64 * PAGE_SIZE);
}

#[test]
fn alloc_is_first_fit_aligned_and_disjoint() {
    let mut fa = init(HEAP_START, 64 * PAGE_SIZE);
    let base = fa.alloc_start();
    let a = alloc_pages(&mut fa, 3).unwrap();
    let b = alloc_pages(&mut fa, 2).unwrap();
    assert_eq!(a, base);
    assert_eq!(b, base + 3 * PAGE_SIZE);
    assert_eq!(a % 4096, 0);
    assert_eq!(b % 4096, 0);
    assert!(b >= a + 3 * PAGE_SIZE);
    assert!(fa.is_taken(0) && fa.is_taken(1) && fa.is_taken(2));
    assert!(!fa.is_last(0) && !fa.is_last(1) && fa.is_last(2));
    assert!(fa.is_taken(3) && fa.is_last(4));
    assert!(!fa.is_taken(5));
}

#[test]
fn alloc_reuses_lowest_hole() {
    let mut fa = init(HEAP_START, 64 * PAGE_SIZE);
    let a = alloc_pages(&mut fa, 2).unwrap();
    let b = alloc_pages(&mut fa, 2).unwrap();
    assert_eq!(dealloc(&mut fa, a), Ok(()));
    let c = alloc_pages(&mut fa, 1).unwrap();
    assert_eq!(c, a);
    let d = alloc_pages(&mut fa, 2).unwrap();
    assert_eq!(d, b + 2 * PAGE_SIZE);
}

#[test]
fn alloc_can_use_every_frame() {
    let mut fa = init(HEAP_START, 64 * PAGE_SIZE);
    assert_eq!(alloc_pages(&mut fa, 65), None);
    let all = alloc_pages(&mut fa, 64).unwrap();
    assert_eq!(all, fa.alloc_start());
    assert!(fa.is_taken(63) && fa.is_last(63));
    assert_eq!(alloc_pages(&mut fa, 1), None);
    assert_eq!(dealloc(&mut fa, all), Ok(()));
    let a = alloc_pages(&mut fa, 63).unwrap();
    assert_eq!(a, fa.alloc_start());
    // the last frame is the one run of a single free frame left
    let b = alloc_pages(&mut fa, 1).unwrap();
    assert_eq!(b, fa.alloc_start() + 63 * PAGE_SIZE);
    assert_eq!(alloc_pages(&mut fa, 1), None);
}

#[test]
fn dealloc_then_alloc_returns_same_address() {
    let mut fa = init(HEAP_START, 64 * PAGE_SIZE);
    let a = alloc_pages(&mut fa, 5).unwrap();
    assert_eq!(dealloc(&mut fa, a), Ok(()));
    for i in 0..64 {
        assert!(!fa.is_taken(i));
    }
    let b = alloc_pages(&mut fa, 5).unwrap();
    assert_eq!(a, b);
}

#[test]
fn two_runs_freed_then_combined_run_fits() {
    let mut fa = init(HEAP_START, 16 * PAGE_SIZE);
    let a = alloc_pages(&mut fa, 6).unwrap();
    let b = alloc_pages(&mut fa, 9).unwrap();
    assert_eq!(b, a + 6 * PAGE_SIZE);
    assert_eq!(dealloc(&mut fa, a), Ok(()));
    assert_eq!(dealloc(&mut fa, b), Ok(()));
    let c = alloc_pages(&mut fa, 15).unwrap();
    assert_eq!(c, a);
}

#[test]
fn dealloc_reports_null_and_out_of_range() {
    let mut fa = init(HEAP_START, 8 * PAGE_SIZE);
    let base = fa.alloc_start();
    assert_eq!(dealloc(&mut fa, 0), Err(FreeError::Null));
    assert_eq!(dealloc(&mut fa, base - 1), Err(FreeError::OutOfRange));
    assert_eq!(dealloc(&mut fa, base + 8 * PAGE_SIZE), Err(FreeError::OutOfRange));
}

#[test]
fn dealloc_detects_double_free() {
    let mut fa = init(HEAP_START, 8 * PAGE_SIZE);
    let a = alloc_pages(&mut fa, 2).unwrap();
    let b = alloc_pages(&mut fa, 1).unwrap();
    assert_eq!(dealloc(&mut fa, a), Ok(()));
    assert_eq!(dealloc(&mut fa, a), Err(FreeError::DoubleFree));
    // nothing changed by the refused call
    assert!(fa.is_taken(2) && fa.is_last(2));
    assert_eq!(dealloc(&mut fa, b), Ok(()));
}

#[test]
fn dealloc_inside_run_frees_its_tail() {
    let mut fa = init(HEAP_START, 8 * PAGE_SIZE);
    let a = alloc_pages(&mut fa, 3).unwrap();
    assert_eq!(dealloc(&mut fa, a + PAGE_SIZE), Ok(()));
    assert!(fa.is_taken(0));
    assert!(!fa.is_taken(1) && !fa.is_taken(2));
    // the head of the run no longer reaches a last frame
    assert_eq!(dealloc(&mut fa, a), Err(FreeError::DoubleFree));
}

#[test]
fn zalloc_returns_zeroed_frames() {
    let mut fa = init(HEAP_START, 8 * PAGE_SIZE);
    let root = zalloc(&mut fa, 1).unwrap();
    // building a mapping writes table entries into fresh frames
    assert_eq!(rusty_os::mmu::map(&mut fa, root, 0x1000, 0x2000, 6, 0), Ok(()));
    let level1 = 1usize;
    let w = level1 * 512;
    assert_ne!(fa.read_word(w), 0);
    rusty_os::mmu::unmap(&mut fa, root);
    let again = zalloc(&mut fa, 1).unwrap();
    assert_eq!(again, fa.alloc_start() + PAGE_SIZE);
    for k in 0..512 {
        assert_eq!(fa.read_word(w + k), 0);
    }
}

#[test]
fn zalloc_fails_like_alloc() {
    let mut fa = init(HEAP_START, 2 * PAGE_SIZE);
    assert!(zalloc(&mut fa, 1).is_some());
    assert!(zalloc(&mut fa, 1).is_some());
    assert_eq!(zalloc(&mut fa, 1), None);
}

#[test]
fn page_allocations_lists_runs_in_order() {
    let mut fa = init(HEAP_START, 16 * PAGE_SIZE);
    assert_eq!(page_allocations(&fa), vec![]);
    let _a = alloc_pages(&mut fa, 3).unwrap();
    let b = alloc_pages(&mut fa, 1).unwrap();
    let _c = alloc_pages(&mut fa, 2).unwrap();
    let _d = alloc_pages(&mut fa, 1).unwrap();
    assert_eq!(page_allocations(&fa), vec![(0, 3), (3, 1), (4, 2), (6, 1)]);
    assert_eq!(dealloc(&mut fa, b), Ok(()));
    assert_eq!(page_allocations(&fa), vec![(0, 3), (4, 2), (6, 1)]);
}
