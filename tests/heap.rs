use rusty_os::kmem::{
    coalesce, get_head, get_num_allocations, get_page_table, heap_blocks, init, kfree, kmalloc,
    kzmalloc, AllocList, AllocListFlags, KernelHeap, TAKEN_BIT,
};
use rusty_os::page::{self, FrameAllocator, PAGE_SIZE};

const TOTAL: u64 = 64 * 4096;

fn fresh() -> (FrameAllocator, KernelHeap) {
    let mut fa = page::init(0x8000_0000, 128 * PAGE_SIZE);
    let heap = init(&mut fa).unwrap();
    (fa, heap)
}

#[test]
fn header_flags_and_size() {
    assert_eq!(AllocListFlags::Taken.val(), 1u64 << 63);
    let mut h = AllocList { flags_and_size: 0 };
    h.set_size(4096);
    assert_eq!(h.get_size(), 4096);
    assert!(h.is_free());
    h.set_taken();
    assert!(h.is_taken());
    assert_eq!(h.flags_and_size, TAKEN_BIT | 4096);
    h.set_size(48);
    assert!(h.is_taken());
    assert_eq!(h.get_size(), 48);
    h.set_free();
    assert!(h.is_free());
    assert_eq!(h.flags_and_size, 48);
}

#[test]
fn init_formats_one_free_block() {
    let (fa, heap) = fresh();
    assert_eq!(get_num_allocations(&heap), 64);
    assert_eq!(get_head(&heap), fa.alloc_start());
    assert_eq!(get_page_table(&heap), fa.alloc_start() + 64 * PAGE_SIZE);
    assert_eq!(heap_blocks(&heap), vec![(TOTAL, false)]);
    for i in 0..65 {
        assert!(fa.is_taken(i));
    }
}

#[test]
fn init_fails_without_frames() {
    let mut exact = page::init(0x8000_0000, 65 * PAGE_SIZE);
    // 64 heap frames and the root table fill the region exactly
    assert!(init(&mut exact).is_some());
    let mut fa = page::init(0x8000_0000, 64 * PAGE_SIZE);
    // 64 heap frames fit, the root table then does not
    assert!(init(&mut fa).is_none());
    let mut small = page::init(0x8000_0000, 32 * PAGE_SIZE);
    assert!(init(&mut small).is_none());
}

#[test]
fn kmalloc_rounds_up_and_splits() {
    let (_fa, mut heap) = fresh();
    let head = get_head(&heap);
    let a = kmalloc(&mut heap, 1).unwrap();
    assert_eq!(a, head + 8);
    let b = kmalloc(&mut heap, 16).unwrap();
    assert_eq!(b, head + 16 + 8);
    assert_eq!(
        heap_blocks(&heap),
        vec![(16, true), (24, true), (TOTAL - 40, false)]
    );
}

#[test]
fn kmalloc_takes_whole_block_when_rest_is_a_header() {
    let (_fa, mut heap) = fresh();
    let head = get_head(&heap);
    // request 262128 + 8 leaves 8 bytes: no split
    let a = kmalloc(&mut heap, (TOTAL - 16) as usize).unwrap();
    assert_eq!(a, head + 8);
    assert_eq!(heap_blocks(&heap), vec![(TOTAL, true)]);
    assert_eq!(kmalloc(&mut heap, 0), None);
}

#[test]
fn kmalloc_refuses_what_does_not_fit() {
    let (_fa, mut heap) = fresh();
    assert_eq!(kmalloc(&mut heap, TOTAL as usize), None);
    assert_eq!(kmalloc(&mut heap, (TOTAL - 8) as usize), None);
    assert_eq!(kmalloc(&mut heap, usize::MAX), None);
    assert_eq!(heap_blocks(&heap), vec![(TOTAL, false)]);
}

#[test]
fn kfree_of_only_allocation_restores_heap() {
    let (_fa, mut heap) = fresh();
    let p = kmalloc(&mut heap, 100).unwrap();
    kfree(&mut heap, p);
    assert_eq!(heap_blocks(&heap), vec![(TOTAL, false)]);
    let q = kmalloc(&mut heap, (TOTAL - 16) as usize).unwrap();
    assert_eq!(q, get_head(&heap) + 8);
}

#[test]
fn three_blocks_coalesce_pairwise() {
    let (_fa, mut heap) = fresh();
    let head = get_head(&heap);
    let a = kmalloc(&mut heap, 24).unwrap();
    let b = kmalloc(&mut heap, 24).unwrap();
    let c = kmalloc(&mut heap, 24).unwrap();
    assert_eq!((a, b, c), (head + 8, head + 40, head + 72));
    kfree(&mut heap, a);
    kfree(&mut heap, c);
    assert_eq!(
        heap_blocks(&heap),
        vec![(32, false), (32, true), (TOTAL - 64, false)]
    );
    kfree(&mut heap, b);
    assert_eq!(heap_blocks(&heap), vec![(64, false), (TOTAL - 64, false)]);
    // a request for all three payloads is served from the rest
    let d = kmalloc(&mut heap, 3 * 32 - 8).unwrap();
    assert_eq!(d, head + 64 + 8);
}

#[test]
fn coalesce_pass_merges_one_neighbour() {
    let (_fa, mut heap) = fresh();
    let _a = kmalloc(&mut heap, 8).unwrap();
    let b = kmalloc(&mut heap, 8).unwrap();
    let c = kmalloc(&mut heap, 8).unwrap();
    let d = kmalloc(&mut heap, 8).unwrap();
    let _e = kmalloc(&mut heap, 8).unwrap();
    kfree(&mut heap, b);
    kfree(&mut heap, d);
    kfree(&mut heap, c);
    assert_eq!(
        heap_blocks(&heap),
        vec![(16, true), (32, false), (16, false), (16, true), (TOTAL - 80, false)]
    );
    coalesce(&mut heap);
    assert_eq!(
        heap_blocks(&heap),
        vec![(16, true), (48, false), (16, true), (TOTAL - 80, false)]
    );
}

#[test]
fn kfree_ignores_null_and_foreign_pointers() {
    let (_fa, mut heap) = fresh();
    let head = get_head(&heap);
    let a = kmalloc(&mut heap, 40).unwrap();
    let before = heap_blocks(&heap);
    kfree(&mut heap, 0);
    kfree(&mut heap, a + 8);
    kfree(&mut heap, head);
    kfree(&mut heap, head + TOTAL as usize + 8);
    assert_eq!(heap_blocks(&heap), before);
}

#[test]
fn kzmalloc_allocates_like_kmalloc() {
    let (_fa, mut heap) = fresh();
    let head = get_head(&heap);
    let a = kzmalloc(&mut heap, 10).unwrap();
    assert_eq!(a, head + 8);
    assert_eq!(heap_blocks(&heap), vec![(24, true), (TOTAL - 24, false)]);
    assert_eq!(kzmalloc(&mut heap, TOTAL as usize), None);
}

#[test]
fn three_large_blocks_leave_two_free_blocks() {
    let (_fa, mut heap) = fresh();
    let head = get_head(&heap);
    let a = kmalloc(&mut heap, 60000).unwrap();
    let b = kmalloc(&mut heap, 60000).unwrap();
    let c = kmalloc(&mut heap, 60000).unwrap();
    kfree(&mut heap, a);
    kfree(&mut heap, c);
    kfree(&mut heap, b);
    // one pass per free: A with B, C with the rest
    assert_eq!(
        heap_blocks(&heap),
        vec![(2 * 60008, false), (TOTAL - 2 * 60008, false)]
    );
    assert_eq!(kmalloc(&mut heap, 3 * 60008 - 8), None);
    assert_eq!(kmalloc(&mut heap, 2 * 60008 - 16), Some(head + 8));
}

#[test]
fn kmalloc_results_are_eight_byte_aligned() {
    let (_fa, mut heap) = fresh();
    for sz in [1usize, 3, 8, 13, 100, 4095] {
        let p = kmalloc(&mut heap, sz).unwrap();
        assert_eq!(p % 8, 0);
        let q = kzmalloc(&mut heap, sz).unwrap();
        assert_eq!(q % 8, 0);
    }
}
