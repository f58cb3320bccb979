use rusty_os::mmu::{id_map_range, unmap, virt_to_phys, Entry, EntryBits, MapError, Table};
use rusty_os::page::{self, alloc_pages, zalloc, FrameAllocator, PAGE_SIZE};

fn arena(pages: usize) -> (FrameAllocator, usize) {
    let mut fa = page::init(0x8000_0000, pages * PAGE_SIZE);
    let root = zalloc(&mut fa, 1).unwrap();
    (fa, root)
}

#[test]
fn entry_bits_values() {
    assert_eq!(EntryBits::Empty.val(), 0);
    assert_eq!(EntryBits::Valid.val(), 1);
    assert_eq!(EntryBits::Read.val(), 2);
    assert_eq!(EntryBits::Write.val(), 4);
    assert_eq!(EntryBits::Execute.val(), 8);
    assert_eq!(EntryBits::User.val(), 16);
    assert_eq!(EntryBits::Global.val(), 32);
    assert_eq!(EntryBits::Access.val(), 64);
    assert_eq!(EntryBits::Dirty.val(), 128);
    assert_eq!(EntryBits::ReadWrite.val(), 6);
    assert_eq!(EntryBits::ReadExecute.val(), 10);
    assert_eq!(EntryBits::ReadWriteExecute.val(), 14);
    assert_eq!(EntryBits::UserReadWrite.val(), 22);
    assert_eq!(EntryBits::UserReadExecute.val(), 26);
    assert_eq!(EntryBits::UserReadWriteExecute.val(), 30);
}

#[test]
fn entry_kinds() {
    let mut e = Entry { entry: 0 };
    assert!(e.is_invalid() && !e.is_valid());
    e.set_entry((0x8000_1000u64 >> 2) | 1);
    assert!(e.is_valid() && e.is_branch() && !e.is_leaf());
    e.set_entry(0x2000_0400 | 6 | 1);
    assert!(e.is_valid() && e.is_leaf() && !e.is_branch());
    assert_eq!(e.get_entry(), 0x2000_0407);
    assert_eq!(Table::len(), 512);
}

#[test]
fn map_then_walk_gives_physical_address() {
    let (mut fa, root) = arena(16);
    let v = 0x4020_3000usize;
    let p = 0x8765_4000usize;
    assert_eq!(rusty_os::mmu::map(&mut fa, root, v, p, EntryBits::ReadWrite.val(), 0), Ok(()));
    assert_eq!(virt_to_phys(&fa, root, v), Some(p));
    assert_eq!(virt_to_phys(&fa, root, v + 0x123), Some(p + 0x123));
    assert_eq!(virt_to_phys(&fa, root, v + 0x1000), None);
    // two intermediate tables were allocated
    assert!(fa.is_taken(1) && fa.is_taken(2) && !fa.is_taken(3));
}

#[test]
fn map_shares_intermediate_tables() {
    let (mut fa, root) = arena(16);
    let rw = EntryBits::ReadWrite.val();
    assert_eq!(rusty_os::mmu::map(&mut fa, root, 0x1000, 0x9000, rw, 0), Ok(()));
    assert_eq!(rusty_os::mmu::map(&mut fa, root, 0x2000, 0xa000, rw, 0), Ok(()));
    assert!(!fa.is_taken(3));
    assert_eq!(virt_to_phys(&fa, root, 0x1008), Some(0x9008));
    assert_eq!(virt_to_phys(&fa, root, 0x2010), Some(0xa010));
}

#[test]
fn superpage_leaves_keep_low_bits() {
    let (mut fa, root) = arena(16);
    let rw = EntryBits::ReadWrite.val();
    assert_eq!(rusty_os::mmu::map(&mut fa, root, 0x4000_0000, 0x8000_0000, rw, 2), Ok(()));
    assert_eq!(virt_to_phys(&fa, root, 0x4001_2345), Some(0x8001_2345));
    assert_eq!(rusty_os::mmu::map(&mut fa, root, 0x0020_0000, 0x0060_0000, rw, 1), Ok(()));
    assert_eq!(virt_to_phys(&fa, root, 0x0021_2345), Some(0x0061_2345));
}

#[test]
fn empty_table_maps_nothing() {
    let (fa, root) = arena(4);
    for v in [0usize, 0x1000, 0x4020_3123, 0x7fff_ffff_f000, usize::MAX] {
        assert_eq!(virt_to_phys(&fa, root, v), None);
    }
    // an address that is no frame of the arena walks nowhere
    assert_eq!(virt_to_phys(&fa, 0x10, 0x1000), None);
}

#[test]
fn unmap_then_map_builds_fresh_tables() {
    let (mut fa, root) = arena(16);
    let rw = EntryBits::ReadWrite.val();
    let v = 0x1234_5000usize;
    assert_eq!(rusty_os::mmu::map(&mut fa, root, v, 0x5000, rw, 0), Ok(()));
    unmap(&mut fa, root);
    assert!(fa.is_taken(0));
    assert!(!fa.is_taken(1) && !fa.is_taken(2));
    assert_eq!(virt_to_phys(&fa, root, v), None);
    // idempotent on a torn-down table
    unmap(&mut fa, root);
    assert_eq!(rusty_os::mmu::map(&mut fa, root, v, 0x7000, rw, 0), Ok(()));
    assert_eq!(virt_to_phys(&fa, root, v + 4), Some(0x7004));
    assert!(fa.is_taken(1) && fa.is_taken(2));
}

#[test]
fn unmap_keeps_leaf_frames() {
    let (mut fa, root) = arena(16);
    let data = alloc_pages(&mut fa, 1).unwrap();
    let rw = EntryBits::ReadWrite.val();
    assert_eq!(rusty_os::mmu::map(&mut fa, root, 0x1000, data, rw, 0), Ok(()));
    unmap(&mut fa, root);
    assert!(fa.is_taken(1));
}

#[test]
fn map_without_permission_is_refused() {
    let (mut fa, root) = arena(8);
    let r = rusty_os::mmu::map(&mut fa, root, 0x1000, 0x2000, EntryBits::User.val() | 1, 0);
    assert_eq!(r, Err(MapError::NoPermission));
    assert!(!fa.is_taken(1));
    assert_eq!(virt_to_phys(&fa, root, 0x1000), None);
}

#[test]
fn map_below_a_superpage_is_refused() {
    let (mut fa, root) = arena(8);
    let rw = EntryBits::ReadWrite.val();
    assert_eq!(rusty_os::mmu::map(&mut fa, root, 0, 0x4000_0000, rw, 2), Ok(()));
    let r = rusty_os::mmu::map(&mut fa, root, 0x3000, 0x9000, rw, 0);
    assert_eq!(r, Err(MapError::LeafInPath));
    assert_eq!(virt_to_phys(&fa, root, 0x3000), Some(0x4000_3000));
}

#[test]
fn map_reports_exhausted_frames() {
    // one frame left after the root; a level-0 mapping needs two tables
    let (mut fa, root) = arena(2);
    let r = rusty_os::mmu::map(&mut fa, root, 0x1000, 0x2000, EntryBits::ReadWrite.val(), 0);
    assert_eq!(r, Err(MapError::OutOfMemory));
}

#[test]
fn id_map_range_maps_each_page_to_itself() {
    let (mut fa, root) = arena(16);
    let rx = EntryBits::ReadExecute.val();
    assert_eq!(id_map_range(&mut fa, root, 0x8000_0000, 0x8000_3000, rx), Ok(()));
    for page in 0..3 {
        let a = 0x8000_0000 + page * 0x1000 + 0x10;
        assert_eq!(virt_to_phys(&fa, root, a), Some(a));
    }
    assert_eq!(virt_to_phys(&fa, root, 0x8000_3000), None);
    assert_eq!(
        id_map_range(&mut fa, root, 0x9000_0000, 0x9000_1000, 1),
        Err(MapError::NoPermission)
    );
    assert_eq!(id_map_range(&mut fa, root, 0x9000_0000, 0x9000_0000, 1), Ok(()));
}

#[test]
fn table_load_reads_entries_of_a_frame() {
    let (mut fa, root) = arena(8);
    assert!(Table::load(&fa, root + 8).is_none());
    assert!(Table::load(&fa, root - 4096).is_none());
    let empty = Table::load(&fa, root).unwrap();
    assert_eq!(empty.entries.len(), 512);
    assert!(empty.entries.iter().all(|e| e.is_invalid()));
    assert_eq!(rusty_os::mmu::map(&mut fa, root, 0x4000_0000, 0x8000_0000, 6, 2), Ok(()));
    let t = Table::load(&fa, root).unwrap();
    assert!(t.entries[1].is_valid() && t.entries[1].is_leaf());
    assert_eq!(t.entries[1].get_entry(), (0x8000_0000u64 >> 2) | 6 | 1);
}

#[test]
fn id_map_range_counts_from_the_page_of_start() {
    let (mut fa, root) = arena(16);
    let rw = EntryBits::ReadWrite.val();
    assert_eq!(id_map_range(&mut fa, root, 0x1800, 0x2800, rw), Ok(()));
    assert_eq!(virt_to_phys(&fa, root, 0x1000), Some(0x1000));
    assert_eq!(virt_to_phys(&fa, root, 0x27ff), Some(0x27ff));
    assert_eq!(virt_to_phys(&fa, root, 0x3000), None);
}

#[test]
fn id_map_range_stops_under_a_superpage() {
    let (mut fa, root) = arena(16);
    let rw = EntryBits::ReadWrite.val();
    assert_eq!(rusty_os::mmu::map(&mut fa, root, 0x4000_0000, 0x4000_0000, rw, 2), Ok(()));
    assert_eq!(
        id_map_range(&mut fa, root, 0x3fff_f000, 0x4000_1000, rw),
        Err(MapError::LeafInPath)
    );
    // the page before the superpage was mapped first
    assert_eq!(virt_to_phys(&fa, root, 0x3fff_f010), Some(0x3fff_f010));
}

#[test]
fn remap_of_a_mapped_page_overwrites_its_leaf() {
    let (mut fa, root) = arena(16);
    let rw = EntryBits::ReadWrite.val();
    assert_eq!(rusty_os::mmu::map(&mut fa, root, 0x5000, 0x9000, rw, 0), Ok(()));
    assert_eq!(rusty_os::mmu::map(&mut fa, root, 0x5000, 0xa000, EntryBits::Read.val(), 0), Ok(()));
    assert_eq!(virt_to_phys(&fa, root, 0x5004), Some(0xa004));
    // no further tables were taken
    assert!(!fa.is_taken(3));
}

#[test]
fn unmap_frees_exactly_the_tables() {
    let (mut fa, root) = arena(32);
    let data = alloc_pages(&mut fa, 2).unwrap();
    let rw = EntryBits::ReadWrite.val();
    // two level-1 tables, three level-0 tables
    for v in [0x1000usize, 0x20_1000, 0x4000_1000] {
        assert_eq!(rusty_os::mmu::map(&mut fa, root, v, data, rw, 0), Ok(()));
    }
    let taken: Vec<usize> = (0..32).filter(|i| fa.is_taken(*i)).collect();
    assert_eq!(taken, vec![0, 1, 2, 3, 4, 5, 6, 7]);
    unmap(&mut fa, root);
    let taken: Vec<usize> = (0..32).filter(|i| fa.is_taken(*i)).collect();
    assert_eq!(taken, vec![0, 1, 2]);
    unmap(&mut fa, root);
    let again: Vec<usize> = (0..32).filter(|i| fa.is_taken(*i)).collect();
    assert_eq!(again, taken);
}

#[test]
fn map_above_level_two_writes_a_root_leaf() {
    let (mut fa, root) = arena(8);
    let rw = EntryBits::ReadWrite.val();
    assert_eq!(rusty_os::mmu::map(&mut fa, root, 0x4000_0000, 0x8000_0000, rw, 7), Ok(()));
    assert_eq!(virt_to_phys(&fa, root, 0x4012_3456), Some(0x8012_3456));
    assert!(!fa.is_taken(1));
    assert_eq!(
        rusty_os::mmu::map(&mut fa, root, 0x4000_0000, 0x8000_0000, EntryBits::User.val(), 7),
        Err(MapError::NoPermission)
    );
}
