//! Sv39 translation: 64-bit page-table entries, and a three-level radix
//! table whose tables live in frames of the frame allocator. The root table
//! is any allocated frame; intermediate tables are allocated on first use.
use vstd::prelude::*;
use crate::page::{
    align_val, dealloc, first_fit, frame_addr, lemma_first_fit, run_free, take_run, zalloc,
    FrameAllocator, FreeError,
    PAGE_SIZE, PAGE_WORDS,
};

verus! {

/// Flag bits of a page-table entry, alone and in the combinations used for
/// mappings.
#[derive(Clone, Copy)]
pub enum EntryBits {
    Empty,
    Valid,
    Read,
    Write,
    Execute,
    User,
    Global,
    Access,
    Dirty,
    ReadWrite,
    ReadExecute,
    ReadWriteExecute,
    UserReadWrite,
    UserReadExecute,
    UserReadWriteExecute,
}

impl EntryBits {
    pub open spec fn spec_val(self) -> u64 {
        match self {
            EntryBits::Empty => 0,
            EntryBits::Valid => 1,
            EntryBits::Read => 2,
            EntryBits::Write => 4,
            EntryBits::Execute => 8,
            EntryBits::User => 16,
            EntryBits::Global => 32,
            EntryBits::Access => 64,
            EntryBits::Dirty => 128,
            EntryBits::ReadWrite => 6,
            EntryBits::ReadExecute => 10,
            EntryBits::ReadWriteExecute => 14,
            EntryBits::UserReadWrite => 22,
            EntryBits::UserReadExecute => 26,
            EntryBits::UserReadWriteExecute => 30,
        }
    }

    #[verifier::when_used_as_spec(spec_val)]
    pub fn val(self) -> (r: u64)
        ensures
            r == self.spec_val(),
    {
        match self {
            EntryBits::Empty => 0,
            EntryBits::Valid => 1,
            EntryBits::Read => 2,
            EntryBits::Write => 4,
            EntryBits::Execute => 8,
            EntryBits::User => 16,
            EntryBits::Global => 32,
            EntryBits::Access => 64,
            EntryBits::Dirty => 128,
            EntryBits::ReadWrite => 6,
            EntryBits::ReadExecute => 10,
            EntryBits::ReadWriteExecute => 14,
            EntryBits::UserReadWrite => 22,
            EntryBits::UserReadExecute => 26,
            EntryBits::UserReadWriteExecute => 30,
        }
    }
}

pub open spec fn pte_valid(e: u64) -> bool {
    e & 1 != 0
}

/// At least one of read, write, execute is set.
pub open spec fn pte_leaf(e: u64) -> bool {
    e & 0xe != 0
}

pub open spec fn pte_branch(e: u64) -> bool {
    pte_valid(e) && !pte_leaf(e)
}

/// Physical address a branch entry points at.
pub open spec fn pte_addr(e: u64) -> u64 {
    (e & !0x3ffu64) << 2u64
}

/// Branch entry pointing at the table at physical address `a`.
pub open spec fn branch_pte(a: u64) -> u64 {
    (a >> 2u64) | 1
}

/// Leaf entry for physical address `paddr`: its three page-number fields
/// (26, 9 and 9 bits) placed from bit 10, then `bits` and the valid bit.
pub open spec fn leaf_pte(paddr: u64, bits: u64) -> u64 {
    ((((paddr >> 30u64) & 0x3ff_ffff) << 28u64) | (((paddr >> 21u64) & 0x1ff) << 19u64) | (((
    paddr >> 12u64) & 0x1ff) << 10u64) | bits | 1)
}

/// Mask of the address bits a leaf at `lvl` leaves untranslated.
pub open spec fn offset_mask(lvl: int) -> u64 {
    if lvl == 2 {
        0x3fff_ffff
    } else if lvl == 1 {
        0x1f_ffff
    } else {
        0xfff
    }
}

/// Physical address that leaf `e` met at level `lvl` gives `v`.
pub open spec fn leaf_addr(e: u64, v: u64, lvl: int) -> u64 {
    ((e << 2u64) & !offset_mask(lvl)) | (v & offset_mask(lvl))
}

/// The 9-bit table index of `v` at level `lvl`.
pub open spec fn vpn(v: u64, lvl: int) -> int {
    if lvl == 2 {
        ((v >> 30u64) & 0x1ff) as int
    } else if lvl == 1 {
        ((v >> 21u64) & 0x1ff) as int
    } else {
        ((v >> 12u64) & 0x1ff) as int
    }
}

/// Word `k` of the table in frame `t`.
pub open spec fn pte_at(m: Seq<u64>, t: int, k: int) -> u64 {
    m[t * 512 + k]
}

/// Frame holding physical address `a`, if the arena has one.
pub open spec fn frame_of(start: nat, num: nat, a: int) -> Option<int> {
    if start <= a < start + num * 4096 {
        Some((a - start) / 4096)
    } else {
        None
    }
}

/// Translation of `v` starting from the table in frame `t` at level `lvl`.
pub open spec fn walk(m: Seq<u64>, start: nat, num: nat, t: int, v: u64, lvl: int) -> Option<u64>
    decreases lvl,
{
    if lvl < 0 || t < 0 || t >= num || m.len() != num * 512 {
        None
    } else {
        let e = pte_at(m, t, vpn(v, lvl));
        if !pte_valid(e) {
            None
        } else if pte_leaf(e) {
            Some(leaf_addr(e, v, lvl))
        } else if lvl == 0 {
            None
        } else {
            match frame_of(start, num, pte_addr(e) as int) {
                Some(t2) => walk(m, start, num, t2, v, lvl - 1),
                None => None,
            }
        }
    }
}

/// Translation of `v` through the root table in frame `rt`.
pub open spec fn translate(fa: FrameAllocator, rt: int, v: u64) -> Option<u64> {
    walk(fa.memory(), fa.start(), fa.num_pages(), rt, v, 2)
}

pub(crate) proof fn lemma_zero_invalid()
    ensures
        !pte_valid(0),
{
    assert(!pte_valid(0u64)) by (bit_vector);
}

pub(crate) proof fn lemma_vpn_bound(v: u64)
    ensures
        0 <= vpn(v, 0) < 512,
        0 <= vpn(v, 1) < 512,
        0 <= vpn(v, 2) < 512,
{
    assert((v >> 30u64) & 0x1ff < 512 && (v >> 21u64) & 0x1ff < 512 && (v >> 12u64) & 0x1ff < 512)
        by (bit_vector);
}

proof fn lemma_branch_round_trip(a: u64)
    requires
        a % 4096 == 0,
    ensures
        pte_addr(branch_pte(a)) == a,
        pte_branch(branch_pte(a)),
{
    assert(((((a >> 2u64) | 1) & !0x3ffu64) << 2u64) == a && ((a >> 2u64) | 1) & 1 != 0 && ((a
        >> 2u64) | 1) & 0xe == 0) by (bit_vector)
        requires
            a % 4096 == 0,
    ;
}

proof fn lemma_leaf_pte(paddr: u64, bits: u64)
    requires
        bits & 0xe != 0,
    ensures
        pte_valid(leaf_pte(paddr, bits)),
        pte_leaf(leaf_pte(paddr, bits)),
{
    let e = leaf_pte(paddr, bits);
    assert(e & 1 != 0 && e & 0xe != 0) by (bit_vector)
        requires
            e == ((((paddr >> 30u64) & 0x3ff_ffff) << 28u64) | (((paddr >> 21u64) & 0x1ff)
                << 19u64) | (((paddr >> 12u64) & 0x1ff) << 10u64) | bits | 1),
            bits & 0xe != 0,
    ;
}

/// A 4 KiB leaf for a physical address below 2^56 gives back that address's
/// page and the virtual address's offset within the page.
pub proof fn lemma_leaf_addr_page(paddr: u64, v: u64, bits: u64)
    requires
        paddr < 0x100_0000_0000_0000,
        bits < 0x400,
    ensures
        leaf_addr(leaf_pte(paddr, bits), v, 0) == (paddr & !0xfffu64) | (v & 0xfff),
{
    let e = leaf_pte(paddr, bits);
    assert(((e << 2u64) & !0xfffu64) | (v & 0xfff) == (paddr & !0xfffu64) | (v & 0xfff))
        by (bit_vector)
        requires
            e == ((((paddr >> 30u64) & 0x3ff_ffff) << 28u64) | (((paddr >> 21u64) & 0x1ff)
                << 19u64) | (((paddr >> 12u64) & 0x1ff) << 10u64) | bits | 1),
            paddr < 0x100_0000_0000_0000,
            bits < 0x400,
    ;
}

/// A page-table entry.
#[derive(Clone, Copy)]
pub struct Entry {
    pub entry: u64,
}

impl Entry {
    pub fn get_entry(&self) -> (r: u64)
        ensures
            r == self.entry,
    {
        self.entry
    }

    pub fn set_entry(&mut self, entry: u64)
        ensures
            final(self).entry == entry,
    {
        self.entry = entry;
    }

    pub fn is_valid(&self) -> (r: bool)
        ensures
            r == pte_valid(self.entry),
    {
        self.get_entry() & EntryBits::Valid.val() != 0
    }

    pub fn is_invalid(&self) -> (r: bool)
        ensures
            r == !pte_valid(self.entry),
    {
        !self.is_valid()
    }

    /// Read, write or execute is set.
    pub fn is_leaf(&self) -> (r: bool)
        ensures
            r == pte_leaf(self.entry),
    {
        self.get_entry() & 0xe != 0
    }

    pub fn is_branch(&self) -> (r: bool)
        ensures
            r == !pte_leaf(self.entry),
    {
        !self.is_leaf()
    }
}

/// One page table: 512 entries filling one frame.
pub struct Table {
    pub entries: Vec<Entry>,
}

impl Table {
    pub fn len() -> (r: usize)
        ensures
            r == 512,
    {
        512
    }

    /// A copy of the table in the frame at physical address `addr`; `None`
    /// when no frame of the arena starts there.
    pub fn load(fa: &FrameAllocator, addr: usize) -> (r: Option<Table>)
        requires
            fa.wf(),
        ensures
            (r is Some) == (fa.start() <= addr < fa.start() + 4096 * fa.num_pages() && (addr
                - fa.start()) % 4096 == 0),
            r matches Some(tb) ==> tb.entries@.len() == 512 && forall|k: int|
                0 <= k < 512 ==> (#[trigger] tb.entries@[k]).entry == pte_at(
                    fa.memory(),
                    frame_index(*fa, addr as int),
                    k,
                ),
    {
        let start = fa.alloc_start();
        if addr < start || addr - start >= PAGE_SIZE * fa.page_count() || (addr - start)
            % PAGE_SIZE != 0 {
            return None;
        }
        let t = (addr - start) / PAGE_SIZE;
        let mut entries: Vec<Entry> = Vec::new();
        let mut k: usize = 0;
        while k < Table::len()
            invariant
                fa.wf(),
                start == fa.start(),
                t == frame_index(*fa, addr as int),
                t < fa.num_pages(),
                k <= 512,
                entries@.len() == k,
                forall|j: int|
                    0 <= j < k ==> (#[trigger] entries@[j]).entry == pte_at(fa.memory(), t as int, j),
            decreases 512 - k,
        {
            entries.push(Entry { entry: fa.read_word(t * PAGE_WORDS + k) });
            k += 1;
        }
        Some(Table { entries })
    }
}

/// How a mapping request failed.
#[derive(Clone, Copy, Debug, PartialEq, Eq, Structural)]
pub enum MapError {
    /// The permission bits hold none of read, write, execute: fatal misuse.
    NoPermission,
    /// A leaf already stands above the requested level on the walk.
    LeafInPath,
    /// No frame was left for an intermediate table.
    OutOfMemory,
}

/// Frame index of physical address `a` (meaningful when it lies in the arena).
pub open spec fn frame_index(fa: FrameAllocator, a: int) -> int {
    (a - fa.start()) / 4096
}

/// `a` is the address of a frame that holds a live single-frame allocation.
pub open spec fn live_table(fa: FrameAllocator, a: u64) -> bool {
    &&& frame_of(fa.start(), fa.num_pages(), a as int) is Some
    &&& fa.flags()[frame_index(fa, a as int)] == 3
}

/// Every branch of the level-1 table in frame `t1` leads to a live table
/// other than `t1` and the root `rt`.
pub open spec fn level1_ok(fa: FrameAllocator, rt: int, t1: int) -> bool {
    forall|k: int|
        0 <= k < 512 && pte_branch(#[trigger] pte_at(fa.memory(), t1, k)) ==> {
            let a = pte_addr(pte_at(fa.memory(), t1, k));
            &&& live_table(fa, a)
            &&& frame_index(fa, a as int) != t1
            &&& frame_index(fa, a as int) != rt
        }
}

/// Frame of the level-1 table behind root entry `k`.
pub open spec fn l1_of(fa: FrameAllocator, rt: int, k: int) -> int {
    frame_index(fa, pte_addr(pte_at(fa.memory(), rt, k)) as int)
}

/// Frame of the level-0 table behind entry `j` of the level-1 table behind
/// root entry `k`.
pub open spec fn l0_of(fa: FrameAllocator, rt: int, k: int, j: int) -> int {
    frame_index(fa, pte_addr(pte_at(fa.memory(), l1_of(fa, rt, k), j)) as int)
}

/// Root entry `k` is a branch.
pub open spec fn is_l1(fa: FrameAllocator, rt: int, k: int) -> bool {
    0 <= k < 512 && pte_branch(pte_at(fa.memory(), rt, k))
}

/// Entry `j` of the level-1 table behind root entry `k` is a branch.
pub open spec fn is_l0(fa: FrameAllocator, rt: int, k: int, j: int) -> bool {
    is_l1(fa, rt, k) && 0 <= j < 512 && pte_branch(pte_at(fa.memory(), l1_of(fa, rt, k), j))
}

/// No table of the tree is reached by two branches.
pub open spec fn tree_distinct(fa: FrameAllocator, rt: int) -> bool {
    &&& forall|k1: int, k2: int|
        #![trigger l1_of(fa, rt, k1), l1_of(fa, rt, k2)]
        is_l1(fa, rt, k1) && is_l1(fa, rt, k2) && k1 != k2 ==> l1_of(fa, rt, k1) != l1_of(fa, rt, k2)
    &&& forall|k1: int, j1: int, k2: int, j2: int|
        #![trigger l0_of(fa, rt, k1, j1), l0_of(fa, rt, k2, j2)]
        is_l0(fa, rt, k1, j1) && is_l0(fa, rt, k2, j2) && (k1 != k2 || j1 != j2) ==> l0_of(
            fa,
            rt,
            k1,
            j1,
        ) != l0_of(fa, rt, k2, j2)
    &&& forall|k1: int, k2: int, j2: int|
        #![trigger l1_of(fa, rt, k1), l0_of(fa, rt, k2, j2)]
        is_l1(fa, rt, k1) && is_l0(fa, rt, k2, j2) ==> l1_of(fa, rt, k1) != l0_of(fa, rt, k2, j2)
}

/// Every table of `fa2`'s tree is one of `fa`'s with the same frame, or the
/// new frame `f`, which no table of `fa` uses and at most one branch of
/// `fa2` reaches: then no table of `fa2` is reached twice either.
proof fn lemma_distinct_extend(fa: FrameAllocator, fa2: FrameAllocator, rt: int, f: int)
    requires
        tree_distinct(fa, rt),
        forall|k: int|
            #[trigger] is_l1(fa2, rt, k) ==> (is_l1(fa, rt, k) && l1_of(fa2, rt, k) == l1_of(fa, rt, k))
                || l1_of(fa2, rt, k) == f,
        forall|k: int, j: int|
            #[trigger] is_l0(fa2, rt, k, j) ==> (is_l0(fa, rt, k, j) && l0_of(fa2, rt, k, j) == l0_of(
                fa,
                rt,
                k,
                j,
            )) || l0_of(fa2, rt, k, j) == f,
        forall|k: int| #[trigger] is_l1(fa, rt, k) ==> l1_of(fa, rt, k) != f,
        forall|k: int, j: int| #[trigger] is_l0(fa, rt, k, j) ==> l0_of(fa, rt, k, j) != f,
        forall|k1: int, k2: int|
            is_l1(fa2, rt, k1) && is_l1(fa2, rt, k2) && #[trigger] l1_of(fa2, rt, k1) == f
                && #[trigger] l1_of(fa2, rt, k2) == f ==> k1 == k2,
        forall|k1: int, j1: int, k2: int, j2: int|
            is_l0(fa2, rt, k1, j1) && is_l0(fa2, rt, k2, j2) && #[trigger] l0_of(fa2, rt, k1, j1) == f
                && #[trigger] l0_of(fa2, rt, k2, j2) == f ==> k1 == k2 && j1 == j2,
        forall|k1: int, k2: int, j2: int|
            is_l1(fa2, rt, k1) && is_l0(fa2, rt, k2, j2) ==> !(#[trigger] l1_of(fa2, rt, k1) == f
                && #[trigger] l0_of(fa2, rt, k2, j2) == f),
    ensures
        tree_distinct(fa2, rt),
{
    assert forall|k1: int, k2: int|
        #![trigger l1_of(fa2, rt, k1), l1_of(fa2, rt, k2)]
        is_l1(fa2, rt, k1) && is_l1(fa2, rt, k2) && k1 != k2 implies l1_of(fa2, rt, k1) != l1_of(
            fa2,
            rt,
            k2,
        ) by {
        assert(is_l1(fa2, rt, k1));
        assert(is_l1(fa2, rt, k2));
        if l1_of(fa2, rt, k1) != f && l1_of(fa2, rt, k2) != f {
            assert(l1_of(fa, rt, k1) != l1_of(fa, rt, k2));
        } else if l1_of(fa2, rt, k1) == f && l1_of(fa2, rt, k2) != f {
            assert(is_l1(fa, rt, k2));
        } else if l1_of(fa2, rt, k1) != f && l1_of(fa2, rt, k2) == f {
            assert(is_l1(fa, rt, k1));
        }
    }
    assert forall|k1: int, j1: int, k2: int, j2: int|
        #![trigger l0_of(fa2, rt, k1, j1), l0_of(fa2, rt, k2, j2)]
        is_l0(fa2, rt, k1, j1) && is_l0(fa2, rt, k2, j2) && (k1 != k2 || j1 != j2) implies l0_of(
            fa2,
            rt,
            k1,
            j1,
        ) != l0_of(fa2, rt, k2, j2) by {
        assert(is_l0(fa2, rt, k1, j1));
        assert(is_l0(fa2, rt, k2, j2));
        if l0_of(fa2, rt, k1, j1) != f && l0_of(fa2, rt, k2, j2) != f {
            assert(l0_of(fa, rt, k1, j1) != l0_of(fa, rt, k2, j2));
        } else if l0_of(fa2, rt, k1, j1) == f && l0_of(fa2, rt, k2, j2) != f {
            assert(is_l0(fa, rt, k2, j2));
        } else if l0_of(fa2, rt, k1, j1) != f && l0_of(fa2, rt, k2, j2) == f {
            assert(is_l0(fa, rt, k1, j1));
        }
    }
    assert forall|k1: int, k2: int, j2: int|
        #![trigger l1_of(fa2, rt, k1), l0_of(fa2, rt, k2, j2)]
        is_l1(fa2, rt, k1) && is_l0(fa2, rt, k2, j2) implies l1_of(fa2, rt, k1) != l0_of(
            fa2,
            rt,
            k2,
            j2,
        ) by {
        assert(is_l1(fa2, rt, k1));
        assert(is_l0(fa2, rt, k2, j2));
        if l1_of(fa2, rt, k1) != f && l0_of(fa2, rt, k2, j2) != f {
            assert(l1_of(fa, rt, k1) != l0_of(fa, rt, k2, j2));
        } else if l1_of(fa2, rt, k1) == f && l0_of(fa2, rt, k2, j2) != f {
            assert(is_l0(fa, rt, k2, j2));
        } else if l1_of(fa2, rt, k1) != f && l0_of(fa2, rt, k2, j2) == f {
            assert(is_l1(fa, rt, k1));
        }
    }
}

/// The table tree under the root in frame `rt` is well formed: the root is
/// allocated, each root branch leads to a live level-1 table other than the
/// root, and each of those is well formed.
pub open spec fn tree_ok(fa: FrameAllocator, rt: int) -> bool {
    &&& fa.wf()
    &&& fa.taken(rt)
    &&& forall|k: int|
        0 <= k < 512 && pte_branch(#[trigger] pte_at(fa.memory(), rt, k)) ==> {
            let a = pte_addr(pte_at(fa.memory(), rt, k));
            &&& live_table(fa, a)
            &&& frame_index(fa, a as int) != rt
            &&& level1_ok(fa, rt, frame_index(fa, a as int))
        }
    &&& tree_distinct(fa, rt)
}

/// `root` is the address of a root table with a well-formed tree.
pub open spec fn root_ok(fa: FrameAllocator, root: int) -> bool {
    &&& fa.start() <= root
    &&& (root - fa.start()) % 4096 == 0
    &&& tree_ok(fa, frame_index(fa, root))
}

/// The same descriptors and the same frame contents.
pub open spec fn same_state(fa: FrameAllocator, fa2: FrameAllocator) -> bool {
    &&& fa2.flags() == fa.flags()
    &&& fa2.memory() == fa.memory()
    &&& fa2.start() == fa.start()
    &&& fa2.num_pages() == fa.num_pages()
}

/// Of the frames free in `fa`, at most one is allocated in `fa2`.
pub open spec fn at_most_one_taken(fa: FrameAllocator, fa2: FrameAllocator) -> bool {
    forall|f1: int, f2: int|
        0 <= f1 < fa.num_pages() && 0 <= f2 < fa.num_pages() && f1 != f2 && fa.flags()[f1] == 0
            && fa.flags()[f2] == 0 ==> #[trigger] fa2.flags()[f1] == 0 || #[trigger] fa2.flags()[f2]
            == 0
}

/// Frames that were allocated stay so, and live tables stay live.
pub open spec fn frames_kept(fa: FrameAllocator, fa2: FrameAllocator) -> bool {
    &&& fa2.wf()
    &&& fa2.start() == fa.start()
    &&& fa2.num_pages() == fa.num_pages()
    &&& forall|f: int| 0 <= f < fa.num_pages() && fa.flags()[f] != 0 ==> #[trigger] fa2.flags()[f] == fa.flags()[f]
}

/// Entries of allocated frames are unchanged, except entry `k0` of frame `t0`.
pub open spec fn entries_kept(fa: FrameAllocator, fa2: FrameAllocator, t0: int, k0: int) -> bool {
    forall|f: int, k: int|
        0 <= f < fa.num_pages() && 0 <= k < 512 && fa.flags()[f] != 0 && !(f == t0 && k == k0)
            ==> #[trigger] pte_at(fa2.memory(), f, k) == pte_at(fa.memory(), f, k)
}

/// Tables of the tree are at frame indices of the arena.
proof fn lemma_member_index(fa: FrameAllocator, rt: int)
    requires
        tree_ok(fa, rt),
    ensures
        forall|k: int| #[trigger] is_l1(fa, rt, k) ==> 0 <= l1_of(fa, rt, k) < fa.num_pages() && fa.flags()[l1_of(fa, rt, k)] == 3,
        forall|k: int, j: int|
            #[trigger] is_l0(fa, rt, k, j) ==> 0 <= l0_of(fa, rt, k, j) < fa.num_pages() && fa.flags()[l0_of(fa, rt, k, j)] == 3,
{
    assert forall|k: int| #[trigger] is_l1(fa, rt, k) implies 0 <= l1_of(fa, rt, k) < fa.num_pages()
        && fa.flags()[l1_of(fa, rt, k)] == 3 by {
        assert(pte_branch(pte_at(fa.memory(), rt, k)));
    }
    assert forall|k: int, j: int| #[trigger] is_l0(fa, rt, k, j) implies 0 <= l0_of(fa, rt, k, j)
        < fa.num_pages() && fa.flags()[l0_of(fa, rt, k, j)] == 3 by {
        assert(pte_branch(pte_at(fa.memory(), rt, k)));
        assert(level1_ok(fa, rt, l1_of(fa, rt, k)));
        assert(pte_branch(pte_at(fa.memory(), l1_of(fa, rt, k), j)));
    }
}

/// When no branch entry of the tree changes, except one that stops being a
/// branch, the tree keeps its tables and still reaches none twice.
proof fn lemma_distinct_kept(fa: FrameAllocator, fa2: FrameAllocator, rt: int, t: int, k0: int)
    requires
        tree_ok(fa, rt),
        frames_kept(fa, fa2),
        entries_kept(fa, fa2, t, k0),
        t < 0 || !pte_branch(pte_at(fa2.memory(), t, k0)),
    ensures
        tree_distinct(fa2, rt),
        forall|k: int|
            #[trigger] is_l1(fa2, rt, k) ==> is_l1(fa, rt, k) && l1_of(fa2, rt, k) == l1_of(fa, rt, k),
        forall|k: int, j: int|
            #[trigger] is_l0(fa2, rt, k, j) ==> is_l0(fa, rt, k, j) && l0_of(fa2, rt, k, j) == l0_of(
                fa,
                rt,
                k,
                j,
            ),
{
    lemma_member_index(fa, rt);
    let m = fa.memory();
    let m2 = fa2.memory();
    assert forall|k: int| #[trigger] is_l1(fa2, rt, k) implies is_l1(fa, rt, k) && l1_of(fa2, rt, k)
        == l1_of(fa, rt, k) by {
        assert(pte_at(m2, rt, k) == pte_at(m, rt, k));
    }
    assert forall|k: int, j: int| #[trigger] is_l0(fa2, rt, k, j) implies is_l0(fa, rt, k, j) && l0_of(
        fa2,
        rt,
        k,
        j,
    ) == l0_of(fa, rt, k, j) by {
        assert(is_l1(fa2, rt, k));
        assert(pte_at(m2, rt, k) == pte_at(m, rt, k));
        let t1 = l1_of(fa, rt, k);
        assert(is_l1(fa, rt, k));
        assert(fa.flags()[t1] == 3);
        assert(pte_at(m2, t1, j) == pte_at(m, t1, j));
    }
    lemma_distinct_extend(fa, fa2, rt, -1);
}

proof fn lemma_tree_frame(fa: FrameAllocator, fa2: FrameAllocator, rt: int)
    requires
        tree_ok(fa, rt),
        frames_kept(fa, fa2),
        entries_kept(fa, fa2, -1, -1),
    ensures
        tree_ok(fa2, rt),
{
    let m = fa.memory();
    let m2 = fa2.memory();
    assert forall|k: int|
        0 <= k < 512 && pte_branch(#[trigger] pte_at(m2, rt, k)) implies {
            let a = pte_addr(pte_at(m2, rt, k));
            &&& live_table(fa2, a)
            &&& frame_index(fa2, a as int) != rt
            &&& level1_ok(fa2, rt, frame_index(fa2, a as int))
        } by {
        assert(pte_at(m2, rt, k) == pte_at(m, rt, k));
        let a = pte_addr(pte_at(m, rt, k));
        let t1 = frame_index(fa, a as int);
        assert(fa2.flags()[t1] == fa.flags()[t1]);
        assert forall|k2: int|
            0 <= k2 < 512 && pte_branch(#[trigger] pte_at(m2, t1, k2)) implies {
                let a2 = pte_addr(pte_at(m2, t1, k2));
                &&& live_table(fa2, a2)
                &&& frame_index(fa2, a2 as int) != t1
                &&& frame_index(fa2, a2 as int) != rt
            } by {
            assert(pte_at(m2, t1, k2) == pte_at(m, t1, k2));
            let a2 = pte_addr(pte_at(m, t1, k2));
            assert(fa2.flags()[frame_index(fa, a2 as int)] == fa.flags()[frame_index(fa, a2 as int)]);
        }
    }
    lemma_distinct_kept(fa, fa2, rt, -1, -1);
}

/// Writing an entry that is not a branch keeps the tree well formed.
proof fn lemma_tree_write_leaf(fa: FrameAllocator, fa2: FrameAllocator, rt: int, t: int, k0: int)
    requires
        tree_ok(fa, rt),
        frames_kept(fa, fa2),
        entries_kept(fa, fa2, t, k0),
        !pte_branch(pte_at(fa2.memory(), t, k0)),
    ensures
        tree_ok(fa2, rt),
{
    let m = fa.memory();
    let m2 = fa2.memory();
    assert forall|k: int|
        0 <= k < 512 && pte_branch(#[trigger] pte_at(m2, rt, k)) implies {
            let a = pte_addr(pte_at(m2, rt, k));
            &&& live_table(fa2, a)
            &&& frame_index(fa2, a as int) != rt
            &&& level1_ok(fa2, rt, frame_index(fa2, a as int))
        } by {
        assert(pte_at(m2, rt, k) == pte_at(m, rt, k));
        let a = pte_addr(pte_at(m, rt, k));
        let t1 = frame_index(fa, a as int);
        assert(fa2.flags()[t1] == fa.flags()[t1]);
        assert forall|k2: int|
            0 <= k2 < 512 && pte_branch(#[trigger] pte_at(m2, t1, k2)) implies {
                let a2 = pte_addr(pte_at(m2, t1, k2));
                &&& live_table(fa2, a2)
                &&& frame_index(fa2, a2 as int) != t1
                &&& frame_index(fa2, a2 as int) != rt
            } by {
            assert(pte_at(m2, t1, k2) == pte_at(m, t1, k2));
            let a2 = pte_addr(pte_at(m, t1, k2));
            assert(fa2.flags()[frame_index(fa, a2 as int)] == fa.flags()[frame_index(fa, a2 as int)]);
        }
    }
    lemma_distinct_kept(fa, fa2, rt, t, k0);
}

/// Linking a live table `f` into a level-1 table `t` (not the root) keeps
/// the tree well formed.
proof fn lemma_tree_link_level1(
    fa: FrameAllocator,
    fa2: FrameAllocator,
    rt: int,
    t: int,
    k0: int,
    f: int,
)
    requires
        tree_ok(fa, rt),
        frames_kept(fa, fa2),
        entries_kept(fa, fa2, t, k0),
        t != rt,
        pte_branch(pte_at(fa2.memory(), t, k0)),
        live_table(fa2, pte_addr(pte_at(fa2.memory(), t, k0))),
        frame_index(fa2, pte_addr(pte_at(fa2.memory(), t, k0)) as int) == f,
        f != t,
        f != rt,
        !pte_branch(pte_at(fa.memory(), t, k0)),
        forall|k: int| #[trigger] is_l1(fa, rt, k) ==> l1_of(fa, rt, k) != f,
        forall|k: int, j: int| #[trigger] is_l0(fa, rt, k, j) ==> l0_of(fa, rt, k, j) != f,
    ensures
        tree_ok(fa2, rt),
{
    let m = fa.memory();
    let m2 = fa2.memory();
    assert forall|k: int|
        0 <= k < 512 && pte_branch(#[trigger] pte_at(m2, rt, k)) implies {
            let a = pte_addr(pte_at(m2, rt, k));
            &&& live_table(fa2, a)
            &&& frame_index(fa2, a as int) != rt
            &&& level1_ok(fa2, rt, frame_index(fa2, a as int))
        } by {
        assert(pte_at(m2, rt, k) == pte_at(m, rt, k));
        let a = pte_addr(pte_at(m, rt, k));
        let t1 = frame_index(fa, a as int);
        assert(fa2.flags()[t1] == fa.flags()[t1]);
        assert forall|k2: int|
            0 <= k2 < 512 && pte_branch(#[trigger] pte_at(m2, t1, k2)) implies {
                let a2 = pte_addr(pte_at(m2, t1, k2));
                &&& live_table(fa2, a2)
                &&& frame_index(fa2, a2 as int) != t1
                &&& frame_index(fa2, a2 as int) != rt
            } by {
            if !(t1 == t && k2 == k0) {
                assert(pte_at(m2, t1, k2) == pte_at(m, t1, k2));
                let a2 = pte_addr(pte_at(m, t1, k2));
                assert(fa2.flags()[frame_index(fa, a2 as int)] == fa.flags()[frame_index(fa, a2 as int)]);
            }
        }
    }
    lemma_member_index(fa, rt);
    assert forall|k: int| #[trigger] is_l1(fa2, rt, k) implies (is_l1(fa, rt, k) && l1_of(fa2, rt, k)
        == l1_of(fa, rt, k)) || l1_of(fa2, rt, k) == f by {
        assert(pte_at(m2, rt, k) == pte_at(m, rt, k));
    }
    assert forall|k: int, j: int| #[trigger] is_l0(fa2, rt, k, j) implies (is_l0(fa, rt, k, j) && l0_of(
        fa2,
        rt,
        k,
        j,
    ) == l0_of(fa, rt, k, j)) || l0_of(fa2, rt, k, j) == f by {
        assert(is_l1(fa2, rt, k));
        assert(pte_at(m2, rt, k) == pte_at(m, rt, k));
        let t1 = l1_of(fa, rt, k);
        assert(is_l1(fa, rt, k));
        if !(t1 == t && j == k0) {
            assert(pte_at(m2, t1, j) == pte_at(m, t1, j));
        }
    }
    assert forall|k1: int, k2: int|
        is_l1(fa2, rt, k1) && is_l1(fa2, rt, k2) && #[trigger] l1_of(fa2, rt, k1) == f
            && #[trigger] l1_of(fa2, rt, k2) == f implies k1 == k2 by {
        assert(pte_at(m2, rt, k1) == pte_at(m, rt, k1));
        assert(is_l1(fa, rt, k1));
    }
    assert forall|k1: int, j1: int, k2: int, j2: int|
        is_l0(fa2, rt, k1, j1) && is_l0(fa2, rt, k2, j2) && #[trigger] l0_of(fa2, rt, k1, j1) == f
            && #[trigger] l0_of(fa2, rt, k2, j2) == f implies k1 == k2 && j1 == j2 by {
        assert(is_l1(fa2, rt, k1) && is_l1(fa2, rt, k2));
        assert(pte_at(m2, rt, k1) == pte_at(m, rt, k1));
        assert(pte_at(m2, rt, k2) == pte_at(m, rt, k2));
        let t1 = l1_of(fa, rt, k1);
        let t2 = l1_of(fa, rt, k2);
        assert(is_l1(fa, rt, k1) && is_l1(fa, rt, k2));
        if !(t1 == t && j1 == k0) {
            assert(pte_at(m2, t1, j1) == pte_at(m, t1, j1));
            assert(is_l0(fa, rt, k1, j1));
        }
        if !(t2 == t && j2 == k0) {
            assert(pte_at(m2, t2, j2) == pte_at(m, t2, j2));
            assert(is_l0(fa, rt, k2, j2));
        }
        if k1 != k2 {
            assert(l1_of(fa, rt, k1) != l1_of(fa, rt, k2));
        }
    }
    assert forall|k1: int, k2: int, j2: int|
        is_l1(fa2, rt, k1) && is_l0(fa2, rt, k2, j2) implies !(#[trigger] l1_of(fa2, rt, k1) == f
            && #[trigger] l0_of(fa2, rt, k2, j2) == f) by {
        assert(pte_at(m2, rt, k1) == pte_at(m, rt, k1));
        assert(is_l1(fa, rt, k1));
    }
    lemma_distinct_extend(fa, fa2, rt, f);
}

/// Linking a live table `f` whose entries are all invalid into the root
/// keeps the tree well formed.
proof fn lemma_tree_link_root(fa: FrameAllocator, fa2: FrameAllocator, rt: int, k0: int, f: int)
    requires
        tree_ok(fa, rt),
        frames_kept(fa, fa2),
        entries_kept(fa, fa2, rt, k0),
        pte_branch(pte_at(fa2.memory(), rt, k0)),
        live_table(fa2, pte_addr(pte_at(fa2.memory(), rt, k0))),
        frame_index(fa2, pte_addr(pte_at(fa2.memory(), rt, k0)) as int) == f,
        f != rt,
        forall|k: int| 0 <= k < 512 ==> #[trigger] pte_at(fa2.memory(), f, k) == 0,
        !pte_branch(pte_at(fa.memory(), rt, k0)),
        forall|k: int| #[trigger] is_l1(fa, rt, k) ==> l1_of(fa, rt, k) != f,
        forall|k: int, j: int| #[trigger] is_l0(fa, rt, k, j) ==> l0_of(fa, rt, k, j) != f,
    ensures
        tree_ok(fa2, rt),
{
    let m = fa.memory();
    let m2 = fa2.memory();
    lemma_zero_invalid();
    assert forall|k: int|
        0 <= k < 512 && pte_branch(#[trigger] pte_at(m2, rt, k)) implies {
            let a = pte_addr(pte_at(m2, rt, k));
            &&& live_table(fa2, a)
            &&& frame_index(fa2, a as int) != rt
            &&& level1_ok(fa2, rt, frame_index(fa2, a as int))
        } by {
        if k != k0 {
            assert(pte_at(m2, rt, k) == pte_at(m, rt, k));
            let a = pte_addr(pte_at(m, rt, k));
            let t1 = frame_index(fa, a as int);
            assert(fa2.flags()[t1] == fa.flags()[t1]);
            assert forall|k2: int|
                0 <= k2 < 512 && pte_branch(#[trigger] pte_at(m2, t1, k2)) implies {
                    let a2 = pte_addr(pte_at(m2, t1, k2));
                    &&& live_table(fa2, a2)
                    &&& frame_index(fa2, a2 as int) != t1
                    &&& frame_index(fa2, a2 as int) != rt
                } by {
                assert(pte_at(m2, t1, k2) == pte_at(m, t1, k2));
                let a2 = pte_addr(pte_at(m, t1, k2));
                assert(fa2.flags()[frame_index(fa, a2 as int)] == fa.flags()[frame_index(fa, a2 as int)]);
            }
        } else {
            assert forall|k2: int|
                0 <= k2 < 512 && pte_branch(#[trigger] pte_at(m2, f, k2)) implies false by {
                assert(pte_at(m2, f, k2) == 0);
            }
        }
    }
    lemma_member_index(fa, rt);
    assert forall|k: int| #[trigger] is_l1(fa2, rt, k) implies (is_l1(fa, rt, k) && l1_of(fa2, rt, k)
        == l1_of(fa, rt, k)) || l1_of(fa2, rt, k) == f by {
        if k != k0 {
            assert(pte_at(m2, rt, k) == pte_at(m, rt, k));
        }
    }
    assert forall|k: int, j: int| #[trigger] is_l0(fa2, rt, k, j) implies (is_l0(fa, rt, k, j) && l0_of(
        fa2,
        rt,
        k,
        j,
    ) == l0_of(fa, rt, k, j)) || l0_of(fa2, rt, k, j) == f by {
        assert(is_l1(fa2, rt, k));
        if k != k0 {
            assert(pte_at(m2, rt, k) == pte_at(m, rt, k));
            let t1 = l1_of(fa, rt, k);
            assert(is_l1(fa, rt, k));
            assert(pte_at(m2, t1, j) == pte_at(m, t1, j));
        } else {
            assert(pte_at(m2, f, j) == 0);
        }
    }
    assert forall|k1: int, k2: int|
        is_l1(fa2, rt, k1) && is_l1(fa2, rt, k2) && #[trigger] l1_of(fa2, rt, k1) == f
            && #[trigger] l1_of(fa2, rt, k2) == f implies k1 == k2 by {
        if k1 != k0 {
            assert(pte_at(m2, rt, k1) == pte_at(m, rt, k1));
            assert(is_l1(fa, rt, k1));
        }
        if k2 != k0 {
            assert(pte_at(m2, rt, k2) == pte_at(m, rt, k2));
            assert(is_l1(fa, rt, k2));
        }
    }
    assert forall|k1: int, j1: int, k2: int, j2: int|
        is_l0(fa2, rt, k1, j1) && is_l0(fa2, rt, k2, j2) && #[trigger] l0_of(fa2, rt, k1, j1) == f
            && #[trigger] l0_of(fa2, rt, k2, j2) == f implies k1 == k2 && j1 == j2 by {
        assert(is_l0(fa2, rt, k1, j1));
        if k1 != k0 {
            assert(pte_at(m2, rt, k1) == pte_at(m, rt, k1));
            let t1 = l1_of(fa, rt, k1);
            assert(is_l1(fa, rt, k1));
            assert(pte_at(m2, t1, j1) == pte_at(m, t1, j1));
            assert(is_l0(fa, rt, k1, j1));
        } else {
            assert(pte_at(m2, f, j1) == 0);
        }
    }
    assert forall|k1: int, k2: int, j2: int|
        is_l1(fa2, rt, k1) && is_l0(fa2, rt, k2, j2) implies !(#[trigger] l1_of(fa2, rt, k1) == f
            && #[trigger] l0_of(fa2, rt, k2, j2) == f) by {
        assert(is_l0(fa2, rt, k2, j2));
        if k2 != k0 {
            assert(pte_at(m2, rt, k2) == pte_at(m, rt, k2));
            let t1 = l1_of(fa, rt, k2);
            assert(is_l1(fa, rt, k2));
            assert(pte_at(m2, t1, j2) == pte_at(m, t1, j2));
            assert(is_l0(fa, rt, k2, j2));
        } else {
            assert(pte_at(m2, f, j2) == 0);
        }
    }
    lemma_distinct_extend(fa, fa2, rt, f);
}

/// The walk for `u` through `fa`'s tree reads entry `k` of the table in
/// frame `t`.
pub open spec fn reads(fa: FrameAllocator, rt: int, u: u64, t: int, k: int) -> bool {
    ||| t == rt && k == vpn(u, 2)
    ||| is_l1(fa, rt, vpn(u, 2)) && t == l1_of(fa, rt, vpn(u, 2)) && k == vpn(u, 1)
    ||| is_l0(fa, rt, vpn(u, 2), vpn(u, 1)) && t == l0_of(fa, rt, vpn(u, 2), vpn(u, 1)) && k == vpn(
        u,
        0,
    )
}

/// An entry that the walk for `u` does not read changes nothing for `u`.
proof fn lemma_walk_kept(fa: FrameAllocator, fa2: FrameAllocator, rt: int, t: int, k0: int, u: u64)
    requires
        tree_ok(fa, rt),
        frames_kept(fa, fa2),
        entries_kept(fa, fa2, t, k0),
        !reads(fa, rt, u, t, k0),
    ensures
        translate(fa2, rt, u) == translate(fa, rt, u),
{
    lemma_vpn_bound(u);
    lemma_member_index(fa, rt);
    let m = fa.memory();
    let m2 = fa2.memory();
    let k2 = vpn(u, 2);
    let k1 = vpn(u, 1);
    let k0u = vpn(u, 0);
    assert(pte_at(m2, rt, k2) == pte_at(m, rt, k2));
    let e2 = pte_at(m, rt, k2);
    if pte_branch(e2) {
        assert(is_l1(fa, rt, k2));
        let t1 = l1_of(fa, rt, k2);
        assert(pte_at(m2, t1, k1) == pte_at(m, t1, k1));
        let e1 = pte_at(m, t1, k1);
        if pte_branch(e1) {
            assert(is_l0(fa, rt, k2, k1));
            let t0 = l0_of(fa, rt, k2, k1);
            assert(pte_at(m2, t0, k0u) == pte_at(m, t0, k0u));
            assert(walk(m2, fa2.start(), fa2.num_pages(), t0, u, 0) == walk(
                m,
                fa.start(),
                fa.num_pages(),
                t0,
                u,
                0,
            ));
        }
        assert(walk(m2, fa2.start(), fa2.num_pages(), t1, u, 1) == walk(
            m,
            fa.start(),
            fa.num_pages(),
            t1,
            u,
            1,
        ));
    }
}

/// Linking a zero-filled table into an invalid entry of the root or of a
/// level-1 table changes nothing for any address: the walks that now reach
/// the new table find only invalid entries there.
proof fn lemma_walk_link(
    fa: FrameAllocator,
    fa2: FrameAllocator,
    rt: int,
    t: int,
    k0: int,
    f: int,
    u: u64,
)
    requires
        tree_ok(fa, rt),
        frames_kept(fa, fa2),
        entries_kept(fa, fa2, t, k0),
        t == rt || exists|k: int| is_l1(fa, rt, k) && #[trigger] l1_of(fa, rt, k) == t,
        0 <= k0 < 512,
        !pte_valid(pte_at(fa.memory(), t, k0)),
        pte_branch(pte_at(fa2.memory(), t, k0)),
        frame_of(fa2.start(), fa2.num_pages(), pte_addr(pte_at(fa2.memory(), t, k0)) as int) == Some(
            f,
        ),
        0 <= f < fa2.num_pages(),
        forall|k: int| 0 <= k < 512 ==> #[trigger] pte_at(fa2.memory(), f, k) == 0,
    ensures
        translate(fa2, rt, u) == translate(fa, rt, u),
{
    if !reads(fa, rt, u, t, k0) {
        lemma_walk_kept(fa, fa2, rt, t, k0, u);
    } else {
        lemma_vpn_bound(u);
        lemma_member_index(fa, rt);
        lemma_zero_invalid();
        let m = fa.memory();
        let m2 = fa2.memory();
        let k2 = vpn(u, 2);
        let k1 = vpn(u, 1);
        if t == rt {
            assert(k0 == k2);
            assert(pte_at(m2, f, k1) == 0);
            assert(walk(m2, fa2.start(), fa2.num_pages(), f, u, 1) is None);
        } else {
            let kk = choose|k: int| is_l1(fa, rt, k) && #[trigger] l1_of(fa, rt, k) == t;
            assert(t != rt);
            if is_l0(fa, rt, k2, k1) {
                assert(l1_of(fa, rt, kk) != l0_of(fa, rt, k2, k1));
            }
            assert(pte_at(m2, rt, k2) == pte_at(m, rt, k2));
            assert(is_l1(fa, rt, k2));
            assert(t == l1_of(fa, rt, k2));
            assert(k0 == k1);
            assert(pte_at(m2, f, vpn(u, 0)) == 0);
            assert(walk(m2, fa2.start(), fa2.num_pages(), f, u, 0) is None);
            assert(walk(m2, fa2.start(), fa2.num_pages(), t, u, 1) is None);
            assert(walk(m, fa.start(), fa.num_pages(), t, u, 1) is None);
        }
    }
}

proof fn lemma_write_kept(fa: FrameAllocator, fa2: FrameAllocator, t: int, k0: int)
    requires
        fa.wf(),
        0 <= t < fa.num_pages(),
        0 <= k0 < 512,
        fa2.wf(),
        fa2.flags() == fa.flags(),
        fa2.start() == fa.start(),
        fa2.num_pages() == fa.num_pages(),
        fa2.memory() == fa.memory().update(t * 512 + k0, fa2.memory()[t * 512 + k0]),
    ensures
        frames_kept(fa, fa2),
        entries_kept(fa, fa2, t, k0),
{
}

proof fn lemma_kept_trans(fa0: FrameAllocator, fa1: FrameAllocator, fa2: FrameAllocator)
    requires
        frames_kept(fa0, fa1),
        frames_kept(fa1, fa2),
    ensures
        frames_kept(fa0, fa2),
{
    assert forall|f: int| 0 <= f < fa0.num_pages() && fa0.flags()[f] != 0 implies #[trigger] fa2.flags()[f]
        == fa0.flags()[f] by {
        assert(fa1.flags()[f] == fa0.flags()[f]);
    }
}

/// Follows entry `idx` of the table in frame `t` to the next-level table,
/// first allocating a zeroed frame and linking it there when the entry is
/// invalid. `t` is the root `rt` or a level-1 table under it.
fn next_table(fa: &mut FrameAllocator, rt: Ghost<int>, t: usize, idx: usize) -> (r: Result<usize, MapError>)
    requires
        tree_ok(*old(fa), rt@),
        idx < 512,
        t == rt@ || exists|k: int| is_l1(*old(fa), rt@, k) && #[trigger] l1_of(*old(fa), rt@, k) == t,
    ensures
        tree_ok(*final(fa), rt@),
        forall|u: u64| #[trigger] translate(*final(fa), rt@, u) == translate(*old(fa), rt@, u),
        frames_kept(*old(fa), *final(fa)),
        entries_kept(*old(fa), *final(fa), t as int, idx as int),
        ({
            let e = pte_at(old(fa).memory(), t as int, idx as int);
            &&& (r matches Err(MapError::LeafInPath)) == (pte_valid(e) && pte_leaf(e))
            &&& (r matches Err(MapError::OutOfMemory)) == (!pte_valid(e) && first_fit(
                old(fa).flags(),
                1,
            ) is None)
            &&& !(r matches Err(MapError::NoPermission))
            &&& r is Err ==> same_state(*old(fa), *final(fa))
            &&& pte_branch(e) ==> same_state(*old(fa), *final(fa))
            &&& !pte_valid(e) && r is Ok ==> forall|k: int|
                0 <= k < 512 ==> #[trigger] pte_at(final(fa).memory(), r->Ok_0 as int, k) == 0
        }),
        r matches Ok(t2) ==> {
            let e2 = pte_at(final(fa).memory(), t as int, idx as int);
            &&& t2 < final(fa).num_pages()
            &&& final(fa).flags()[t2 as int] == 3
            &&& t2 != t
            &&& t2 != rt@
            &&& pte_branch(e2)
            &&& frame_of(final(fa).start(), final(fa).num_pages(), pte_addr(e2) as int) == Some(
                t2 as int,
            )
            &&& t == rt@ ==> level1_ok(*final(fa), rt@, t2 as int)
            &&& !pte_valid(pte_at(old(fa).memory(), t as int, idx as int)) ==> {
                &&& t2 == first_fit(old(fa).flags(), 1)->0
                &&& final(fa).flags() == take_run(old(fa).flags(), t2 as int, 1)
                &&& e2 == branch_pte(frame_addr(old(fa).start() as int, t2 as int) as u64)
            }
            &&& forall|f: int, k: int|
                0 <= f < old(fa).num_pages() && 0 <= k < 512 && !(f == t && k == idx)
                    ==> #[trigger] pte_at(final(fa).memory(), f, k) == if !pte_valid(
                    pte_at(old(fa).memory(), t as int, idx as int),
                ) && f == t2 {
                    0u64
                } else {
                    pte_at(old(fa).memory(), f, k)
                }
            &&& forall|f: int|
                0 <= f < old(fa).num_pages() && old(fa).flags()[f] == 0 && f != t2
                    ==> #[trigger] final(fa).flags()[f] == 0
        },
{
    proof {
        lemma_first_fit(fa.flags(), 1);
        lemma_member_index(*fa, rt@);
        if t != rt@ {
            let kk = choose|k: int| is_l1(*fa, rt@, k) && #[trigger] l1_of(*fa, rt@, k) == t;
            assert(is_l1(*fa, rt@, kk));
            assert(pte_branch(pte_at(fa.memory(), rt@, kk)));
            assert(level1_ok(*fa, rt@, t as int));
        }
    }
    let w = t * PAGE_WORDS + idx;
    let e = Entry { entry: fa.read_word(w) };
    if e.is_invalid() {
        let ghost fa0 = *fa;
        match zalloc(fa, 1) {
            None => {
                proof {
                    lemma_tree_frame(fa0, *fa, rt@);
                }
                Err(MapError::OutOfMemory)
            },
            Some(a) => {
                let ghost fa1 = *fa;
                let ghost f = first_fit(fa0.flags(), 1)->0;
                proof {
                    assert(fa0.flags()[f] == 0);
                    assert(fa1.flags()[f] == 3);
                    assert forall|g: int, k: int|
                        0 <= g < fa0.num_pages() && 0 <= k < 512 && fa0.flags()[g] != 0 implies
                        #[trigger] pte_at(fa1.memory(), g, k) == pte_at(fa0.memory(), g, k) by {
                        assert(g != f);
                    }
                    lemma_tree_frame(fa0, fa1, rt@);
                    lemma_distinct_kept(fa0, fa1, rt@, -1, -1);
                    lemma_member_index(fa0, rt@);
                    assert forall|k: int| #[trigger] is_l1(fa1, rt@, k) implies l1_of(fa1, rt@, k) != f by {
                        assert(is_l1(fa0, rt@, k));
                    }
                    assert forall|k: int, j: int| #[trigger] is_l0(fa1, rt@, k, j) implies l0_of(
                        fa1,
                        rt@,
                        k,
                        j,
                    ) != f by {
                        assert(is_l0(fa0, rt@, k, j));
                    }
                    assert(pte_at(fa1.memory(), t as int, idx as int) == pte_at(
                        fa0.memory(),
                        t as int,
                        idx as int,
                    ));
                    assert(a as int == fa0.start() + 4096 * f);
                    lemma_branch_round_trip(a as u64);
                }
                let mut ne = e;
                ne.set_entry(((a as u64) >> 2) | EntryBits::Valid.val());
                fa.write_word(w, ne.get_entry());
                let fi = (a - fa.alloc_start()) / 4096;
                proof {
                    let fa2 = *fa;
                    assert(fi == f);
                    assert forall|k: int| 0 <= k < 512 implies #[trigger] pte_at(fa2.memory(), f, k)
                        == 0 by {
                        assert(pte_at(fa1.memory(), f, k) == 0);
                        assert(f != t);
                    }
                    assert(pte_at(fa2.memory(), t as int, idx as int) == branch_pte(a as u64));
                    assert forall|k: int| 0 <= k < 512 implies #[trigger] pte_at(fa2.memory(), f, k)
                        == 0 by {
                        assert(pte_at(fa1.memory(), f, k) == 0);
                    }
                    assert forall|g: int, k: int|
                        0 <= g < fa1.num_pages() && 0 <= k < 512 && fa1.flags()[g] != 0 && !(g == t
                            && k == idx) implies #[trigger] pte_at(fa2.memory(), g, k) == pte_at(
                        fa1.memory(),
                        g,
                        k,
                    ) by {}
                    assert forall|u: u64| #[trigger] translate(fa2, rt@, u) == translate(fa0, rt@, u) by {
                        lemma_walk_kept(fa0, fa1, rt@, -1, -1, u);
                        if t != rt@ {
                            let kk = choose|k: int| is_l1(fa0, rt@, k) && #[trigger] l1_of(fa0, rt@, k) == t;
                            assert(pte_at(fa1.memory(), rt@, kk) == pte_at(fa0.memory(), rt@, kk));
                            assert(is_l1(fa1, rt@, kk) && l1_of(fa1, rt@, kk) == t);
                        }
                        lemma_walk_link(fa1, fa2, rt@, t as int, idx as int, f, u);
                    }
                    assert forall|g: int, k: int|
                        0 <= g < fa0.num_pages() && 0 <= k < 512 && !(g == t && k == idx) implies
                        #[trigger] pte_at(fa2.memory(), g, k) == if g == f {
                        0u64
                    } else {
                        pte_at(fa0.memory(), g, k)
                    } by {
                        assert(pte_at(fa2.memory(), g, k) == pte_at(fa1.memory(), g, k));
                    }
                    if t == rt@ {
                        lemma_tree_link_root(fa1, fa2, rt@, idx as int, f);
                        assert forall|k2: int|
                            0 <= k2 < 512 && pte_branch(#[trigger] pte_at(fa2.memory(), f, k2))
                                implies false by {
                            lemma_zero_invalid();
                        }
                    } else {
                        assert(level1_ok(fa1, rt@, t as int));
                        lemma_tree_link_level1(fa1, fa2, rt@, t as int, idx as int, f);
                    }
                }
                Ok(fi)
            },
        }
    } else if e.is_leaf() {
        Err(MapError::LeafInPath)
    } else {
        let a = (e.get_entry() & !0x3ff) << 2;
        let fi = ((a - fa.alloc_start() as u64) / 4096) as usize;
        Ok(fi)
    }
}

/// A valid leaf stands above `level` on the walk for `v`.
pub open spec fn leaf_above(fa: FrameAllocator, rt: int, v: u64, level: int) -> bool {
    ||| level < 2 && pte_valid(pte_at(fa.memory(), rt, vpn(v, 2))) && pte_leaf(
        pte_at(fa.memory(), rt, vpn(v, 2)),
    )
    ||| level < 1 && is_l1(fa, rt, vpn(v, 2)) && pte_valid(
        pte_at(fa.memory(), l1_of(fa, rt, vpn(v, 2)), vpn(v, 1)),
    ) && pte_leaf(pte_at(fa.memory(), l1_of(fa, rt, vpn(v, 2)), vpn(v, 1)))
}

/// How many tables mapping `v` at `level` has to create: one per invalid
/// entry above `level` on the walk.
pub open spec fn tables_needed(fa: FrameAllocator, rt: int, v: u64, level: int) -> nat {
    if level >= 2 {
        0
    } else if !pte_valid(pte_at(fa.memory(), rt, vpn(v, 2))) {
        (2 - level) as nat
    } else if level == 1 {
        0
    } else if !pte_valid(pte_at(fa.memory(), l1_of(fa, rt, vpn(v, 2)), vpn(v, 1))) {
        1
    } else {
        0
    }
}

/// Descriptors after `n` single frames are taken one after another, first
/// fit each time.
pub open spec fn take_frames(s: Seq<u8>, n: nat) -> Seq<u8>
    decreases n,
{
    if n == 0 {
        s
    } else {
        let s1 = take_frames(s, (n - 1) as nat);
        take_run(s1, first_fit(s1, 1)->0, 1)
    }
}

/// `n` single frames can be taken one after another.
pub open spec fn frames_available(s: Seq<u8>, n: nat) -> bool
    decreases n,
{
    n == 0 || (frames_available(s, (n - 1) as nat) && first_fit(take_frames(s, (n - 1) as nat), 1) is Some)
}

proof fn lemma_take_frames(s: Seq<u8>)
    ensures
        take_frames(s, 0) == s,
        frames_available(s, 0),
        take_frames(s, 1) == take_run(s, first_fit(s, 1)->0, 1),
        frames_available(s, 1) == (first_fit(s, 1) is Some),
        take_frames(s, 2) == take_run(take_frames(s, 1), first_fit(take_frames(s, 1), 1)->0, 1),
        frames_available(s, 2) == (first_fit(s, 1) is Some && first_fit(take_frames(s, 1), 1) is Some),
{
    reveal_with_fuel(take_frames, 3);
    reveal_with_fuel(frames_available, 3);
}

proof fn lemma_take_frames_add(s: Seq<u8>, a: nat, b: nat)
    ensures
        take_frames(take_frames(s, a), b) == take_frames(s, a + b),
    decreases b,
{
    if b > 0 {
        lemma_take_frames_add(s, a, (b - 1) as nat);
        assert((a + b - 1) as nat == a + (b - 1) as nat);
    }
}

proof fn lemma_frames_available_split(s: Seq<u8>, a: nat, b: nat)
    requires
        frames_available(s, a + b),
    ensures
        frames_available(take_frames(s, a), b),
    decreases b,
{
    if b > 0 {
        assert((a + b - 1) as nat == a + (b - 1) as nat);
        lemma_frames_available_split(s, a, (b - 1) as nat);
        lemma_take_frames_add(s, a, (b - 1) as nat);
    }
}

proof fn lemma_frames_available_fewer(s: Seq<u8>, n: nat, m: nat)
    requires
        frames_available(s, n),
        m <= n,
    ensures
        frames_available(s, m),
    decreases n,
{
    if m < n {
        lemma_frames_available_fewer(s, (n - 1) as nat, m);
    }
}

/// Entry `k` of the table in frame `t` is on the walk for `v`, at `level` or
/// above.
pub open spec fn walk_slot(fa: FrameAllocator, rt: int, v: u64, level: int, t: int, k: int) -> bool {
    ||| t == rt && k == vpn(v, 2)
    ||| level <= 1 && t == l1_of(fa, rt, vpn(v, 2)) && k == vpn(v, 1)
    ||| level == 0 && t == l0_of(fa, rt, vpn(v, 2), vpn(v, 1)) && k == vpn(v, 0)
}

/// The table on the walk for `v` that holds its entry at `level`.
pub open spec fn level_table(fa: FrameAllocator, rt: int, v: u64, level: int) -> int {
    if level == 2 {
        rt
    } else if level == 1 {
        l1_of(fa, rt, vpn(v, 2))
    } else {
        l0_of(fa, rt, vpn(v, 2), vpn(v, 1))
    }
}

/// `u` and `v` share the entry that mapping `v` at `level` writes.
pub open spec fn same_slot(u: u64, v: u64, level: int) -> bool {
    &&& vpn(u, 2) == vpn(v, 2)
    &&& level <= 1 ==> vpn(u, 1) == vpn(v, 1)
    &&& level == 0 ==> vpn(u, 0) == vpn(v, 0)
}

/// Level at which `map` writes the leaf: `level`, or the root's level for
/// anything above it.
pub open spec fn leaf_level(level: usize) -> int {
    if level >= 2 {
        2
    } else {
        level as int
    }
}

/// Maps virtual address `vaddr` to physical address `paddr` with permission
/// `bits`, writing the leaf at `level` (0: 4 KiB page, 1: 2 MiB, 2 and above:
/// 1 GiB at the root) and creating the intermediate tables that are missing.
pub fn map(fa: &mut FrameAllocator, root: usize, vaddr: usize, paddr: usize, bits: u64, level: usize) -> (r: Result<(), MapError>)
    requires
        root_ok(*old(fa), root as int),
    ensures
        root_ok(*final(fa), root as int),
        frames_kept(*old(fa), *final(fa)),
        (bits & 0xe == 0) == (r matches Err(MapError::NoPermission)),
        r matches Err(MapError::NoPermission) ==> *final(fa) == *old(fa),
        r matches Err(MapError::LeafInPath) ==> same_state(*old(fa), *final(fa)) && translate(
            *old(fa),
            frame_index(*old(fa), root as int),
            vaddr as u64,
        ) is Some,
        (r matches Err(MapError::LeafInPath)) == (bits & 0xe != 0 && leaf_above(
            *old(fa),
            frame_index(*old(fa), root as int),
            vaddr as u64,
            leaf_level(level),
        )),
        (r matches Err(MapError::OutOfMemory)) == (bits & 0xe != 0 && !leaf_above(
            *old(fa),
            frame_index(*old(fa), root as int),
            vaddr as u64,
            leaf_level(level),
        ) && !frames_available(
            old(fa).flags(),
            tables_needed(*old(fa), frame_index(*old(fa), root as int), vaddr as u64, leaf_level(level)),
        )),
        r matches Err(MapError::OutOfMemory) ==> first_fit(final(fa).flags(), 1) is None
            && at_most_one_taken(*old(fa), *final(fa)),
        r is Ok ==> final(fa).flags() == take_frames(
            old(fa).flags(),
            tables_needed(*old(fa), frame_index(*old(fa), root as int), vaddr as u64, leaf_level(level)),
        ),
        r is Ok ==> pte_at(
            final(fa).memory(),
            level_table(*final(fa), frame_index(*old(fa), root as int), vaddr as u64, leaf_level(level)),
            vpn(vaddr as u64, leaf_level(level)),
        ) == leaf_pte(paddr as u64, bits),
        r is Ok && level <= 1 ==> ({
            let rt = frame_index(*old(fa), root as int);
            let e = pte_at(old(fa).memory(), rt, vpn(vaddr as u64, 2));
            let e2 = pte_at(final(fa).memory(), rt, vpn(vaddr as u64, 2));
            &&& is_l1(*final(fa), rt, vpn(vaddr as u64, 2))
            &&& pte_valid(e) ==> e2 == e
            &&& !pte_valid(e) ==> e2 == branch_pte(
                frame_addr(old(fa).start() as int, l1_of(*final(fa), rt, vpn(vaddr as u64, 2))) as u64,
            )
            &&& !pte_valid(e) ==> l1_of(*final(fa), rt, vpn(vaddr as u64, 2)) == first_fit(
                old(fa).flags(),
                1,
            )->0
        }),
        r is Ok && level == 0 ==> ({
            let rt = frame_index(*old(fa), root as int);
            let v = vaddr as u64;
            let e = pte_at(old(fa).memory(), rt, vpn(v, 2));
            let e1 = pte_at(old(fa).memory(), l1_of(*old(fa), rt, vpn(v, 2)), vpn(v, 1));
            let e2 = pte_at(final(fa).memory(), l1_of(*final(fa), rt, vpn(v, 2)), vpn(v, 1));
            &&& is_l0(*final(fa), rt, vpn(v, 2), vpn(v, 1))
            &&& pte_valid(e) && pte_valid(e1) ==> e2 == e1
            &&& !(pte_valid(e) && pte_valid(e1)) ==> e2 == branch_pte(
                frame_addr(old(fa).start() as int, l0_of(*final(fa), rt, vpn(v, 2), vpn(v, 1))) as u64,
            )
            &&& !(pte_valid(e) && pte_valid(e1)) ==> old(fa).flags()[l0_of(
                *final(fa),
                rt,
                vpn(v, 2),
                vpn(v, 1),
            )] == 0
        }),
        r is Ok ==> forall|f: int, k: int|
            0 <= f < old(fa).num_pages() && 0 <= k < 512 && !walk_slot(
                *final(fa),
                frame_index(*old(fa), root as int),
                vaddr as u64,
                leaf_level(level),
                f,
                k,
            ) ==> #[trigger] pte_at(final(fa).memory(), f, k) == if old(fa).flags()[f] == 0
                && final(fa).flags()[f] != 0 {
                0u64
            } else {
                pte_at(old(fa).memory(), f, k)
            },
        r is Ok ==> translate(*final(fa), frame_index(*old(fa), root as int), vaddr as u64) == Some(
            leaf_addr(leaf_pte(paddr as u64, bits), vaddr as u64, leaf_level(level)),
        ),
        r is Ok ==> forall|u: u64|
            !same_slot(u, vaddr as u64, leaf_level(level)) ==> #[trigger] translate(
                *final(fa),
                frame_index(*old(fa), root as int),
                u,
            ) == translate(*old(fa), frame_index(*old(fa), root as int), u),
        r is Err ==> forall|u: u64|
            #[trigger] translate(*final(fa), frame_index(*old(fa), root as int), u) == translate(
                *old(fa),
                frame_index(*old(fa), root as int),
                u,
            ),
{
    if bits & 0xe == 0 {
        return Err(MapError::NoPermission);
    }
    // a leaf deeper than the root's level is written at the root
    let level = if level > 2 {
        2
    } else {
        level
    };
    let ghost fa0 = *fa;
    let rt = (root - fa.alloc_start()) / 4096;
    let v = vaddr as u64;
    let pa = paddr as u64;
    let vpn2 = ((v >> 30) & 0x1ff) as usize;
    let vpn1 = ((v >> 21) & 0x1ff) as usize;
    let vpn0 = ((v >> 12) & 0x1ff) as usize;
    proof {
        lemma_vpn_bound(v);
        lemma_leaf_pte(pa, bits);
        assert(rt as int == frame_index(fa0, root as int));
        assert(vpn2 == vpn(v, 2) && vpn1 == vpn(v, 1) && vpn0 == vpn(v, 0));
    }
    let leaf = (((pa >> 30) & 0x3ff_ffff) << 28) | (((pa >> 21) & 0x1ff) << 19) | (((pa >> 12)
        & 0x1ff) << 10) | bits | EntryBits::Valid.val();
    if level == 2 {
        fa.write_word(rt * PAGE_WORDS + vpn2, leaf);
        proof {
            lemma_write_kept(fa0, *fa, rt as int, vpn2 as int);
            lemma_tree_write_leaf(fa0, *fa, rt as int, rt as int, vpn2 as int);
            assert(pte_at(fa.memory(), rt as int, vpn2 as int) == leaf_pte(pa, bits));
            assert(translate(*fa, rt as int, v) == Some(leaf_addr(leaf_pte(pa, bits), v, 2)));
            lemma_member_index(fa0, rt as int);
            assert forall|u: u64| !same_slot(u, v, 2) implies #[trigger] translate(*fa, rt as int, u)
                == translate(fa0, rt as int, u) by {
                if is_l1(fa0, rt as int, vpn(u, 2)) {
                    assert(pte_branch(pte_at(fa0.memory(), rt as int, vpn(u, 2))));
                }
                if is_l0(fa0, rt as int, vpn(u, 2), vpn(u, 1)) {
                    assert(pte_branch(pte_at(fa0.memory(), rt as int, vpn(u, 2))));
                    assert(level1_ok(fa0, rt as int, l1_of(fa0, rt as int, vpn(u, 2))));
                    assert(pte_branch(pte_at(fa0.memory(), l1_of(fa0, rt as int, vpn(u, 2)), vpn(u, 1))));
                }
                lemma_walk_kept(fa0, *fa, rt as int, rt as int, vpn2 as int, u);
            }
        }
        return Ok(());
    }
    let t1 = match next_table(fa, Ghost(rt as int), rt, vpn2) {
        Ok(t1) => t1,
        Err(err) => {
            proof {
                lemma_take_frames(fa0.flags());
                let m = fa0.memory();
                let e2 = pte_at(m, rt as int, vpn2 as int);
                if err == MapError::LeafInPath {
                    assert(walk(m, fa0.start(), fa0.num_pages(), rt as int, v, 2) == Some(
                        leaf_addr(e2, v, 2),
                    ));
                }
            }
            return Err(err);
        },
    };
    let ghost fa1 = *fa;
    if level == 1 {
        fa.write_word(t1 * PAGE_WORDS + vpn1, leaf);
        proof {
            let fa2 = *fa;
            lemma_write_kept(fa1, fa2, t1 as int, vpn1 as int);
            lemma_tree_write_leaf(fa1, fa2, rt as int, t1 as int, vpn1 as int);
            lemma_kept_trans(fa0, fa1, fa2);
            assert(pte_at(fa2.memory(), rt as int, vpn2 as int) == pte_at(fa1.memory(), rt as int, vpn2 as int));
            let m = fa2.memory();
            assert(pte_at(m, t1 as int, vpn1 as int) == leaf_pte(pa, bits));
            assert(walk(m, fa2.start(), fa2.num_pages(), t1 as int, v, 1) == Some(
                leaf_addr(leaf_pte(pa, bits), v, 1),
            ));
            assert(is_l1(fa1, rt as int, vpn2 as int) && l1_of(fa1, rt as int, vpn2 as int) == t1);
            lemma_take_frames(fa0.flags());
            lemma_first_fit(fa0.flags(), 1);
            assert(l1_of(fa2, rt as int, vpn2 as int) == t1);
            let fresh1 = !pte_valid(pte_at(fa0.memory(), rt as int, vpn2 as int));
            assert forall|f: int, k: int|
                0 <= f < fa0.num_pages() && 0 <= k < 512 && !walk_slot(fa2, rt as int, v, 1, f, k)
                    implies #[trigger] pte_at(fa2.memory(), f, k) == if fa0.flags()[f] == 0
                && fa2.flags()[f] != 0 {
                0u64
            } else {
                pte_at(fa0.memory(), f, k)
            } by {
                assert(pte_at(fa2.memory(), f, k) == pte_at(fa1.memory(), f, k));
                if fresh1 {
                    assert(fa0.flags()[t1 as int] == 0);
                }
            }
            lemma_member_index(fa1, rt as int);
            assert forall|u: u64| !same_slot(u, v, 1) implies #[trigger] translate(fa2, rt as int, u)
                == translate(fa0, rt as int, u) by {
                if is_l1(fa1, rt as int, vpn(u, 2)) && l1_of(fa1, rt as int, vpn(u, 2)) == t1 {
                    if vpn(u, 2) != vpn2 {
                        assert(l1_of(fa1, rt as int, vpn(u, 2)) != l1_of(fa1, rt as int, vpn2 as int));
                    }
                }
                if is_l0(fa1, rt as int, vpn(u, 2), vpn(u, 1)) {
                    assert(l1_of(fa1, rt as int, vpn2 as int) != l0_of(fa1, rt as int, vpn(u, 2), vpn(u, 1)));
                }
                lemma_walk_kept(fa1, fa2, rt as int, t1 as int, vpn1 as int, u);
                assert(translate(fa1, rt as int, u) == translate(fa0, rt as int, u));
            }
        }
        return Ok(());
    }
    proof {
        assert(is_l1(fa1, rt as int, vpn2 as int) && l1_of(fa1, rt as int, vpn2 as int) == t1);
    }
    let t0 = match next_table(fa, Ghost(rt as int), t1, vpn1) {
        Ok(t0) => t0,
        Err(err) => {
            proof {
                let e2 = pte_at(fa0.memory(), rt as int, vpn2 as int);
                if err == MapError::LeafInPath {
                    if !pte_valid(e2) {
                        assert(pte_at(fa1.memory(), t1 as int, vpn1 as int) == 0);
                        lemma_zero_invalid();
                    }
                    let m = fa0.memory();
                    let e1 = pte_at(m, t1 as int, vpn1 as int);
                    assert(walk(m, fa0.start(), fa0.num_pages(), t1 as int, v, 1) == Some(
                        leaf_addr(e1, v, 1),
                    ));
                    assert(walk(m, fa0.start(), fa0.num_pages(), rt as int, v, 2) == Some(
                        leaf_addr(e1, v, 1),
                    ));
                }
                lemma_kept_trans(fa0, fa1, *fa);
                lemma_take_frames(fa0.flags());
                lemma_first_fit(fa0.flags(), 1);
                if !pte_valid(e2) {
                    assert(pte_at(fa1.memory(), t1 as int, vpn1 as int) == 0);
                    lemma_zero_invalid();
                    assert(fa1.flags() == take_frames(fa0.flags(), 1));
                } else {
                    assert(fa1.flags() == fa0.flags());
                    assert(l1_of(fa0, rt as int, vpn2 as int) == t1);
                }
            }
            return Err(err);
        },
    };
    let ghost fa2 = *fa;
    fa.write_word(t0 * PAGE_WORDS + vpn0, leaf);
    proof {
        let fa3 = *fa;
        lemma_write_kept(fa2, fa3, t0 as int, vpn0 as int);
        lemma_tree_write_leaf(fa2, fa3, rt as int, t0 as int, vpn0 as int);
        lemma_kept_trans(fa0, fa1, fa2);
        lemma_kept_trans(fa0, fa2, fa3);
        assert(pte_at(fa2.memory(), rt as int, vpn2 as int) == pte_at(fa1.memory(), rt as int, vpn2 as int));
        assert(pte_at(fa3.memory(), rt as int, vpn2 as int) == pte_at(fa2.memory(), rt as int, vpn2 as int));
        assert(pte_at(fa3.memory(), t1 as int, vpn1 as int) == pte_at(fa2.memory(), t1 as int, vpn1 as int));
        let m = fa3.memory();
        assert(pte_at(m, t0 as int, vpn0 as int) == leaf_pte(pa, bits));
        assert(walk(m, fa3.start(), fa3.num_pages(), t0 as int, v, 0) == Some(
            leaf_addr(leaf_pte(pa, bits), v, 0),
        ));
        assert(walk(m, fa3.start(), fa3.num_pages(), t1 as int, v, 1) == Some(
            leaf_addr(leaf_pte(pa, bits), v, 0),
        ));
        assert(is_l1(fa2, rt as int, vpn2 as int) && l1_of(fa2, rt as int, vpn2 as int) == t1);
        assert(is_l0(fa2, rt as int, vpn2 as int, vpn1 as int) && l0_of(
            fa2,
            rt as int,
            vpn2 as int,
            vpn1 as int,
        ) == t0);
        lemma_member_index(fa2, rt as int);
        assert forall|u: u64| !same_slot(u, v, 0) implies #[trigger] translate(fa3, rt as int, u)
            == translate(fa0, rt as int, u) by {
            if is_l1(fa2, rt as int, vpn(u, 2)) {
                assert(l1_of(fa2, rt as int, vpn(u, 2)) != l0_of(fa2, rt as int, vpn2 as int, vpn1 as int));
            }
            if is_l0(fa2, rt as int, vpn(u, 2), vpn(u, 1)) && (vpn(u, 2) != vpn2 || vpn(u, 1) != vpn1) {
                assert(l0_of(fa2, rt as int, vpn(u, 2), vpn(u, 1)) != l0_of(
                    fa2,
                    rt as int,
                    vpn2 as int,
                    vpn1 as int,
                ));
            }
            lemma_walk_kept(fa2, fa3, rt as int, t0 as int, vpn0 as int, u);
            assert(translate(fa2, rt as int, u) == translate(fa1, rt as int, u));
            assert(translate(fa1, rt as int, u) == translate(fa0, rt as int, u));
        }
        lemma_take_frames(fa0.flags());
        lemma_first_fit(fa0.flags(), 1);
        lemma_first_fit(fa1.flags(), 1);
        let e = pte_at(fa0.memory(), rt as int, vpn2 as int);
        let fresh1 = !pte_valid(e);
        let fresh2 = !pte_valid(pte_at(fa1.memory(), t1 as int, vpn1 as int));
        assert(l1_of(fa3, rt as int, vpn2 as int) == t1);
        assert(l0_of(fa3, rt as int, vpn2 as int, vpn1 as int) == t0);
        if fresh1 {
            assert(pte_at(fa1.memory(), t1 as int, vpn1 as int) == 0);
            lemma_zero_invalid();
            assert(fresh2);
            assert(fa1.flags() == take_frames(fa0.flags(), 1));
            assert(fa0.flags()[t1 as int] == 0);
        } else {
            assert(fa1.flags() == fa0.flags());
            assert(fa1.memory() == fa0.memory());
            assert(l1_of(fa0, rt as int, vpn2 as int) == t1);
        }
        if fresh2 {
            assert(fa1.flags()[t0 as int] == 0);
            assert(fa0.flags()[t0 as int] == 0);
        } else {
            assert(fa2.flags() == fa1.flags());
            assert(fa2.memory() == fa1.memory());
        }
        assert(pte_at(fa3.memory(), t1 as int, vpn1 as int) == pte_at(fa2.memory(), t1 as int, vpn1 as int));
        assert forall|f: int, k: int|
            0 <= f < fa0.num_pages() && 0 <= k < 512 && !walk_slot(fa3, rt as int, v, 0, f, k)
                implies #[trigger] pte_at(fa3.memory(), f, k) == if fa0.flags()[f] == 0
            && fa3.flags()[f] != 0 {
            0u64
        } else {
            pte_at(fa0.memory(), f, k)
        } by {
            assert(pte_at(fa3.memory(), f, k) == pte_at(fa2.memory(), f, k));
            assert(pte_at(fa2.memory(), f, k) == if fresh2 && f == t0 {
                0u64
            } else {
                pte_at(fa1.memory(), f, k)
            });
            assert(pte_at(fa1.memory(), f, k) == if fresh1 && f == t1 {
                0u64
            } else {
                pte_at(fa0.memory(), f, k)
            });
        }
    }
    Ok(())
}

/// Walks the tables from `root` for `vaddr`: the physical address it maps
/// to, with the offset bits below the leaf's level taken from `vaddr`; `None`
/// when an entry on the way is invalid, when level 0 holds a branch, or when
/// an entry leads outside the frames.
pub fn virt_to_phys(fa: &FrameAllocator, root: usize, vaddr: usize) -> (r: Option<usize>)
    requires
        fa.wf(),
    ensures
        r == (match frame_of(fa.start(), fa.num_pages(), root as int) {
            Some(rt) => match translate(*fa, rt, vaddr as u64) {
                Some(a) => Some(a as usize),
                None => None,
            },
            None => None,
        }),
{
    let start = fa.alloc_start();
    let num = fa.page_count();
    if root < start || root - start >= PAGE_SIZE * num {
        return None;
    }
    let v = vaddr as u64;
    let ghost rt = (root - start) / 4096;
    let mut t: usize = (root - start) / PAGE_SIZE;
    let mut lvl: usize = 2;
    proof {
        lemma_vpn_bound(v);
    }
    loop
        invariant
            fa.wf(),
            v == vaddr as u64,
            start == fa.start(),
            num == fa.num_pages(),
            t < num,
            lvl <= 2,
            rt == frame_of(fa.start(), fa.num_pages(), root as int)->0,
            frame_of(fa.start(), fa.num_pages(), root as int) is Some,
            translate(*fa, rt, v) == walk(fa.memory(), fa.start(), fa.num_pages(), t as int, v, lvl as int),
            0 <= vpn(v, 0) < 512,
            0 <= vpn(v, 1) < 512,
            0 <= vpn(v, 2) < 512,
        decreases lvl,
    {
        let idx: usize = if lvl == 2 {
            ((v >> 30) & 0x1ff) as usize
        } else if lvl == 1 {
            ((v >> 21) & 0x1ff) as usize
        } else {
            ((v >> 12) & 0x1ff) as usize
        };
        assert(idx == vpn(v, lvl as int));
        let e = Entry { entry: fa.read_word(t * PAGE_WORDS + idx) };
        if e.is_invalid() {
            return None;
        }
        if e.is_leaf() {
            let mask: u64 = if lvl == 2 {
                0x3fff_ffff
            } else if lvl == 1 {
                0x1f_ffff
            } else {
                0xfff
            };
            let addr = ((e.get_entry() << 2) & !mask) | (v & mask);
            return Some(addr as usize);
        }
        if lvl == 0 {
            return None;
        }
        let a = (e.get_entry() & !0x3ff) << 2;
        if a < start as u64 || a - start as u64 >= 4096 * num as u64 {
            return None;
        }
        t = ((a - start as u64) / 4096) as usize;
        lvl -= 1;
    }
}

/// Frame `f` holds a level-1 table behind a root entry below `k2`, or a
/// level-0 table behind entry `j` of the level-1 table behind root entry `k`,
/// with `(k, j)` before `(k2, k1)`.
pub open spec fn freed_before(fa: FrameAllocator, rt: int, f: int, k2: int, k1: int) -> bool {
    ||| exists|k: int| 0 <= k < k2 && is_l1(fa, rt, k) && #[trigger] l1_of(fa, rt, k) == f
    ||| exists|k: int, j: int|
        is_l0(fa, rt, k, j) && (k < k2 || (k == k2 && j < k1)) && #[trigger] l0_of(fa, rt, k, j)
            == f
}

/// Frame `f` holds one of the level-1 or level-0 tables of the tree under
/// the root in frame `rt`.
pub open spec fn tree_table(fa: FrameAllocator, rt: int, f: int) -> bool {
    freed_before(fa, rt, f, 512, 0)
}

proof fn lemma_freed_step_l0(fa: FrameAllocator, rt: int, k2: int, k1: int, f: int)
    requires
        0 <= k2 < 512,
        0 <= k1 < 512,
    ensures
        freed_before(fa, rt, f, k2, k1 + 1) == (freed_before(fa, rt, f, k2, k1) || (is_l0(
            fa,
            rt,
            k2,
            k1,
        ) && f == l0_of(fa, rt, k2, k1))),
{
    if freed_before(fa, rt, f, k2, k1 + 1) && !freed_before(fa, rt, f, k2, k1) {
        if exists|k: int, j: int|
            is_l0(fa, rt, k, j) && (k < k2 || (k == k2 && j < k1 + 1)) && #[trigger] l0_of(
                fa,
                rt,
                k,
                j,
            ) == f {
            let (k, j) = choose|k: int, j: int|
                is_l0(fa, rt, k, j) && (k < k2 || (k == k2 && j < k1 + 1)) && #[trigger] l0_of(
                    fa,
                    rt,
                    k,
                    j,
                ) == f;
            if !(k == k2 && j == k1) {
                assert(is_l0(fa, rt, k, j) && (k < k2 || (k == k2 && j < k1)) && l0_of(fa, rt, k, j)
                    == f);
            }
        }
    }
    if is_l0(fa, rt, k2, k1) && f == l0_of(fa, rt, k2, k1) {
        assert(is_l0(fa, rt, k2, k1) && (k2 < k2 || (k2 == k2 && k1 < k1 + 1)) && l0_of(
            fa,
            rt,
            k2,
            k1,
        ) == f);
    }
}

proof fn lemma_freed_step_l1(fa: FrameAllocator, rt: int, k2: int, f: int)
    requires
        0 <= k2 < 512,
    ensures
        freed_before(fa, rt, f, k2 + 1, 0) == (freed_before(fa, rt, f, k2, 512) || (is_l1(fa, rt, k2)
            && f == l1_of(fa, rt, k2))),
{
    if freed_before(fa, rt, f, k2 + 1, 0) && !freed_before(fa, rt, f, k2, 512) {
        if exists|k: int| 0 <= k < k2 + 1 && is_l1(fa, rt, k) && #[trigger] l1_of(fa, rt, k) == f {
            let k = choose|k: int| 0 <= k < k2 + 1 && is_l1(fa, rt, k) && #[trigger] l1_of(fa, rt, k) == f;
            if k != k2 {
                assert(0 <= k < k2 && is_l1(fa, rt, k) && l1_of(fa, rt, k) == f);
            }
        } else {
            let (k, j) = choose|k: int, j: int|
                is_l0(fa, rt, k, j) && (k < k2 + 1 || (k == k2 + 1 && j < 0)) && #[trigger] l0_of(
                    fa,
                    rt,
                    k,
                    j,
                ) == f;
            assert(is_l0(fa, rt, k, j) && (k < k2 || (k == k2 && j < 512)) && l0_of(fa, rt, k, j) == f);
        }
    }
    if freed_before(fa, rt, f, k2, 512) {
        if exists|k: int| 0 <= k < k2 && is_l1(fa, rt, k) && #[trigger] l1_of(fa, rt, k) == f {
            let k = choose|k: int| 0 <= k < k2 && is_l1(fa, rt, k) && #[trigger] l1_of(fa, rt, k) == f;
            assert(0 <= k < k2 + 1 && is_l1(fa, rt, k) && l1_of(fa, rt, k) == f);
        } else {
            let (k, j) = choose|k: int, j: int|
                is_l0(fa, rt, k, j) && (k < k2 || (k == k2 && j < 512)) && #[trigger] l0_of(fa, rt, k, j)
                    == f;
            assert(is_l0(fa, rt, k, j) && (k < k2 + 1 || (k == k2 + 1 && j < 0)) && l0_of(
                fa,
                rt,
                k,
                j,
            ) == f);
        }
    }
    if is_l1(fa, rt, k2) && f == l1_of(fa, rt, k2) {
        assert(0 <= k2 < k2 + 1 && is_l1(fa, rt, k2) && l1_of(fa, rt, k2) == f);
    }
}

/// Frees the intermediate tables under `root`: for each root branch, the
/// level-0 tables its level-1 table points to, then that level-1 table; the
/// root branch is then cleared. Leaf (data) frames are left to their owners,
/// and on a table with no branches left nothing is freed.
pub fn unmap(fa: &mut FrameAllocator, root: usize)
    requires
        root_ok(*old(fa), root as int),
    ensures
        final(fa).wf(),
        final(fa).start() == old(fa).start(),
        final(fa).num_pages() == old(fa).num_pages(),
        root_ok(*final(fa), root as int),
        ({
            let rt = frame_index(*old(fa), root as int);
            let m = old(fa).memory();
            &&& forall|f: int|
                0 <= f < old(fa).num_pages() ==> #[trigger] final(fa).flags()[f] == if tree_table(
                    *old(fa),
                    rt,
                    f,
                ) {
                    0u8
                } else {
                    old(fa).flags()[f]
                }
            &&& forall|k: int|
                0 <= k < 512 ==> #[trigger] pte_at(final(fa).memory(), rt, k) == if pte_branch(
                    pte_at(m, rt, k),
                ) {
                    0u64
                } else {
                    pte_at(m, rt, k)
                }
            &&& forall|w: int|
                0 <= w < m.len() && !(rt * 512 <= w < rt * 512 + 512)
                    ==> #[trigger] final(fa).memory()[w] == m[w]
        }),
{
    let ghost fa0 = *fa;
    let ghost m = fa0.memory();
    let start = fa.alloc_start();
    let rt = (root - start) / PAGE_SIZE;
    proof {
        lemma_member_index(fa0, rt as int);
    }
    let mut lv2: usize = 0;
    while lv2 < Table::len()
        invariant
            fa.wf(),
            fa.start() == fa0.start(),
            fa.num_pages() == fa0.num_pages(),
            start == fa0.start(),
            fa0 == *old(fa),
            m == fa0.memory(),
            rt == frame_index(fa0, root as int),
            tree_ok(fa0, rt as int),
            lv2 <= 512,
            forall|k: int| #[trigger] is_l1(fa0, rt as int, k) ==> 0 <= l1_of(fa0, rt as int, k) < fa0.num_pages()
                && fa0.flags()[l1_of(fa0, rt as int, k)] == 3,
            forall|k: int, j: int|
                #[trigger] is_l0(fa0, rt as int, k, j) ==> 0 <= l0_of(fa0, rt as int, k, j) < fa0.num_pages()
                    && fa0.flags()[l0_of(fa0, rt as int, k, j)] == 3,
            forall|f: int|
                0 <= f < fa0.num_pages() ==> #[trigger] fa.flags()[f] == if freed_before(
                    fa0,
                    rt as int,
                    f,
                    lv2 as int,
                    0,
                ) {
                    0u8
                } else {
                    fa0.flags()[f]
                },
            forall|k: int|
                0 <= k < 512 ==> #[trigger] pte_at(fa.memory(), rt as int, k) == if k < lv2
                    && pte_branch(pte_at(m, rt as int, k)) {
                    0u64
                } else {
                    pte_at(m, rt as int, k)
                },
            forall|w: int|
                0 <= w < m.len() && !(rt * 512 <= w < rt * 512 + 512) ==> #[trigger] fa.memory()[w]
                    == m[w],
            fa.memory().len() == m.len(),
        decreases 512 - lv2,
    {
        let e2 = Entry { entry: fa.read_word(rt * PAGE_WORDS + lv2) };
        assert(pte_at(fa.memory(), rt as int, lv2 as int) == pte_at(m, rt as int, lv2 as int));
        assert(e2.entry == pte_at(m, rt as int, lv2 as int));
        if e2.is_valid() && e2.is_branch() {
            assert(is_l1(fa0, rt as int, lv2 as int));
            let a1 = (e2.get_entry() & !0x3ff) << 2;
            let t1 = ((a1 - start as u64) / 4096) as usize;
            assert(t1 == l1_of(fa0, rt as int, lv2 as int));
            let mut lv1: usize = 0;
            while lv1 < Table::len()
                invariant
                    fa.wf(),
                    fa.start() == fa0.start(),
                    fa.num_pages() == fa0.num_pages(),
                    start == fa0.start(),
                    fa0 == *old(fa),
                    m == fa0.memory(),
                    rt == frame_index(fa0, root as int),
                    tree_ok(fa0, rt as int),
                    lv2 < 512,
                    lv1 <= 512,
                    is_l1(fa0, rt as int, lv2 as int),
                    t1 == l1_of(fa0, rt as int, lv2 as int),
                    forall|k: int| #[trigger] is_l1(fa0, rt as int, k) ==> 0 <= l1_of(fa0, rt as int, k)
                        < fa0.num_pages() && fa0.flags()[l1_of(fa0, rt as int, k)] == 3,
                    forall|k: int, j: int|
                        #[trigger] is_l0(fa0, rt as int, k, j) ==> 0 <= l0_of(fa0, rt as int, k, j)
                            < fa0.num_pages() && fa0.flags()[l0_of(fa0, rt as int, k, j)] == 3,
                    forall|f: int|
                        0 <= f < fa0.num_pages() ==> #[trigger] fa.flags()[f] == if freed_before(
                            fa0,
                            rt as int,
                            f,
                            lv2 as int,
                            lv1 as int,
                        ) {
                            0u8
                        } else {
                            fa0.flags()[f]
                        },
                    forall|k: int|
                        0 <= k < 512 ==> #[trigger] pte_at(fa.memory(), rt as int, k) == if k < lv2
                            && pte_branch(pte_at(m, rt as int, k)) {
                            0u64
                        } else {
                            pte_at(m, rt as int, k)
                        },
                    forall|w: int|
                        0 <= w < m.len() && !(rt * 512 <= w < rt * 512 + 512) ==> #[trigger] fa.memory()[w]
                            == m[w],
                    fa.memory().len() == m.len(),
                decreases 512 - lv1,
            {
                let e1 = Entry { entry: fa.read_word(t1 * PAGE_WORDS + lv1) };
                proof {
                    assert(t1 != rt);
                    assert(fa.memory()[t1 * 512 + lv1] == m[t1 * 512 + lv1]);
                    assert(e1.entry == pte_at(m, t1 as int, lv1 as int));
                }
                let ghost before = *fa;
                if e1.is_valid() && e1.is_branch() {
                    let a0 = (e1.get_entry() & !0x3ff) << 2;
                    let ghost t0 = l0_of(fa0, rt as int, lv2 as int, lv1 as int);
                    proof {
                        assert(is_l0(fa0, rt as int, lv2 as int, lv1 as int));
                        assert(level1_ok(fa0, rt as int, t1 as int));
                        assert(live_table(fa0, a0));
                        // no table reached earlier is this one
                        if freed_before(fa0, rt as int, t0, lv2 as int, lv1 as int) {
                            if exists|k: int| 0 <= k < lv2 && is_l1(fa0, rt as int, k) && #[trigger] l1_of(
                                fa0,
                                rt as int,
                                k,
                            ) == t0 {
                                let k = choose|k: int| 0 <= k < lv2 && is_l1(fa0, rt as int, k) && #[trigger] l1_of(
                                    fa0,
                                    rt as int,
                                    k,
                                ) == t0;
                                assert(l1_of(fa0, rt as int, k) != l0_of(fa0, rt as int, lv2 as int, lv1 as int));
                            } else {
                                let (k, j) = choose|k: int, j: int|
                                    is_l0(fa0, rt as int, k, j) && (k < lv2 || (k == lv2 && j < lv1))
                                        && #[trigger] l0_of(fa0, rt as int, k, j) == t0;
                                assert(l0_of(fa0, rt as int, k, j) != l0_of(fa0, rt as int, lv2 as int, lv1 as int));
                            }
                        }
                        assert(before.flags()[t0] == 3);
                        assert(crate::page::run_end(before.flags(), t0) == t0);
                    }
                    match dealloc(fa, a0 as usize) {
                        Ok(()) => {},
                        Err(_) => {
                            proof {
                                assert(false);
                            }
                        },
                    }
                    proof {
                        assert forall|f: int| 0 <= f < fa0.num_pages() implies #[trigger] fa.flags()[f]
                            == if freed_before(fa0, rt as int, f, lv2 as int, lv1 + 1) {
                            0u8
                        } else {
                            fa0.flags()[f]
                        } by {
                            lemma_freed_step_l0(fa0, rt as int, lv2 as int, lv1 as int, f);
                            assert(fa.flags()[f] == before.flags()[f] || f == t0);
                        }
                    }
                } else {
                    proof {
                        assert forall|f: int| 0 <= f < fa0.num_pages() implies #[trigger] fa.flags()[f]
                            == if freed_before(fa0, rt as int, f, lv2 as int, lv1 + 1) {
                            0u8
                        } else {
                            fa0.flags()[f]
                        } by {
                            lemma_freed_step_l0(fa0, rt as int, lv2 as int, lv1 as int, f);
                        }
                    }
                }
                lv1 += 1;
            }
            let ghost before = *fa;
            proof {
                if freed_before(fa0, rt as int, t1 as int, lv2 as int, 512) {
                    if exists|k: int| 0 <= k < lv2 && is_l1(fa0, rt as int, k) && #[trigger] l1_of(
                        fa0,
                        rt as int,
                        k,
                    ) == t1 {
                        let k = choose|k: int| 0 <= k < lv2 && is_l1(fa0, rt as int, k) && #[trigger] l1_of(
                            fa0,
                            rt as int,
                            k,
                        ) == t1;
                        assert(l1_of(fa0, rt as int, k) != l1_of(fa0, rt as int, lv2 as int));
                    } else {
                        let (k, j) = choose|k: int, j: int|
                            is_l0(fa0, rt as int, k, j) && (k < lv2 || (k == lv2 && j < 512))
                                && #[trigger] l0_of(fa0, rt as int, k, j) == t1;
                        assert(l1_of(fa0, rt as int, lv2 as int) != l0_of(fa0, rt as int, k, j));
                    }
                }
                assert(before.flags()[t1 as int] == 3);
                assert(crate::page::run_end(before.flags(), t1 as int) == t1);
                assert(live_table(fa0, a1));
            }
            match dealloc(fa, a1 as usize) {
                Ok(()) => {},
                Err(_) => {
                    proof {
                        assert(false);
                    }
                },
            }
            proof {
                assert forall|f: int| 0 <= f < fa0.num_pages() implies #[trigger] fa.flags()[f]
                    == if freed_before(fa0, rt as int, f, lv2 + 1, 0) {
                    0u8
                } else {
                    fa0.flags()[f]
                } by {
                    lemma_freed_step_l1(fa0, rt as int, lv2 as int, f);
                    assert(fa.flags()[f] == before.flags()[f] || f == t1);
                }
            }
            let ghost prev = *fa;
            fa.write_word(rt * PAGE_WORDS + lv2, 0);
            proof {
                assert forall|k: int| 0 <= k < 512 && k != lv2 implies #[trigger] pte_at(fa.memory(), rt as int, k)
                    == pte_at(prev.memory(), rt as int, k) by {}
                assert(pte_at(fa.memory(), rt as int, lv2 as int) == 0);
            }
        } else {
            proof {
                assert(!is_l1(fa0, rt as int, lv2 as int));
                assert forall|f: int| 0 <= f < fa0.num_pages() implies #[trigger] fa.flags()[f]
                    == if freed_before(fa0, rt as int, f, lv2 + 1, 0) {
                    0u8
                } else {
                    fa0.flags()[f]
                } by {
                    lemma_freed_step_l1(fa0, rt as int, lv2 as int, f);
                    if freed_before(fa0, rt as int, f, lv2 as int, 512) && !freed_before(
                        fa0,
                        rt as int,
                        f,
                        lv2 as int,
                        0,
                    ) {
                        let (k, j) = choose|k: int, j: int|
                            is_l0(fa0, rt as int, k, j) && (k < lv2 || (k == lv2 && j < 512))
                                && #[trigger] l0_of(fa0, rt as int, k, j) == f;
                        assert(k != lv2);
                        assert(is_l0(fa0, rt as int, k, j) && (k < lv2 || (k == lv2 && j < 0)) && l0_of(
                            fa0,
                            rt as int,
                            k,
                            j,
                        ) == f);
                    }
                }
            }
        }
        lv2 += 1;
    }
    proof {
        lemma_zero_invalid();
        assert forall|k: int| 0 <= k < 512 implies !pte_branch(#[trigger] pte_at(fa.memory(), rt as int, k)) by {
            assert(pte_at(fa.memory(), rt as int, k) == if k < lv2 && pte_branch(pte_at(m, rt as int, k)) {
                0u64
            } else {
                pte_at(m, rt as int, k)
            });
        }
        assert(fa.flags()[rt as int] == fa0.flags()[rt as int]) by {
            if freed_before(fa0, rt as int, rt as int, 512, 0) {
                if exists|k: int| 0 <= k < 512 && is_l1(fa0, rt as int, k) && #[trigger] l1_of(
                    fa0,
                    rt as int,
                    k,
                ) == rt {
                    let k = choose|k: int| 0 <= k < 512 && is_l1(fa0, rt as int, k) && #[trigger] l1_of(
                        fa0,
                        rt as int,
                        k,
                    ) == rt;
                    assert(pte_branch(pte_at(m, rt as int, k)));
                } else {
                    let (k, j) = choose|k: int, j: int|
                        is_l0(fa0, rt as int, k, j) && (k < 512 || (k == 512 && j < 0))
                            && #[trigger] l0_of(fa0, rt as int, k, j) == rt;
                    assert(pte_branch(pte_at(m, rt as int, k)));
                    assert(level1_ok(fa0, rt as int, l1_of(fa0, rt as int, k)));
                    assert(pte_branch(pte_at(m, l1_of(fa0, rt as int, k), j)));
                }
            }
        }
        lemma_fresh_root_like(*fa, rt as int);
    }
}

/// A root table whose entries are all zero translates no address.
pub proof fn lemma_empty_table_unmapped(fa: FrameAllocator, rt: int, v: u64)
    requires
        fa.wf(),
        0 <= rt < fa.num_pages(),
        forall|k: int| 0 <= k < 512 ==> #[trigger] pte_at(fa.memory(), rt, k) == 0,
    ensures
        translate(fa, rt, v) is None,
{
    lemma_vpn_bound(v);
    assert(pte_at(fa.memory(), rt, vpn(v, 2)) == 0);
    lemma_zero_invalid();
}

/// Once `unmap` has cleared the root branches, an address that was mapped
/// through one of them translates to nothing: its root entry is invalid, so
/// mapping it again builds fresh tables instead of reusing freed ones.
pub proof fn lemma_unmap_clears_path(fa1: FrameAllocator, fa2: FrameAllocator, rt: int, v: u64)
    requires
        fa2.wf(),
        0 <= rt < fa2.num_pages(),
        forall|k: int|
            0 <= k < 512 ==> #[trigger] pte_at(fa2.memory(), rt, k) == if pte_branch(
                pte_at(fa1.memory(), rt, k),
            ) {
                0u64
            } else {
                pte_at(fa1.memory(), rt, k)
            },
        pte_branch(pte_at(fa1.memory(), rt, vpn(v, 2))),
    ensures
        pte_at(fa2.memory(), rt, vpn(v, 2)) == 0,
        translate(fa2, rt, v) is None,
{
    lemma_vpn_bound(v);
    assert(pte_at(fa2.memory(), rt, vpn(v, 2)) == 0);
    lemma_zero_invalid();
}

/// Re-mapping an address at level 0 after `unmap` tore down the tables on
/// its path succeeds and yields the new translation: the root entry is
/// invalid, so no leaf stands in the way and no freed table is reused, and
/// the two freed tables are frames that can be handed out again. `fa2` is
/// the state `unmap` leaves from `fa1`, and `fa3`, `r` any outcome that
/// `map` may give from `fa2`.
pub proof fn lemma_unmap_then_map(
    fa1: FrameAllocator,
    fa2: FrameAllocator,
    fa3: FrameAllocator,
    rt: int,
    v: u64,
    p: u64,
    bits: u64,
    r: Result<(), MapError>,
)
    requires
        tree_ok(fa1, rt),
        pte_branch(pte_at(fa1.memory(), rt, vpn(v, 2))),
        pte_branch(pte_at(fa1.memory(), l1_of(fa1, rt, vpn(v, 2)), vpn(v, 1))),
        fa2.wf(),
        fa2.start() == fa1.start(),
        fa2.num_pages() == fa1.num_pages(),
        forall|f: int|
            0 <= f < fa1.num_pages() ==> #[trigger] fa2.flags()[f] == if tree_table(fa1, rt, f) {
                0u8
            } else {
                fa1.flags()[f]
            },
        forall|k: int|
            0 <= k < 512 ==> #[trigger] pte_at(fa2.memory(), rt, k) == if pte_branch(
                pte_at(fa1.memory(), rt, k),
            ) {
                0u64
            } else {
                pte_at(fa1.memory(), rt, k)
            },
        bits & 0xe != 0,
        (bits & 0xe == 0) == (r matches Err(MapError::NoPermission)),
        (r matches Err(MapError::LeafInPath)) == (bits & 0xe != 0 && leaf_above(fa2, rt, v, 0)),
        (r matches Err(MapError::OutOfMemory)) == (bits & 0xe != 0 && !leaf_above(fa2, rt, v, 0)
            && !frames_available(fa2.flags(), tables_needed(fa2, rt, v, 0))),
        r is Ok ==> translate(fa3, rt, v) == Some(leaf_addr(leaf_pte(p, bits), v, 0)),
    ensures
        r is Ok,
        translate(fa3, rt, v) == Some(leaf_addr(leaf_pte(p, bits), v, 0)),
{
    lemma_vpn_bound(v);
    lemma_zero_invalid();
    lemma_member_index(fa1, rt);
    let m1 = fa1.memory();
    let k2 = vpn(v, 2);
    let k1 = vpn(v, 1);
    assert(pte_at(fa2.memory(), rt, k2) == 0);
    assert(!leaf_above(fa2, rt, v, 0));
    assert(tables_needed(fa2, rt, v, 0) == 2);
    let t1 = l1_of(fa1, rt, k2);
    let t0 = l0_of(fa1, rt, k2, k1);
    assert(is_l1(fa1, rt, k2));
    assert(is_l0(fa1, rt, k2, k1));
    assert(t0 != t1);
    assert(0 <= k2 < 512 && is_l1(fa1, rt, k2) && l1_of(fa1, rt, k2) == t1);
    assert(tree_table(fa1, rt, t1));
    assert(is_l0(fa1, rt, k2, k1) && (k2 < 512 || (k2 == 512 && k1 < 0)) && l0_of(fa1, rt, k2, k1)
        == t0);
    assert(tree_table(fa1, rt, t0));
    let s = fa2.flags();
    assert(s[t1] == 0 && s[t0] == 0);
    assert(t1 < fa1.num_pages() && t0 < fa1.num_pages());
    lemma_take_frames(s);
    lemma_first_fit(s, 1);
    assert(run_free(s, t1, 1));
    let i = first_fit(s, 1)->0;
    let s1 = take_run(s, i, 1);
    lemma_first_fit(s1, 1);
    if i == t1 {
        assert(run_free(s1, t0, 1));
    } else {
        assert(run_free(s1, t1, 1));
    }
    assert(frames_available(s, 2));
}

/// Page `i` of a range that starts in the page holding `start`.
pub open spec fn range_page(start: int, i: int) -> u64 {
    (start - start % 4096 + 4096 * i) as u64
}

/// A level-0 mapping of `v` neither adds nor removes a leaf above level 0
/// on any walk: it only turns invalid entries on `v`'s walk into branches to
/// zero-filled tables.
proof fn lemma_map_keeps_leaves(fa: FrameAllocator, fa2: FrameAllocator, rt: int, v: u64)
    requires
        tree_ok(fa, rt),
        tree_ok(fa2, rt),
        frames_kept(fa, fa2),
        !leaf_above(fa, rt, v, 0),
        is_l1(fa2, rt, vpn(v, 2)),
        pte_valid(pte_at(fa.memory(), rt, vpn(v, 2))) ==> pte_at(fa2.memory(), rt, vpn(v, 2))
            == pte_at(fa.memory(), rt, vpn(v, 2)),
        !pte_valid(pte_at(fa.memory(), rt, vpn(v, 2))) ==> fa.flags()[l1_of(fa2, rt, vpn(v, 2))]
            == 0,
        is_l0(fa2, rt, vpn(v, 2), vpn(v, 1)),
        forall|f: int, k: int|
            0 <= f < fa.num_pages() && 0 <= k < 512 && !walk_slot(fa2, rt, v, 0, f, k)
                ==> #[trigger] pte_at(fa2.memory(), f, k) == if fa.flags()[f] == 0 && fa2.flags()[f]
                != 0 {
                0u64
            } else {
                pte_at(fa.memory(), f, k)
            },
    ensures
        forall|u: u64| #[trigger] leaf_above(fa2, rt, u, 0) == leaf_above(fa, rt, u, 0),
{
    lemma_member_index(fa, rt);
    lemma_member_index(fa2, rt);
    lemma_vpn_bound(v);
    lemma_zero_invalid();
    let m = fa.memory();
    let m2 = fa2.memory();
    let k2v = vpn(v, 2);
    let k1v = vpn(v, 1);
    let t1 = l1_of(fa2, rt, k2v);
    let t0 = l0_of(fa2, rt, k2v, k1v);
    assert(t1 != rt && t0 != rt && t0 != t1);
    assert forall|u: u64| #[trigger] leaf_above(fa2, rt, u, 0) == leaf_above(fa, rt, u, 0) by {
        lemma_vpn_bound(u);
        let k2 = vpn(u, 2);
        let k1 = vpn(u, 1);
        if k2 != k2v {
            assert(!walk_slot(fa2, rt, v, 0, rt, k2));
            assert(pte_at(m2, rt, k2) == pte_at(m, rt, k2));
            if is_l1(fa, rt, k2) {
                let t = l1_of(fa, rt, k2);
                assert(l1_of(fa2, rt, k2) == t);
                assert(t != t1) by {
                    assert(l1_of(fa2, rt, k2) != l1_of(fa2, rt, k2v));
                }
                assert(t != t0) by {
                    assert(l1_of(fa2, rt, k2) != l0_of(fa2, rt, k2v, k1v));
                }
                assert(!walk_slot(fa2, rt, v, 0, t, k1));
                assert(pte_at(m2, t, k1) == pte_at(m, t, k1));
            }
        } else {
            let e = pte_at(m, rt, k2v);
            if pte_valid(e) {
                assert(l1_of(fa, rt, k2v) == t1);
                if k1 != k1v {
                    assert(!walk_slot(fa2, rt, v, 0, t1, k1));
                    assert(pte_at(m2, t1, k1) == pte_at(m, t1, k1));
                }
            } else {
                assert(!is_l1(fa, rt, k2));
                if k1 != k1v {
                    assert(!walk_slot(fa2, rt, v, 0, t1, k1));
                    assert(pte_at(m2, t1, k1) == 0);
                }
            }
        }
    }
}

/// An address translates as the start of its page does, with its offset
/// in the page added.
proof fn lemma_walk_offset(m: Seq<u64>, start: nat, num: nat, t: int, v: u64, lvl: int)
    ensures
        walk(m, start, num, t, v, lvl) == match walk(m, start, num, t, v & !0xfffu64, lvl) {
            Some(x) => Some(x | (v & 0xfff)),
            None => None,
        },
    decreases lvl,
{
    let u = v & !0xfffu64;
    assert(vpn(v, 0) == vpn(u, 0) && vpn(v, 1) == vpn(u, 1) && vpn(v, 2) == vpn(u, 2)) by {
        assert((v >> 12u64) & 0x1ff == (u >> 12u64) & 0x1ff && (v >> 21u64) & 0x1ff == (u >> 21u64)
            & 0x1ff && (v >> 30u64) & 0x1ff == (u >> 30u64) & 0x1ff) by (bit_vector)
            requires
                u == v & !0xfffu64,
        ;
    }
    if lvl >= 0 {
        let e = pte_at(m, t, vpn(v, lvl));
        assert(leaf_addr(e, v, lvl) == leaf_addr(e, u, lvl) | (v & 0xfff)) by {
            let x = e << 2u64;
            assert(((x & !0xfffu64) | (v & 0xfff)) == ((x & !0xfffu64) | (u & 0xfff)) | (v & 0xfff)
                && ((x & !0x1f_ffffu64) | (v & 0x1f_ffff)) == ((x & !0x1f_ffffu64) | (u & 0x1f_ffff))
                | (v & 0xfff) && ((x & !0x3fff_ffffu64) | (v & 0x3fff_ffff)) == ((x
                & !0x3fff_ffffu64) | (u & 0x3fff_ffff)) | (v & 0xfff)) by (bit_vector)
                requires
                    u == v & !0xfffu64,
            ;
        }
        if lvl > 0 && pte_valid(e) && !pte_leaf(e) {
            match frame_of(start, num, pte_addr(e) as int) {
                Some(t2) => lemma_walk_offset(m, start, num, t2, v, lvl - 1),
                None => {},
            }
        }
    }
}

/// Frame `f` is neither the root nor a table of the tree under it.
pub open spec fn outside_tree(fa: FrameAllocator, rt: int, f: int) -> bool {
    &&& f != rt
    &&& forall|k: int| #[trigger] is_l1(fa, rt, k) ==> l1_of(fa, rt, k) != f
    &&& forall|k: int, j: int| #[trigger] is_l0(fa, rt, k, j) ==> l0_of(fa, rt, k, j) != f
}

/// What a successful level-0 `map` of `v` from `fa` to `fa2` gives, as its
/// contract states it.
pub open spec fn mapped_page(fa: FrameAllocator, fa2: FrameAllocator, rt: int, v: u64) -> bool {
    let e = pte_at(fa.memory(), rt, vpn(v, 2));
    let e1 = pte_at(fa.memory(), l1_of(fa, rt, vpn(v, 2)), vpn(v, 1));
    &&& tree_ok(fa, rt)
    &&& tree_ok(fa2, rt)
    &&& frames_kept(fa, fa2)
    &&& !leaf_above(fa, rt, v, 0)
    &&& is_l1(fa2, rt, vpn(v, 2))
    &&& pte_valid(e) ==> pte_at(fa2.memory(), rt, vpn(v, 2)) == e
    &&& !pte_valid(e) ==> fa.flags()[l1_of(fa2, rt, vpn(v, 2))] == 0
    &&& is_l0(fa2, rt, vpn(v, 2), vpn(v, 1))
    &&& pte_valid(e) && pte_valid(e1) ==> pte_at(
        fa2.memory(),
        l1_of(fa2, rt, vpn(v, 2)),
        vpn(v, 1),
    ) == e1
    &&& !(pte_valid(e) && pte_valid(e1)) ==> fa.flags()[l0_of(fa2, rt, vpn(v, 2), vpn(v, 1))] == 0
    &&& forall|f: int, k: int|
        0 <= f < fa.num_pages() && 0 <= k < 512 && !walk_slot(fa2, rt, v, 0, f, k)
            ==> #[trigger] pte_at(fa2.memory(), f, k) == if fa.flags()[f] == 0 && fa2.flags()[f]
            != 0 {
            0u64
        } else {
            pte_at(fa.memory(), f, k)
        }
}

/// A level-0 mapping keeps every leaf above level 0 as it was, and leaves
/// an allocated frame outside the tree outside it, with its words unchanged.
pub(crate) proof fn lemma_mapped_page(fa: FrameAllocator, fa2: FrameAllocator, rt: int, v: u64, f: int)
    requires
        mapped_page(fa, fa2, rt, v),
        0 <= f < fa.num_pages(),
        fa.flags()[f] != 0,
        outside_tree(fa, rt, f),
    ensures
        forall|u: u64| #[trigger] leaf_above(fa2, rt, u, 0) == leaf_above(fa, rt, u, 0),
        outside_tree(fa2, rt, f),
        forall|k: int| 0 <= k < 512 ==> #[trigger] pte_at(fa2.memory(), f, k) == pte_at(fa.memory(), f, k),
{
    lemma_map_keeps_leaves(fa, fa2, rt, v);
    lemma_member_index(fa, rt);
    lemma_member_index(fa2, rt);
    lemma_vpn_bound(v);
    lemma_zero_invalid();
    let m = fa.memory();
    let m2 = fa2.memory();
    let k2v = vpn(v, 2);
    let k1v = vpn(v, 1);
    let t1 = l1_of(fa2, rt, k2v);
    let t0 = l0_of(fa2, rt, k2v, k1v);
    let e = pte_at(m, rt, k2v);
    assert(fa2.flags()[f] == fa.flags()[f]);
    assert forall|k: int| #[trigger] is_l1(fa2, rt, k) implies l1_of(fa2, rt, k) != f by {
        if k != k2v {
            assert(!walk_slot(fa2, rt, v, 0, rt, k));
            assert(pte_at(m2, rt, k) == pte_at(m, rt, k));
            assert(is_l1(fa, rt, k));
        } else if pte_valid(e) {
            assert(is_l1(fa, rt, k));
        }
    }
    assert forall|k: int, j: int| #[trigger] is_l0(fa2, rt, k, j) implies l0_of(fa2, rt, k, j) != f by {
        assert(is_l1(fa2, rt, k));
        let t = l1_of(fa2, rt, k);
        if k != k2v {
            assert(!walk_slot(fa2, rt, v, 0, rt, k));
            assert(pte_at(m2, rt, k) == pte_at(m, rt, k));
            assert(is_l1(fa, rt, k));
            assert(t != t1) by {
                assert(l1_of(fa2, rt, k) != l1_of(fa2, rt, k2v));
            }
            assert(t != t0) by {
                assert(l1_of(fa2, rt, k) != l0_of(fa2, rt, k2v, k1v));
            }
            assert(!walk_slot(fa2, rt, v, 0, t, j));
            assert(pte_at(m2, t, j) == pte_at(m, t, j));
            assert(is_l0(fa, rt, k, j));
        } else if j == k1v {
            let e1 = pte_at(m, l1_of(fa, rt, k2v), k1v);
            if pte_valid(e) && pte_valid(e1) {
                assert(l1_of(fa, rt, k2v) == t1);
                assert(is_l0(fa, rt, k, j));
            }
        } else {
            assert(t == t1);
            assert(t1 != t0);
            assert(!walk_slot(fa2, rt, v, 0, t1, j));
            if pte_valid(e) {
                assert(l1_of(fa, rt, k2v) == t1);
                assert(fa.flags()[t1] != 0);
                assert(pte_at(m2, t1, j) == pte_at(m, t1, j));
                assert(is_l0(fa, rt, k, j));
            } else {
                assert(pte_at(m2, t1, j) == 0);
            }
        }
    }
    assert forall|k: int| 0 <= k < 512 implies #[trigger] pte_at(fa2.memory(), f, k) == pte_at(
        fa.memory(),
        f,
        k,
    ) by {
        assert(!walk_slot(fa2, rt, v, 0, f, k));
    }
}

/// `map` at level 0, with what a caller chaining several mappings needs.
pub(crate) fn map_page(fa: &mut FrameAllocator, root: usize, vaddr: usize, paddr: usize, bits: u64) -> (r: Result<(), MapError>)
    requires
        root_ok(*old(fa), root as int),
    ensures
        root_ok(*final(fa), root as int),
        frames_kept(*old(fa), *final(fa)),
        frame_index(*final(fa), root as int) == frame_index(*old(fa), root as int),
        r is Ok ==> mapped_page(*old(fa), *final(fa), frame_index(*old(fa), root as int), vaddr as u64),
        r is Ok ==> translate(*final(fa), frame_index(*old(fa), root as int), vaddr as u64) == Some(
            leaf_addr(leaf_pte(paddr as u64, bits), vaddr as u64, 0),
        ),
        r is Ok ==> forall|u: u64|
            !same_slot(u, vaddr as u64, 0) ==> #[trigger] translate(
                *final(fa),
                frame_index(*old(fa), root as int),
                u,
            ) == translate(*old(fa), frame_index(*old(fa), root as int), u),
        r is Err ==> bits & 0xe == 0 || leaf_above(
            *old(fa),
            frame_index(*old(fa), root as int),
            vaddr as u64,
            0,
        ) || first_fit(final(fa).flags(), 1) is None,
{
    let ghost before = *fa;
    let r = map(fa, root, vaddr, paddr, bits, 0);
    proof {
        let rt = frame_index(before, root as int);
        let v = vaddr as u64;
        if r is Ok {
            lemma_first_fit(before.flags(), 1);
            if !pte_valid(pte_at(before.memory(), rt, vpn(v, 2))) {
                lemma_take_frames(before.flags());
                assert(tables_needed(before, rt, v, 0) == 2);
                assert(frames_available(before.flags(), 2));
                let f = first_fit(before.flags(), 1)->0;
                assert(run_free(before.flags(), f, 1));
            }
        }
    }
    r
}

/// Two pages fewer than 2^27 pages apart use different level-0 entries.
proof fn lemma_pages_differ(a: u64, d: u64)
    requires
        0 < d < 0x800_0000,
        a + 4096 * d <= u64::MAX,
    ensures
        !same_slot(a, (a + 4096 * d) as u64, 0),
{
    let b = (a + 4096 * d) as u64;
    assert(((a >> 12u64) & 0x1ff) != ((b >> 12u64) & 0x1ff) || ((a >> 21u64) & 0x1ff) != ((b
        >> 21u64) & 0x1ff) || ((a >> 30u64) & 0x1ff) != ((b >> 30u64) & 0x1ff)) by (bit_vector)
        requires
            b == a + 4096 * d,
            0 < d < 0x800_0000,
            a + 4096 * d <= 0xffff_ffff_ffff_ffff,
    ;
}

/// Identity-maps every 4 KiB page that meets `[start, end)`, from the page
/// holding `start` to the one holding `end - 1`, stopping at the first
/// failure.
pub fn id_map_range(fa: &mut FrameAllocator, root: usize, start: usize, end: usize, bits: u64) -> (r: Result<(), MapError>)
    requires
        root_ok(*old(fa), root as int),
        start <= end,
        end + 4095 <= usize::MAX,
    ensures
        root_ok(*final(fa), root as int),
        frames_kept(*old(fa), *final(fa)),
        ({
            let rt = frame_index(*old(fa), root as int);
            let count = (((end + 4095) / 4096) * 4096 - (start - start % 4096)) / 4096;
            let last = range_page(start as int, count - 1);
            &&& (bits & 0xe == 0 && count > 0) == (r matches Err(MapError::NoPermission))
            &&& r matches Err(MapError::LeafInPath) ==> exists|i: int|
                0 <= i < count && #[trigger] leaf_above(*old(fa), rt, range_page(start as int, i), 0)
            &&& r matches Err(MapError::OutOfMemory) ==> first_fit(final(fa).flags(), 1) is None
            &&& bits & 0xe != 0 && (forall|i: int|
                0 <= i < count ==> !#[trigger] leaf_above(
                    *old(fa),
                    rt,
                    range_page(start as int, i),
                    0,
                )) && frames_available(old(fa).flags(), (2 * count) as nat) ==> r is Ok
            &&& r is Ok && count > 0 ==> translate(*final(fa), rt, last) == Some(
                leaf_addr(leaf_pte(last, bits), last, 0),
            )
            &&& r is Ok && count <= 0x800_0000 ==> forall|i: int|
                0 <= i < count ==> #[trigger] translate(*final(fa), rt, range_page(start as int, i))
                    == Some(
                    leaf_addr(
                        leaf_pte(range_page(start as int, i), bits),
                        range_page(start as int, i),
                        0,
                    ),
                )
            &&& r is Ok && count <= 0x800_0000 ==> forall|v: u64|
                start <= v < end ==> #[trigger] translate(*final(fa), rt, v) == Some(
                    leaf_addr(leaf_pte(v & !0xfffu64, bits), v & !0xfffu64, 0) | (v & 0xfff),
                )
            &&& r is Ok && count <= 0x800_0000 && end <= 0x100_0000_0000_0000 && bits < 0x400
                ==> forall|v: u64| start <= v < end ==> #[trigger] translate(*final(fa), rt, v) == Some(v)
        }),
{
    let ghost fa0 = *fa;
    let ghost rt = frame_index(fa0, root as int);
    assert(1usize << 12usize == 4096) by (bit_vector);
    let mut memaddr = start & !(PAGE_SIZE - 1);
    assert(PAGE_SIZE - 1 == 4095usize);
    let top = align_val(end, 12);
    assert(memaddr == start - start % 4096 && top == ((end + 4095) / 4096) * 4096) by (bit_vector)
        requires
            memaddr == start & !4095usize,
            top & (((1usize << 12usize) - 1) as usize) == 0,
            end <= top,
            top < end + (1usize << 12usize),
    ;
    let base = memaddr;
    let num_kb_pages = (top - base) / PAGE_SIZE;
    let mut i: usize = 0;
    let ghost mut used: nat = 0;
    proof {
        lemma_take_frames(fa0.flags());
    }
    while i < num_kb_pages
        invariant
            root_ok(*fa, root as int),
            frames_kept(fa0, *fa),
            fa0 == *old(fa),
            rt == frame_index(fa0, root as int),
            frame_index(*fa, root as int) == rt,
            i <= num_kb_pages,
            base == start - start % 4096,
            num_kb_pages == (top - base) / 4096,
            top == ((end + 4095) / 4096) * 4096,
            start <= end,
            top <= usize::MAX,
            memaddr == base + 4096 * i,
            i > 0 ==> bits & 0xe != 0,
            i > 0 ==> translate(*fa, rt, (memaddr - 4096) as u64) == Some(
                leaf_addr(leaf_pte((memaddr - 4096) as u64, bits), (memaddr - 4096) as u64, 0),
            ),
            forall|u: u64| #[trigger] leaf_above(*fa, rt, u, 0) == leaf_above(fa0, rt, u, 0),
            fa.flags() == take_frames(fa0.flags(), used),
            used <= 2 * i,
            num_kb_pages <= 0x800_0000 ==> forall|j: int|
                0 <= j < i ==> #[trigger] translate(*fa, rt, range_page(start as int, j)) == Some(
                    leaf_addr(leaf_pte(range_page(start as int, j), bits), range_page(start as int, j), 0),
                ),
        decreases num_kb_pages - i,
    {
        let ghost before = *fa;
        proof {
            assert(range_page(start as int, i as int) == memaddr as u64);
        }
        match map(fa, root, memaddr, memaddr, bits, 0) {
            Ok(()) => {},
            Err(err) => {
                proof {
                    lemma_kept_trans(fa0, before, *fa);
                    if err == MapError::LeafInPath {
                        assert(leaf_above(before, rt, memaddr as u64, 0));
                        assert(leaf_above(fa0, rt, range_page(start as int, i as int), 0));
                    }
                    if err == MapError::OutOfMemory && (forall|i: int|
                        0 <= i < num_kb_pages ==> !#[trigger] leaf_above(
                            fa0,
                            rt,
                            range_page(start as int, i),
                            0,
                        )) && frames_available(fa0.flags(), (2 * num_kb_pages) as nat) {
                        let needed = tables_needed(before, rt, memaddr as u64, 0);
                        assert(!leaf_above(fa0, rt, range_page(start as int, i as int), 0));
                        assert(needed <= 2);
                        lemma_frames_available_fewer(
                            fa0.flags(),
                            (2 * num_kb_pages) as nat,
                            used + needed,
                        );
                        lemma_frames_available_split(fa0.flags(), used, needed);
                        assert(false);
                    }
                }
                return Err(err);
            },
        }
        proof {
            let after = *fa;
            lemma_kept_trans(fa0, before, after);
            let v = memaddr as u64;
            lemma_first_fit(before.flags(), 1);
            assert(!leaf_above(before, rt, v, 0));
            if !pte_valid(pte_at(before.memory(), rt, vpn(v, 2))) {
                lemma_take_frames(before.flags());
                assert(tables_needed(before, rt, v, 0) == 2);
                assert(frames_available(before.flags(), 2));
                let f = first_fit(before.flags(), 1)->0;
                assert(run_free(before.flags(), f, 1));
                assert(before.flags()[f] == 0);
            }
            lemma_map_keeps_leaves(before, after, rt, v);
            let needed = tables_needed(before, rt, v, 0);
            assert(needed <= 2);
            lemma_take_frames_add(fa0.flags(), used, needed);
            if num_kb_pages <= 0x800_0000 {
                assert forall|j: int| 0 <= j < i + 1 implies #[trigger] translate(
                    after,
                    rt,
                    range_page(start as int, j),
                ) == Some(
                    leaf_addr(leaf_pte(range_page(start as int, j), bits), range_page(start as int, j), 0),
                ) by {
                    let page = range_page(start as int, j);
                    if j < i {
                        lemma_pages_differ(page, (i - j) as u64);
                        assert((page + 4096 * ((i - j) as u64)) as u64 == memaddr as u64);
                        assert(!same_slot(page, memaddr as u64, 0));
                    }
                }
            }
            assert(memaddr + 4096 <= top) by (nonlinear_arith)
                requires
                    i < num_kb_pages,
                    num_kb_pages == (top - base) / 4096,
                    memaddr == base + 4096 * i,
            ;
        }
        memaddr += PAGE_SIZE;
        i += 1;
        proof {
            used = used + tables_needed(before, rt, (memaddr - 4096) as u64, 0);
        }
    }
    proof {
        if num_kb_pages <= 0x800_0000 {
            assert forall|v: u64| start <= v < end implies #[trigger] translate(*fa, rt, v) == Some(
                leaf_addr(leaf_pte(v & !0xfffu64, bits), v & !0xfffu64, 0) | (v & 0xfff),
            ) by {
                let u = v & !0xfffu64;
                assert(u == v - v % 4096) by (bit_vector)
                    requires
                        u == v & !0xfffu64,
                ;
                let j = (v - base) / 4096;
                assert(base + 4096 * j == v - v % 4096 && 0 <= j < num_kb_pages) by (nonlinear_arith)
                    requires
                        base % 4096 == 0,
                        base <= start,
                        start <= v,
                        v < end,
                        end <= top,
                        top % 4096 == 0,
                        num_kb_pages == (top - base) / 4096,
                        j == (v - base) / 4096,
                ;
                assert(range_page(start as int, j) == u);
                assert(translate(*fa, rt, range_page(start as int, j)) == Some(
                    leaf_addr(leaf_pte(range_page(start as int, j), bits), range_page(start as int, j), 0),
                ));
                lemma_walk_offset(fa.memory(), fa.start(), fa.num_pages(), rt, v, 2);
            }
            if end <= 0x100_0000_0000_0000 && bits < 0x400 {
                assert forall|v: u64| start <= v < end implies #[trigger] translate(*fa, rt, v) == Some(
                    v,
                ) by {
                    let u = v & !0xfffu64;
                    assert(u <= v) by (bit_vector)
                        requires
                            u == v & !0xfffu64,
                    ;
                    lemma_leaf_addr_page(u, u, bits);
                    assert(((u & !0xfffu64) | (u & 0xfff)) | (v & 0xfff) == v) by (bit_vector)
                        requires
                            u == v & !0xfffu64,
                    ;
                }
            }
        }
    }
    Ok(())
}

/// An allocated root whose entries hold no branch has a well-formed, empty
/// tree.
proof fn lemma_fresh_root_like(fa: FrameAllocator, rt: int)
    requires
        fa.wf(),
        fa.taken(rt),
        forall|k: int| 0 <= k < 512 ==> !pte_branch(#[trigger] pte_at(fa.memory(), rt, k)),
    ensures
        tree_ok(fa, rt),
{
}

/// A zero-filled allocated frame is a root table with an empty tree.
pub proof fn lemma_fresh_root(fa: FrameAllocator, root: int)
    requires
        fa.wf(),
        fa.start() <= root,
        (root - fa.start()) % 4096 == 0,
        fa.taken(frame_index(fa, root)),
        forall|k: int| 0 <= k < 512 ==> #[trigger] pte_at(fa.memory(), frame_index(fa, root), k) == 0,
    ensures
        root_ok(fa, root),
{
    lemma_zero_invalid();
    let rt = frame_index(fa, root);
    assert forall|k: int| 0 <= k < 512 implies !pte_branch(#[trigger] pte_at(fa.memory(), rt, k)) by {
        assert(pte_at(fa.memory(), rt, k) == 0);
    }
}

} // verus!
