//! Byte-granular kernel heap: a first-fit list of blocks laid out back to
//! back over frames reserved once from the frame allocator. Each block starts
//! with a one-word header: the top bit marks it taken, the rest is its size in
//! bytes, header included.
use vstd::prelude::*;
use crate::mmu::root_ok;
use crate::page::{
    align_val, first_fit, frame_addr, take_run, zalloc, zero_frames, FrameAllocator, PAGE_WORDS,
};

verus! {

/// Top bit of a block header: the block is taken.
pub const TAKEN_BIT: u64 = 0x8000_0000_0000_0000;

/// Bytes in one block header.
pub const HEADER_SIZE: usize = 8;

/// Frames the heap reserves at start-up.
pub const HEAP_PAGES: usize = 64;

pub enum AllocListFlags {
    Taken,
}

impl AllocListFlags {
    pub fn val(self) -> (r: u64)
        ensures
            r == TAKEN_BIT,
    {
        match self {
            AllocListFlags::Taken => TAKEN_BIT,
        }
    }
}

/// Size in bytes recorded in a header word.
pub open spec fn hdr_size(h: u64) -> nat {
    (h % 0x8000_0000_0000_0000) as nat
}

/// Taken flag recorded in a header word.
pub open spec fn hdr_taken(h: u64) -> bool {
    h >= 0x8000_0000_0000_0000
}

/// A block header.
#[derive(Clone, Copy)]
pub struct AllocList {
    pub flags_and_size: u64,
}

impl AllocList {
    pub fn is_taken(&self) -> (r: bool)
        ensures
            r == hdr_taken(self.flags_and_size),
    {
        let h = self.flags_and_size;
        assert((h & 0x8000_0000_0000_0000u64 != 0) == (h >= 0x8000_0000_0000_0000u64))
            by (bit_vector);
        h & AllocListFlags::Taken.val() != 0
    }

    pub fn is_free(&self) -> (r: bool)
        ensures
            r == !hdr_taken(self.flags_and_size),
    {
        !self.is_taken()
    }

    pub fn set_taken(&mut self)
        ensures
            hdr_taken(final(self).flags_and_size),
            hdr_size(final(self).flags_and_size) == hdr_size(old(self).flags_and_size),
    {
        let h = self.flags_and_size;
        let r = h | AllocListFlags::Taken.val();
        assert(r >= 0x8000_0000_0000_0000u64 && r % 0x8000_0000_0000_0000u64 == h
            % 0x8000_0000_0000_0000u64) by (bit_vector)
            requires
                r == h | 0x8000_0000_0000_0000u64,
        ;
        self.flags_and_size = r;
    }

    pub fn set_free(&mut self)
        ensures
            !hdr_taken(final(self).flags_and_size),
            hdr_size(final(self).flags_and_size) == hdr_size(old(self).flags_and_size),
    {
        let h = self.flags_and_size;
        let r = h & !AllocListFlags::Taken.val();
        assert(r < 0x8000_0000_0000_0000u64 && r % 0x8000_0000_0000_0000u64 == h
            % 0x8000_0000_0000_0000u64) by (bit_vector)
            requires
                r == h & !0x8000_0000_0000_0000u64,
        ;
        self.flags_and_size = r;
    }

    /// Records `sz` (without its top bit) and keeps the taken flag.
    pub fn set_size(&mut self, sz: u64)
        ensures
            hdr_size(final(self).flags_and_size) == sz % 0x8000_0000_0000_0000,
            hdr_taken(final(self).flags_and_size) == hdr_taken(old(self).flags_and_size),
    {
        let k = self.is_taken();
        let r = sz & !AllocListFlags::Taken.val();
        assert(r < 0x8000_0000_0000_0000u64 && r == sz % 0x8000_0000_0000_0000u64)
            by (bit_vector)
            requires
                r == sz & !0x8000_0000_0000_0000u64,
        ;
        self.flags_and_size = r;
        if k {
            self.set_taken();
        }
    }

    pub fn get_size(&self) -> (r: u64)
        ensures
            r == hdr_size(self.flags_and_size),
    {
        let h = self.flags_and_size;
        let r = h & !AllocListFlags::Taken.val();
        assert(r == h % 0x8000_0000_0000_0000u64) by (bit_vector)
            requires
                r == h & !0x8000_0000_0000_0000u64,
        ;
        r
    }
}

/// One block of the heap as the allocator sees it.
pub struct HeapBlock {
    pub size: nat,
    pub taken: bool,
}

pub open spec fn hdr_block(h: u64) -> HeapBlock {
    HeapBlock { size: hdr_size(h), taken: hdr_taken(h) }
}

pub open spec fn size_ok(sz: nat) -> bool {
    sz >= 8 && sz % 8 == 0
}

/// Starting from the header at word `i`, the blocks tile words `[i, end)`
/// exactly.
pub open spec fn chain(w: Seq<u64>, i: int, end: int) -> bool
    decreases end - i
    via chain_decreases
{
    if i == end {
        true
    } else if 0 <= i < end && end <= w.len() && size_ok(hdr_size(w[i])) && i + hdr_size(w[i]) / 8
        <= end {
        chain(w, i + hdr_size(w[i]) / 8, end)
    } else {
        false
    }
}

/// The blocks met walking headers from word `i` up to `end`.
pub open spec fn blocks(w: Seq<u64>, i: int, end: int) -> Seq<HeapBlock>
    decreases end - i
    via blocks_decreases
{
    if 0 <= i < end && end <= w.len() && size_ok(hdr_size(w[i])) && i + hdr_size(w[i]) / 8
        <= end {
        seq![hdr_block(w[i])] + blocks(w, i + hdr_size(w[i]) / 8, end)
    } else {
        Seq::empty()
    }
}

proof fn lemma_step(sz: nat)
    requires
        size_ok(sz),
    ensures
        sz / 8 >= 1,
        (sz / 8) * 8 == sz,
{
}

#[via_fn]
proof fn chain_decreases(w: Seq<u64>, i: int, end: int) {
    if 0 <= i < end && end <= w.len() && size_ok(hdr_size(w[i])) && i + hdr_size(w[i]) / 8 <= end {
        lemma_step(hdr_size(w[i]));
    }
}

#[via_fn]
proof fn blocks_decreases(w: Seq<u64>, i: int, end: int) {
    if 0 <= i < end && end <= w.len() && size_ok(hdr_size(w[i])) && i + hdr_size(w[i]) / 8 <= end {
        lemma_step(hdr_size(w[i]));
    }
}

/// Total bytes of a block list.
pub open spec fn total_size(bs: Seq<HeapBlock>) -> nat
    decreases bs.len(),
{
    if bs.len() == 0 {
        0
    } else {
        bs[0].size + total_size(bs.skip(1))
    }
}

/// Byte offset of block `k` from the start of the heap.
pub open spec fn block_offset(bs: Seq<HeapBlock>, k: int) -> nat {
    total_size(bs.take(k))
}

/// Bytes a request of `sz` takes: rounded up to 8, plus a header.
pub open spec fn request_size(sz: nat) -> nat {
    ((sz + 7) / 8) * 8 + 8
}

pub open spec fn fits(b: HeapBlock, req: nat) -> bool {
    !b.taken && req < b.size
}

/// The first block from `k` on that is free and larger than `req`.
pub open spec fn first_block_from(bs: Seq<HeapBlock>, req: nat, k: int) -> Option<int>
    decreases bs.len() - k,
{
    if k < 0 || k >= bs.len() {
        None
    } else if fits(bs[k], req) {
        Some(k)
    } else {
        first_block_from(bs, req, k + 1)
    }
}

pub open spec fn first_block(bs: Seq<HeapBlock>, req: nat) -> Option<int> {
    first_block_from(bs, req, 0)
}

/// Block `k` taken for a request of `req` bytes: split when the rest is
/// larger than a header, else taken whole.
pub open spec fn carve(bs: Seq<HeapBlock>, k: int, req: nat) -> Seq<HeapBlock> {
    if bs[k].size - req > 8 {
        bs.take(k) + seq![
            HeapBlock { size: req, taken: true },
            HeapBlock { size: (bs[k].size - req) as nat, taken: false },
        ] + bs.skip(k + 1)
    } else {
        bs.update(k, HeapBlock { size: bs[k].size, taken: true })
    }
}

/// One left-to-right coalescing pass: a free block absorbs its free right
/// neighbour, and the scan resumes after the merged block.
pub open spec fn merge_pass(bs: Seq<HeapBlock>) -> Seq<HeapBlock>
    decreases bs.len(),
{
    if bs.len() < 2 {
        bs
    } else if !bs[0].taken && !bs[1].taken {
        seq![HeapBlock { size: bs[0].size + bs[1].size, taken: false }] + merge_pass(bs.skip(2))
    } else {
        seq![bs[0]] + merge_pass(bs.skip(1))
    }
}

/// The block from `k` on that starts at byte offset `off`.
pub open spec fn block_index_from(bs: Seq<HeapBlock>, off: int, k: int) -> Option<int>
    decreases bs.len() - k,
{
    if k < 0 || k >= bs.len() {
        None
    } else if block_offset(bs, k) == off {
        Some(k)
    } else if block_offset(bs, k) > off {
        None
    } else {
        block_index_from(bs, off, k + 1)
    }
}

pub open spec fn block_index(bs: Seq<HeapBlock>, off: int) -> Option<int> {
    block_index_from(bs, off, 0)
}

/// Block `k` marked free.
pub open spec fn release(bs: Seq<HeapBlock>, k: int) -> Seq<HeapBlock> {
    bs.update(k, HeapBlock { size: bs[k].size, taken: false })
}

proof fn lemma_chain_split(w: Seq<u64>, a: int, m: int, b: int)
    requires
        chain(w, a, m),
        chain(w, m, b),
    ensures
        chain(w, a, b),
        blocks(w, a, b) == blocks(w, a, m) + blocks(w, m, b),
    decreases m - a,
{
    if a != m {
        let nx = a + hdr_size(w[a]) / 8;
        lemma_step(hdr_size(w[a]));
        lemma_chain_split(w, nx, m, b);
        assert(blocks(w, a, b) =~= blocks(w, a, m) + blocks(w, m, b));
    } else {
        assert(blocks(w, a, b) =~= blocks(w, a, m) + blocks(w, m, b));
    }
}

proof fn lemma_chain_bounds(w: Seq<u64>, a: int, b: int)
    requires
        chain(w, a, b),
    ensures
        a <= b,
        a < b ==> 0 <= a && b <= w.len(),
    decreases b - a,
{
    if a != b {
        lemma_step(hdr_size(w[a]));
        lemma_chain_bounds(w, a + hdr_size(w[a]) / 8, b);
    }
}

proof fn lemma_chain_sizes(w: Seq<u64>, a: int, b: int)
    requires
        chain(w, a, b),
    ensures
        total_size(blocks(w, a, b)) == 8 * (b - a),
        forall|k: int|
            0 <= k < blocks(w, a, b).len() ==> size_ok(#[trigger] blocks(w, a, b)[k].size)
                && blocks(w, a, b)[k].size <= 8 * (b - a),
    decreases b - a,
{
    if a != b {
        let nx = a + hdr_size(w[a]) / 8;
        lemma_step(hdr_size(w[a]));
        lemma_chain_sizes(w, nx, b);
        let bs = blocks(w, a, b);
        assert(bs.skip(1) =~= blocks(w, nx, b));
        assert forall|k: int| 0 <= k < bs.len() implies size_ok(#[trigger] bs[k].size) && bs[k].size
            <= 8 * (b - a) by {
            if k > 0 {
                assert(bs[k] == blocks(w, nx, b)[k - 1]);
            }
        }
    }
}

proof fn lemma_chain_frame(w1: Seq<u64>, w2: Seq<u64>, a: int, b: int)
    requires
        chain(w1, a, b),
        b <= w2.len(),
        forall|j: int| a <= j < b ==> w1[j] == w2[j],
    ensures
        chain(w2, a, b),
        blocks(w2, a, b) == blocks(w1, a, b),
    decreases b - a,
{
    if a != b {
        lemma_chain_bounds(w1, a, b);
        let nx = a + hdr_size(w1[a]) / 8;
        lemma_step(hdr_size(w1[a]));
        lemma_chain_bounds(w1, nx, b);
        lemma_chain_frame(w1, w2, nx, b);
    }
}

proof fn lemma_total_take(bs: Seq<HeapBlock>, k: int)
    requires
        0 <= k < bs.len(),
    ensures
        total_size(bs.take(k + 1)) == total_size(bs.take(k)) + bs[k].size,
    decreases k,
{
    if k > 0 {
        lemma_total_take(bs.skip(1), k - 1);
        assert(bs.take(k + 1).skip(1) =~= bs.skip(1).take(k));
        assert(bs.take(k).skip(1) =~= bs.skip(1).take(k - 1));
        assert(total_size(bs.take(k + 1)) == bs[0].size + total_size(bs.take(k + 1).skip(1)));
        assert(total_size(bs.take(k)) == bs[0].size + total_size(bs.take(k).skip(1)));
    } else {
        assert(total_size(bs.take(1)) == bs[0].size + total_size(bs.take(1).skip(1)));
        assert(bs.take(0) =~= Seq::<HeapBlock>::empty());
        assert(bs.take(1).skip(1) =~= Seq::<HeapBlock>::empty());
    }
}

proof fn lemma_no_fit(bs: Seq<HeapBlock>, req: nat, k: int)
    requires
        0 <= k,
        forall|j: int| k <= j < bs.len() ==> !fits(#[trigger] bs[j], req),
    ensures
        first_block_from(bs, req, k) is None,
    decreases bs.len() - k,
{
    if k < bs.len() {
        lemma_no_fit(bs, req, k + 1);
    }
}

proof fn lemma_merge_two(b0: HeapBlock, b1: HeapBlock, rest: Seq<HeapBlock>)
    requires
        !b0.taken,
        !b1.taken,
    ensures
        merge_pass(seq![b0, b1] + rest) == seq![
            HeapBlock { size: b0.size + b1.size, taken: false },
        ] + merge_pass(rest),
{
    let s = seq![b0, b1] + rest;
    assert(s.skip(2) =~= rest);
}

proof fn lemma_merge_one(b0: HeapBlock, rest: Seq<HeapBlock>)
    requires
        rest.len() == 0 || b0.taken || rest[0].taken,
    ensures
        merge_pass(seq![b0] + rest) == seq![b0] + merge_pass(rest),
{
    let s = seq![b0] + rest;
    assert(s.skip(1) =~= rest);
    if rest.len() == 0 {
        assert(merge_pass(rest) =~= rest);
        assert(s =~= seq![b0] + merge_pass(rest));
    }
}


proof fn lemma_one_block(w: Seq<u64>, i: int, nx: int)
    requires
        0 <= i < nx <= w.len(),
        size_ok(hdr_size(w[i])),
        nx == i + hdr_size(w[i]) / 8,
    ensures
        chain(w, i, nx),
        blocks(w, i, nx) == seq![hdr_block(w[i])],
{
    assert(chain(w, nx, nx));
    assert(blocks(w, nx, nx) =~= Seq::<HeapBlock>::empty());
    assert(blocks(w, i, nx) =~= seq![hdr_block(w[i])]);
}

/// Rewriting the words of the block at `[i, nx)` keeps the tiling when the
/// new words tile that span.
proof fn lemma_rewrite_block(w: Seq<u64>, w2: Seq<u64>, i: int, nx: int, end: int)
    requires
        chain(w, 0, i),
        chain(w, nx, end),
        end == w.len(),
        w2.len() == w.len(),
        i <= nx,
        forall|j: int| 0 <= j < i ==> w2[j] == w[j],
        forall|j: int| nx <= j < end ==> w2[j] == w[j],
        chain(w2, i, nx),
    ensures
        chain(w2, 0, i),
        chain(w2, i, end),
        chain(w2, nx, end),
        chain(w2, 0, end),
        blocks(w2, 0, end) == blocks(w, 0, i) + blocks(w2, i, nx) + blocks(w, nx, end),
        blocks(w2, i, end) == blocks(w2, i, nx) + blocks(w, nx, end),
        blocks(w2, 0, i) == blocks(w, 0, i),
        blocks(w2, nx, end) == blocks(w, nx, end),
{
    lemma_chain_frame(w, w2, 0, i);
    lemma_chain_frame(w, w2, nx, end);
    lemma_chain_split(w2, i, nx, end);
    lemma_chain_split(w2, 0, i, end);
    assert(blocks(w2, 0, end) =~= blocks(w, 0, i) + blocks(w2, i, nx) + blocks(w, nx, end));
}

/// The kernel heap: its frames' address, and their words holding block
/// headers and payloads.
pub struct KernelHeap {
    head: usize,
    num_pages: usize,
    page_table: usize,
    words: Vec<u64>,
}

impl KernelHeap {
    pub closed spec fn contents(&self) -> Seq<u64> {
        self.words@
    }

    /// Address of the first block header.
    pub closed spec fn head_addr(&self) -> nat {
        self.head as nat
    }

    /// Frames the heap spans.
    pub closed spec fn pages(&self) -> nat {
        self.num_pages as nat
    }

    /// Address of the kernel's root page table, reserved next to the heap.
    pub closed spec fn table_addr(&self) -> nat {
        self.page_table as nat
    }

    /// Bytes the heap spans.
    pub open spec fn total(&self) -> nat {
        self.contents().len() * 8
    }

    /// The blocks from the head to the tail.
    pub open spec fn blocks(&self) -> Seq<HeapBlock> {
        blocks(self.contents(), 0, self.contents().len() as int)
    }

    pub open spec fn wf(&self) -> bool {
        &&& chain(self.contents(), 0, self.contents().len() as int)
        &&& self.contents().len() == self.pages() * 512
        &&& self.head_addr() + self.total() <= usize::MAX
        &&& self.total() < 0x8000_0000_0000_0000
        &&& self.head_addr() % 4096 == 0
    }

    fn header(&self, i: usize) -> (r: AllocList)
        requires
            i < self.contents().len(),
        ensures
            r.flags_and_size == self.contents()[i as int],
    {
        AllocList { flags_and_size: self.words[i] }
    }

    fn set_header(&mut self, i: usize, h: AllocList)
        requires
            i < old(self).contents().len(),
        ensures
            final(self).contents() == old(self).contents().update(i as int, h.flags_and_size),
            final(self).head_addr() == old(self).head_addr(),
            final(self).pages() == old(self).pages(),
            final(self).table_addr() == old(self).table_addr(),
    {
        self.words.set(i, h.flags_and_size);
    }

    /// Takes the free block whose header is at word `i` for `req` bytes.
    #[verifier::rlimit(80)]
    fn carve_at(&mut self, i: usize, req: usize)
        requires
            old(self).wf(),
            size_ok(req as nat),
            i < old(self).contents().len(),
            chain(old(self).contents(), 0, i as int),
            chain(old(self).contents(), i as int, old(self).contents().len() as int),
            !hdr_taken(old(self).contents()[i as int]),
            req < hdr_size(old(self).contents()[i as int]),
        ensures
            final(self).wf(),
            final(self).head_addr() == old(self).head_addr(),
            final(self).pages() == old(self).pages(),
            final(self).table_addr() == old(self).table_addr(),
            final(self).contents().len() == old(self).contents().len(),
            ({
                let w = old(self).contents();
                let b = hdr_size(w[i as int]);
                let nx = i + b / 8;
                let mid = if b - req > 8 {
                    seq![
                        HeapBlock { size: req as nat, taken: true },
                        HeapBlock { size: (b - req) as nat, taken: false },
                    ]
                } else {
                    seq![HeapBlock { size: b, taken: true }]
                };
                final(self).blocks() == blocks(w, 0, i as int) + mid + blocks(w, nx, w.len() as int)
            }),
            chain(final(self).contents(), 0, i as int),
            chain(final(self).contents(), i as int, final(self).contents().len() as int),
            hdr_size(final(self).contents()[i as int]) >= req,
            chain(
                final(self).contents(),
                i + hdr_size(final(self).contents()[i as int]) / 8,
                final(self).contents().len() as int,
            ),
    {
        let ghost w = self.contents();
        let ghost end = w.len() as int;
        let h = self.header(i);
        let bsz = h.get_size();
        proof {
            lemma_chain_sizes(w, i as int, end);
            assert(blocks(w, i as int, end)[0] == hdr_block(w[i as int]));
            lemma_step(bsz as nat);
            lemma_step(req as nat);
        }
        let ghost nx = i + bsz / 8;
        proof {
            lemma_chain_bounds(w, nx, end);
        }
        let rem = bsz - req as u64;
        let mut hd = h;
        hd.set_taken();
        if rem > HEADER_SIZE as u64 {
            let j: usize = i + req / 8;
            let mut nh = self.header(j);
            nh.set_free();
            nh.set_size(rem);
            self.set_header(j, nh);
            hd.set_size(req as u64);
            self.set_header(i, hd);
            proof {
                let w2 = self.contents();
                lemma_step(rem as nat);
                lemma_one_block(w2, j as int, nx);
                lemma_one_block(w2, i as int, j as int);
                lemma_chain_split(w2, i as int, j as int, nx);
                assert(blocks(w2, i as int, nx) =~= seq![
                    HeapBlock { size: req as nat, taken: true },
                    HeapBlock { size: rem as nat, taken: false },
                ]);
                lemma_rewrite_block(w, w2, i as int, nx, end);
            }
        } else {
            hd.set_size(bsz);
            self.set_header(i, hd);
            proof {
                let w2 = self.contents();
                lemma_one_block(w2, i as int, nx);
                lemma_rewrite_block(w, w2, i as int, nx, end);
            }
        }
    }

    /// First fit for `req` bytes; marks the block taken, splitting it when
    /// the rest exceeds a header, and returns the word index of its header.
    fn take_block(&mut self, req: usize) -> (r: Option<usize>)
        requires
            old(self).wf(),
            size_ok(req as nat),
        ensures
            final(self).wf(),
            final(self).head_addr() == old(self).head_addr(),
            final(self).pages() == old(self).pages(),
            final(self).table_addr() == old(self).table_addr(),
            final(self).contents().len() == old(self).contents().len(),
            (match first_block(old(self).blocks(), req as nat) {
                Some(k) => r is Some && 8 * r->0 == block_offset(old(self).blocks(), k)
                    && final(self).blocks() == carve(old(self).blocks(), k, req as nat),
                None => r is None && final(self).contents() == old(self).contents(),
            }),
            r matches Some(i) ==> {
                &&& i < final(self).contents().len()
                &&& chain(final(self).contents(), 0, i as int)
                &&& chain(final(self).contents(), i as int, final(self).contents().len() as int)
                &&& hdr_size(final(self).contents()[i as int]) >= req
                &&& chain(
                    final(self).contents(),
                    i + hdr_size(final(self).contents()[i as int]) / 8,
                    final(self).contents().len() as int,
                )
            },
    {
        let ghost w = self.contents();
        let ghost bs = self.blocks();
        let end = self.words.len();
        let mut i: usize = 0;
        let ghost mut k: int = 0;
        proof {
            assert(blocks(w, 0, 0) =~= Seq::<HeapBlock>::empty());
        }
        while i < end
            invariant
                self.contents() == w,
                *self == *old(self),
                old(self).wf(),
                bs == old(self).blocks(),
                end == w.len(),
                size_ok(req as nat),
                i <= end,
                chain(w, 0, i as int),
                chain(w, i as int, end as int),
                bs == blocks(w, 0, i as int) + blocks(w, i as int, end as int),
                k == blocks(w, 0, i as int).len(),
                8 * i == total_size(blocks(w, 0, i as int)),
                first_block(bs, req as nat) == first_block_from(bs, req as nat, k),
            decreases end - i,
        {
            let h = self.header(i);
            let bsz = h.get_size();
            proof {
                lemma_chain_sizes(w, i as int, end as int);
                lemma_step(hdr_size(w[i as int]));
                lemma_chain_bounds(w, i + bsz / 8, end as int);
            }
            let nx: usize = i + (bsz / 8) as usize;
            let ghost rest = blocks(w, nx as int, end as int);
            proof {
                lemma_one_block(w, i as int, nx as int);
                lemma_chain_split(w, 0, i as int, nx as int);
                lemma_chain_sizes(w, 0, nx as int);
                assert(bs == blocks(w, 0, i as int) + seq![hdr_block(w[i as int])] + rest);
                assert(bs[k] == hdr_block(w[i as int]));
                assert(bs.take(k) =~= blocks(w, 0, i as int));
            }
            if h.is_free() && (req as u64) < bsz {
                self.carve_at(i, req);
                proof {
                    assert(bs.skip(k + 1) =~= rest);
                    assert(self.blocks() =~= carve(bs, k, req as nat));
                }
                return Some(i);
            }
            i = nx;
            proof {
                k = k + 1;
            }
        }
        proof {
            assert(blocks(w, end as int, end as int) =~= Seq::<HeapBlock>::empty());
        }
        None
    }
}


/// Reserves the heap's frames and the kernel root table from `fa`, and
/// formats the heap as one free block spanning all of it.
pub fn init(fa: &mut FrameAllocator) -> (r: Option<KernelHeap>)
    requires
        old(fa).wf(),
    ensures
        final(fa).wf(),
        final(fa).start() == old(fa).start(),
        final(fa).num_pages() == old(fa).num_pages(),
        r is Some <==> (first_fit(old(fa).flags(), 64) matches Some(i) && first_fit(
            take_run(old(fa).flags(), i, 64),
            1,
        ) is Some),
        r matches Some(h) ==> {
            &&& h.wf()
            &&& h.pages() == 64
            &&& h.head_addr() == frame_addr(old(fa).start() as int, first_fit(old(fa).flags(), 64)->0)
            &&& h.table_addr() == frame_addr(
                old(fa).start() as int,
                first_fit(take_run(old(fa).flags(), first_fit(old(fa).flags(), 64)->0, 64), 1)->0,
            )
            &&& h.blocks() == seq![HeapBlock { size: 64 * 4096, taken: false }]
            &&& root_ok(*final(fa), h.table_addr() as int)
        },
        r matches Some(h) ==> ({
            let i = first_fit(old(fa).flags(), 64)->0;
            let s1 = take_run(old(fa).flags(), i, 64);
            let j = first_fit(s1, 1)->0;
            &&& final(fa).flags() == take_run(s1, j, 1)
            &&& final(fa).memory() == zero_frames(zero_frames(old(fa).memory(), i, 64), j, 1)
        }),
        r is None ==> forall|f: int|
            0 <= f < old(fa).num_pages() && old(fa).flags()[f] != 0 ==> #[trigger] final(fa).flags()[f]
                == old(fa).flags()[f],
{
    proof {
        crate::page::lemma_first_fit(fa.flags(), 64);
    }
    let k_alloc = match zalloc(fa, HEAP_PAGES) {
        Some(a) => a,
        None => return None,
    };
    proof {
        crate::page::lemma_first_fit(fa.flags(), 1);
    }
    let ghost before_table = *fa;
    let table = match zalloc(fa, 1) {
        Some(a) => a,
        None => return None,
    };
    proof {
        let j = first_fit(before_table.flags(), 1)->0;
        assert(crate::mmu::frame_index(*fa, table as int) == j);
        assert forall|k: int| 0 <= k < 512 implies #[trigger] crate::mmu::pte_at(
            fa.memory(),
            j,
            k,
        ) == 0 by {}
        crate::mmu::lemma_fresh_root(*fa, table as int);
    }
    let n = HEAP_PAGES * PAGE_WORDS;
    let mut words: Vec<u64> = Vec::new();
    let mut w: usize = 0;
    while w < n
        invariant
            w <= n,
            n == 64 * 512,
            words@.len() == w,
        decreases n - w,
    {
        words.push(0);
        w += 1;
    }
    let mut hd = AllocList { flags_and_size: words[0] };
    hd.set_free();
    hd.set_size((HEAP_PAGES * 4096) as u64);
    words.set(0, hd.flags_and_size);
    let heap = KernelHeap { head: k_alloc, num_pages: HEAP_PAGES, page_table: table, words };
    proof {
        let c = heap.words@;
        assert(chain(c, 32768int, 32768int));
        assert(blocks(c, 32768int, 32768int) =~= Seq::<HeapBlock>::empty());
        assert(chain(c, 0, 32768int));
        assert(heap.blocks() =~= seq![HeapBlock { size: 64 * 4096, taken: false }]);
    }
    Some(heap)
}

/// Address of the first block header.
pub fn get_head(heap: &KernelHeap) -> (r: usize)
    ensures
        r == heap.head_addr(),
{
    heap.head
}

/// Address of the kernel root page table.
pub fn get_page_table(heap: &KernelHeap) -> (r: usize)
    ensures
        r == heap.table_addr(),
{
    heap.page_table
}

/// Frames the heap spans.
pub fn get_num_allocations(heap: &KernelHeap) -> (r: usize)
    ensures
        r == heap.pages(),
{
    heap.num_pages
}

/// First fit for a request of `sz` bytes; returns the word index of the
/// header of the block taken.
fn kmalloc_index(heap: &mut KernelHeap, sz: usize) -> (r: Option<usize>)
    requires
        old(heap).wf(),
    ensures
        final(heap).wf(),
        final(heap).head_addr() == old(heap).head_addr(),
        final(heap).pages() == old(heap).pages(),
        final(heap).table_addr() == old(heap).table_addr(),
        final(heap).contents().len() == old(heap).contents().len(),
        (match first_block(old(heap).blocks(), request_size(sz as nat)) {
            Some(k) => r is Some && 8 * r->0 == block_offset(old(heap).blocks(), k)
                && final(heap).blocks() == carve(old(heap).blocks(), k, request_size(sz as nat)),
            None => r is None && final(heap).contents() == old(heap).contents(),
        }),
        r matches Some(i) ==> {
            &&& i < final(heap).contents().len()
            &&& chain(final(heap).contents(), 0, i as int)
            &&& chain(final(heap).contents(), i as int, final(heap).contents().len() as int)
            &&& hdr_size(final(heap).contents()[i as int]) >= request_size(sz as nat)
            &&& chain(
                final(heap).contents(),
                i + hdr_size(final(heap).contents()[i as int]) / 8,
                final(heap).contents().len() as int,
            )
        },
{
    let end = heap.words.len();
    let ghost bs = heap.blocks();
    if sz >= end * 8 {
        proof {
            lemma_chain_sizes(heap.contents(), 0, end as int);
            assert forall|j: int| 0 <= j < bs.len() implies !fits(
                #[trigger] bs[j],
                request_size(sz as nat),
            ) by {}
            lemma_no_fit(bs, request_size(sz as nat), 0);
        }
        return None;
    }
    assert(1usize << 3usize == 8) by (bit_vector);
    let a = align_val(sz, 3);
    assert(a % 8 == 0) by (bit_vector)
        requires
            a & (((1usize << 3usize) - 1) as usize) == 0,
    ;
    assert(a == ((sz + 7) / 8) * 8) by (nonlinear_arith)
        requires
            a % 8 == 0,
            sz <= a,
            a < sz + 8,
    ;
    let req = a + HEADER_SIZE;
    heap.take_block(req)
}

/// Allocates `sz` bytes, rounded up to 8, from the first free block that is
/// larger than the request plus its header; returns the address just past
/// that block's header, or `None` when no block fits.
pub fn kmalloc(heap: &mut KernelHeap, sz: usize) -> (r: Option<usize>)
    requires
        old(heap).wf(),
    ensures
        final(heap).wf(),
        final(heap).head_addr() == old(heap).head_addr(),
        final(heap).pages() == old(heap).pages(),
        final(heap).table_addr() == old(heap).table_addr(),
        r matches Some(p) ==> p % 8 == 0,
        (match first_block(old(heap).blocks(), request_size(sz as nat)) {
            Some(k) => r == Some((old(heap).head_addr() + block_offset(old(heap).blocks(), k) + 8) as usize)
                && final(heap).blocks() == carve(old(heap).blocks(), k, request_size(sz as nat)),
            None => r is None && final(heap).contents() == old(heap).contents(),
        }),
{
    match kmalloc_index(heap, sz) {
        Some(i) => {
            let p = heap.head + 8 * i + HEADER_SIZE;
            assert(p % 8 == 0) by (nonlinear_arith)
                requires
                    heap.head % 4096 == 0,
                    p == heap.head + 8 * i + 8,
            ;
            Some(p)
        },
        None => None,
    }
}

/// `kmalloc` followed by a zero fill of the `sz` bytes (rounded up to 8)
/// handed out.
pub fn kzmalloc(heap: &mut KernelHeap, sz: usize) -> (r: Option<usize>)
    requires
        old(heap).wf(),
    ensures
        final(heap).wf(),
        final(heap).head_addr() == old(heap).head_addr(),
        final(heap).pages() == old(heap).pages(),
        final(heap).table_addr() == old(heap).table_addr(),
        r matches Some(p) ==> p % 8 == 0,
        (match first_block(old(heap).blocks(), request_size(sz as nat)) {
            Some(k) => r == Some((old(heap).head_addr() + block_offset(old(heap).blocks(), k) + 8) as usize)
                && final(heap).blocks() == carve(old(heap).blocks(), k, request_size(sz as nat)),
            None => r is None && final(heap).contents() == old(heap).contents(),
        }),
        r matches Some(p) ==> forall|j: int|
            (p - final(heap).head_addr()) / 8 <= j < (p - final(heap).head_addr()) / 8 + (sz + 7) / 8
                ==> #[trigger] final(heap).contents()[j] == 0,
{
    match kmalloc_index(heap, sz) {
        Some(i) => {
            let ghost c = heap.contents();
            let ghost end = c.len() as int;
            let ghost nx = i + hdr_size(c[i as int]) / 8;
            let ghost bs = heap.blocks();
            proof {
                lemma_chain_sizes(c, i as int, end);
                assert(blocks(c, i as int, end)[0] == hdr_block(c[i as int]));
                lemma_chain_bounds(c, nx, end);
                lemma_step(hdr_size(c[i as int]));
                assert(i + (sz + 7) / 8 + 1 <= nx) by (nonlinear_arith)
                    requires
                        hdr_size(c[i as int]) >= ((sz + 7) / 8) * 8 + 8,
                        nx == i + hdr_size(c[i as int]) / 8,
                ;
            }
            let first = i + 1;
            let stop = i + (sz + 7) / 8 + 1;
            let mut w: usize = first;
            while w < stop
                invariant
                    first <= w <= stop,
                    stop <= nx,
                    nx <= end,
                    end == c.len(),
                    heap.contents().len() == c.len(),
                    heap.head_addr() == old(heap).head_addr(),
                    heap.pages() == old(heap).pages(),
                    heap.table_addr() == old(heap).table_addr(),
                    forall|j: int|
                        0 <= j < c.len() ==> #[trigger] heap.contents()[j] == if first <= j < w {
                            0u64
                        } else {
                            c[j]
                        },
                decreases stop - w,
            {
                heap.words.set(w, 0);
                w += 1;
            }
            proof {
                let c2 = heap.contents();
                lemma_one_block(c2, i as int, nx);
                lemma_rewrite_block(c, c2, i as int, nx, end);
                lemma_one_block(c, i as int, nx);
                lemma_chain_split(c, i as int, nx, end);
                lemma_chain_split(c, 0, i as int, end);
                assert(heap.blocks() =~= bs);
            }
            let p = heap.head + 8 * i + HEADER_SIZE;
            assert(p % 8 == 0) by (nonlinear_arith)
                requires
                    heap.head % 4096 == 0,
                    p == heap.head + 8 * i + 8,
            ;
            Some(p)
        },
        None => None,
    }
}

proof fn lemma_last_block(c: Seq<u64>, i: int, end: int)
    requires
        0 <= i < end,
        end == c.len(),
        chain(c, 0, i),
        size_ok(hdr_size(c[i])),
        i + hdr_size(c[i]) / 8 == end,
    ensures
        chain(c, 0, end),
        blocks(c, 0, i) + merge_pass(blocks(c, i, end)) == blocks(c, 0, end) + merge_pass(
            blocks(c, end, end),
        ),
{
    lemma_one_block(c, i, end);
    lemma_chain_split(c, 0, i, end);
    assert(blocks(c, end, end) =~= Seq::<HeapBlock>::empty());
    assert(merge_pass(blocks(c, i, end)) == blocks(c, i, end));
    assert(merge_pass(Seq::<HeapBlock>::empty()) == Seq::<HeapBlock>::empty());
    assert(blocks(c, 0, end) + Seq::<HeapBlock>::empty() =~= blocks(c, 0, end));
}

proof fn lemma_merge_step(c: Seq<u64>, c2: Seq<u64>, i: int, next: int, nx2: int, end: int)
    requires
        0 <= i < next < nx2 <= end,
        end == c.len(),
        c2 == c.update(i, c2[i]),
        chain(c, 0, i),
        chain(c, nx2, end),
        size_ok(hdr_size(c[i])),
        size_ok(hdr_size(c[next])),
        next == i + hdr_size(c[i]) / 8,
        nx2 == next + hdr_size(c[next]) / 8,
        !hdr_taken(c[i]),
        !hdr_taken(c[next]),
        !hdr_taken(c2[i]),
        hdr_size(c2[i]) == hdr_size(c[i]) + hdr_size(c[next]),
    ensures
        chain(c2, 0, nx2),
        chain(c2, nx2, end),
        blocks(c2, nx2, end) == blocks(c, nx2, end),
        blocks(c, 0, i) + merge_pass(blocks(c, i, end)) == blocks(c2, 0, nx2) + merge_pass(
            blocks(c2, nx2, end),
        ),
{
    lemma_one_block(c, i, next);
    lemma_one_block(c, next, nx2);
    lemma_chain_split(c, next, nx2, end);
    lemma_chain_split(c, i, next, end);
    let rest2 = blocks(c, nx2, end);
    lemma_merge_two(hdr_block(c[i]), hdr_block(c[next]), rest2);
    assert(blocks(c, i, end) =~= seq![hdr_block(c[i]), hdr_block(c[next])] + rest2);
    lemma_step(hdr_size(c2[i]));
    lemma_one_block(c2, i, nx2);
    lemma_rewrite_block(c, c2, i, nx2, end);
    lemma_chain_split(c2, 0, i, nx2);
    assert(blocks(c2, 0, nx2) =~= blocks(c, 0, i) + seq![
        HeapBlock { size: hdr_size(c2[i]), taken: false },
    ]);
}

/// One pass over the blocks from head to tail that merges each free block
/// with a free right neighbour; stops early on a zero-size block or a block
/// that reaches past the tail.
#[verifier::rlimit(50)]
pub fn coalesce(heap: &mut KernelHeap)
    requires
        old(heap).wf(),
    ensures
        final(heap).wf(),
        final(heap).head_addr() == old(heap).head_addr(),
        final(heap).pages() == old(heap).pages(),
        final(heap).table_addr() == old(heap).table_addr(),
        final(heap).contents().len() == old(heap).contents().len(),
        final(heap).blocks() == merge_pass(old(heap).blocks()),
{
    let ghost bs0 = heap.blocks();
    let end = heap.words.len();
    let mut i: usize = 0;
    proof {
        assert(blocks(heap.contents(), 0, 0) =~= Seq::<HeapBlock>::empty());
    }
    while i < end
        invariant
            i <= end,
            end == heap.contents().len(),
            end == old(heap).contents().len(),
            heap.head_addr() == old(heap).head_addr(),
            heap.pages() == old(heap).pages(),
            heap.table_addr() == old(heap).table_addr(),
            old(heap).wf(),
            heap.contents().len() == heap.pages() * 512,
            chain(heap.contents(), 0, i as int),
            chain(heap.contents(), i as int, end as int),
            merge_pass(bs0) == blocks(heap.contents(), 0, i as int) + merge_pass(
                blocks(heap.contents(), i as int, end as int),
            ),
        decreases end - i,
    {
        let ghost c = heap.contents();
        let h = heap.header(i);
        let s = h.get_size();
        proof {
            lemma_chain_sizes(c, i as int, end as int);
            assert(blocks(c, i as int, end as int)[0] == hdr_block(c[i as int]));
            lemma_step(s as nat);
            lemma_chain_bounds(c, i + s / 8, end as int);
        }
        let next: usize = i + (s / 8) as usize;
        proof {
            lemma_one_block(c, i as int, next as int);
            lemma_chain_split(c, i as int, next as int, end as int);
        }
        if s == 0 || next >= end {
            proof {
                lemma_last_block(c, i as int, end as int);
            }
            i = end;
        } else {
            let hn = heap.header(next);
            let ghost rest = blocks(c, next as int, end as int);
            proof {
                lemma_chain_sizes(c, next as int, end as int);
                assert(rest[0] == hdr_block(c[next as int]));
            }
            if h.is_free() && hn.is_free() {
                let s2 = hn.get_size();
                proof {
                    lemma_step(s2 as nat);
                    assert(chain(c, next as int, end as int));
                    assert(chain(c, next + s2 / 8, end as int));
                    lemma_chain_bounds(c, next + s2 / 8, end as int);
                }
                let ghost nx2 = next + s2 / 8;
                let mut hm = h;
                hm.set_size(s + s2);
                heap.set_header(i, hm);
                proof {
                    lemma_merge_step(c, heap.contents(), i as int, next as int, nx2, end as int);
                }
            } else {
                proof {
                    lemma_merge_one(hdr_block(c[i as int]), rest);
                    lemma_chain_split(c, 0, i as int, next as int);
                }
            }
            let ns = heap.header(i).get_size();
            proof {
                lemma_step(ns as nat);
            }
            i = i + (ns / 8) as usize;
        }
    }
    proof {
        assert(blocks(heap.contents(), end as int, end as int) =~= Seq::<HeapBlock>::empty());
        assert(blocks(heap.contents(), 0, end as int) + Seq::<HeapBlock>::empty() =~= blocks(
            heap.contents(),
            0,
            end as int,
        ));
    }
}

/// Frees the block whose payload starts at `ptr` and coalesces. Null, and
/// any address that is not the payload of a block, change nothing.
pub fn kfree(heap: &mut KernelHeap, ptr: usize)
    requires
        old(heap).wf(),
    ensures
        final(heap).wf(),
        final(heap).head_addr() == old(heap).head_addr(),
        final(heap).pages() == old(heap).pages(),
        final(heap).table_addr() == old(heap).table_addr(),
        ptr == 0 ==> final(heap).contents() == old(heap).contents(),
        ptr != 0 ==> (match block_index(old(heap).blocks(), ptr - old(heap).head_addr() - 8) {
            Some(k) => final(heap).blocks() == merge_pass(release(old(heap).blocks(), k)),
            None => final(heap).contents() == old(heap).contents(),
        }),
{
    if ptr == 0 {
        return;
    }
    let ghost bs = heap.blocks();
    let ghost w = heap.contents();
    let ghost off: int = ptr - heap.head_addr() - 8;
    let end = heap.words.len();
    proof {
        assert(bs.take(0) =~= Seq::<HeapBlock>::empty());
    }
    if ptr < heap.head || ptr - heap.head < HEADER_SIZE {
        return;
    }
    let target = ptr - heap.head - HEADER_SIZE;
    let mut i: usize = 0;
    let ghost mut k: int = 0;
    proof {
        assert(blocks(w, 0, 0) =~= Seq::<HeapBlock>::empty());
    }
    while i < end && 8 * i < target
        invariant
            heap.contents() == w,
            *heap == *old(heap),
            old(heap).wf(),
            bs == old(heap).blocks(),
            end == w.len(),
            off == target,
            i <= end,
            chain(w, 0, i as int),
            chain(w, i as int, end as int),
            bs == blocks(w, 0, i as int) + blocks(w, i as int, end as int),
            k == blocks(w, 0, i as int).len(),
            8 * i == total_size(blocks(w, 0, i as int)),
            block_index(bs, off) == block_index_from(bs, off, k),
        decreases end - i,
    {
        let bsz = heap.header(i).get_size();
        proof {
            lemma_chain_sizes(w, i as int, end as int);
            assert(blocks(w, i as int, end as int)[0] == hdr_block(w[i as int]));
            lemma_step(bsz as nat);
            lemma_chain_bounds(w, i + bsz / 8, end as int);
        }
        let nx: usize = i + (bsz / 8) as usize;
        proof {
            lemma_one_block(w, i as int, nx as int);
            lemma_chain_split(w, 0, i as int, nx as int);
            lemma_chain_sizes(w, 0, nx as int);
            assert(bs.take(k) =~= blocks(w, 0, i as int));
            let rest = blocks(w, nx as int, end as int);
            assert(bs == blocks(w, 0, i as int) + seq![hdr_block(w[i as int])] + rest);
        }
        i = nx;
        proof {
            k = k + 1;
        }
    }
    if i < end && 8 * i == target {
        proof {
            lemma_chain_sizes(w, i as int, end as int);
            assert(blocks(w, i as int, end as int)[0] == hdr_block(w[i as int]));
            lemma_step(hdr_size(w[i as int]));
            assert(bs.take(k) =~= blocks(w, 0, i as int));
            lemma_chain_bounds(w, i + hdr_size(w[i as int]) / 8, end as int);
        }
        let ghost nx: int = i + hdr_size(w[i as int]) / 8;
        let mut h = heap.header(i);
        if h.is_taken() {
            h.set_free();
            heap.set_header(i, h);
        }
        proof {
            let w2 = heap.contents();
            lemma_one_block(w, i as int, nx);
            lemma_chain_split(w, i as int, nx, end as int);
            let rest = blocks(w, nx, end as int);
            assert(w2 =~= w.update(i as int, w2[i as int]));
            lemma_one_block(w2, i as int, nx);
            lemma_rewrite_block(w, w2, i as int, nx, end as int);
            assert(heap.blocks() =~= release(bs, k));
        }
        coalesce(heap);
    } else {
        proof {
            if i < end {
                lemma_chain_sizes(w, i as int, end as int);
                assert(bs.take(k) =~= blocks(w, 0, i as int));
            } else {
                assert(blocks(w, end as int, end as int) =~= Seq::<HeapBlock>::empty());
            }
        }
    }
}

/// On a heap that is one free block of `total` bytes, freeing the only
/// allocation gives back one free block of the whole size.
pub proof fn lemma_kmalloc_kfree_round_trip(total: nat, sz: nat)
    requires
        request_size(sz) < total,
    ensures
        ({
            let bs = seq![HeapBlock { size: total, taken: false }];
            let req = request_size(sz);
            &&& first_block(bs, req) == Some(0int)
            &&& block_offset(bs, 0) == 0
            &&& block_index(carve(bs, 0, req), 0) == Some(0int)
            &&& merge_pass(release(carve(bs, 0, req), 0)) == bs
        }),
{
    let bs = seq![HeapBlock { size: total, taken: false }];
    let req = request_size(sz);
    assert(bs.take(0) =~= Seq::<HeapBlock>::empty());
    let c = carve(bs, 0, req);
    assert(c.take(0) =~= Seq::<HeapBlock>::empty());
    let f = release(c, 0);
    if total - req > 8 {
        assert(f =~= seq![
            HeapBlock { size: req, taken: false },
            HeapBlock { size: (total - req) as nat, taken: false },
        ]);
        lemma_merge_pair(f[0], f[1]);
        assert(merge_pass(f) =~= bs);
    } else {
        assert(f =~= bs);
    }
}

proof fn lemma_total_size_3(a: HeapBlock, b: HeapBlock, c: HeapBlock)
    ensures
        total_size(seq![a]) == a.size,
        total_size(seq![a, b]) == a.size + b.size,
        total_size(seq![a, b, c]) == a.size + b.size + c.size,
{
    let e = Seq::<HeapBlock>::empty();
    assert(total_size(e) == 0);
    assert(seq![a].skip(1) =~= e);
    assert(seq![b].skip(1) =~= e);
    assert(seq![c].skip(1) =~= e);
    assert(total_size(seq![a]) == a.size + total_size(seq![a].skip(1)));
    assert(total_size(seq![b]) == b.size + total_size(seq![b].skip(1)));
    assert(total_size(seq![c]) == c.size + total_size(seq![c].skip(1)));
    assert(seq![a, b].skip(1) =~= seq![b]);
    assert(total_size(seq![a, b]) == a.size + total_size(seq![a, b].skip(1)));
    assert(seq![b, c].skip(1) =~= seq![c]);
    assert(total_size(seq![b, c]) == b.size + total_size(seq![b, c].skip(1)));
    assert(seq![a, b, c].skip(1) =~= seq![b, c]);
    assert(total_size(seq![a, b, c]) == a.size + total_size(seq![a, b, c].skip(1)));
}

proof fn lemma_merge_pair(x: HeapBlock, y: HeapBlock)
    requires
        !x.taken,
        !y.taken,
    ensures
        merge_pass(seq![x, y]) == seq![HeapBlock { size: x.size + y.size, taken: false }],
{
    let e = Seq::<HeapBlock>::empty();
    lemma_merge_two(x, y, e);
    assert(seq![x, y] + e =~= seq![x, y]);
    assert(merge_pass(e) == e);
    assert(seq![HeapBlock { size: x.size + y.size, taken: false }] + e =~= seq![
        HeapBlock { size: x.size + y.size, taken: false },
    ]);
}

/// Three equal blocks A, B, C carved from a fresh heap, then A, C and B
/// freed in that order: the single pass after the last free merges A with
/// B and C with the rest, so a request the size of all three payloads
/// together is served from the rest whenever the heap is larger than five
/// blocks.
pub proof fn lemma_three_block_coalesce(total: nat, sz: nat)
    requires
        total > 3 * request_size(sz) + 8,
        total > 5 * request_size(sz),
    ensures
        ({
            let r = request_size(sz);
            let s0 = seq![HeapBlock { size: total, taken: false }];
            let s1 = carve(s0, 0, r);
            let s2 = carve(s1, 1, r);
            let s3 = carve(s2, 2, r);
            let s4 = merge_pass(release(s3, 0));
            let s5 = merge_pass(release(s4, 2));
            let s6 = merge_pass(release(s5, 1));
            &&& first_block(s0, r) == Some(0int) && block_offset(s0, 0) == 0
            &&& first_block(s1, r) == Some(1int) && block_offset(s1, 1) == r
            &&& first_block(s2, r) == Some(2int) && block_offset(s2, 2) == 2 * r
            &&& block_index(s3, 0) == Some(0int)
            &&& block_index(s4, 2 * r as int) == Some(2int)
            &&& block_index(s5, r as int) == Some(1int)
            &&& s6 == seq![
                HeapBlock { size: 2 * r, taken: false },
                HeapBlock { size: (total - 2 * r) as nat, taken: false },
            ]
            &&& request_size((3 * r - 8) as nat) == 3 * r
            &&& first_block(s6, 3 * r) == Some(1int)
        }),
{
    let r = request_size(sz);
    let ta = HeapBlock { size: r, taken: true };
    let fa = HeapBlock { size: r, taken: false };
    let rest3 = HeapBlock { size: (total - 3 * r) as nat, taken: false };
    let s0 = seq![HeapBlock { size: total, taken: false }];
    assert(s0.take(0) =~= Seq::<HeapBlock>::empty());
    let s1 = carve(s0, 0, r);
    assert(s1 =~= seq![ta, HeapBlock { size: (total - r) as nat, taken: false }]);
    assert(s1.take(1) =~= seq![ta]);
    lemma_total_size_3(ta, ta, ta);
    let s2 = carve(s1, 1, r);
    assert(s2 =~= seq![ta, ta, HeapBlock { size: (total - 2 * r) as nat, taken: false }]);
    assert(s2.take(2) =~= seq![ta, ta]);
    let s3 = carve(s2, 2, r);
    assert(s3 =~= seq![ta, ta, ta, rest3]);
    assert(s3.take(0) =~= Seq::<HeapBlock>::empty());
    let f3 = release(s3, 0);
    assert(f3 =~= seq![fa, ta, ta, rest3]);
    assert(f3.skip(1) =~= seq![ta, ta, rest3]);
    assert(seq![ta, ta, rest3].skip(1) =~= seq![ta, rest3]);
    assert(seq![ta, rest3].skip(1) =~= seq![rest3]);
    assert(merge_pass(seq![rest3]) == seq![rest3]);
    assert(merge_pass(seq![ta, rest3]) =~= seq![ta, rest3]);
    assert(merge_pass(seq![ta, ta, rest3]) =~= seq![ta, ta, rest3]);
    let s4 = merge_pass(f3);
    assert(s4 =~= f3);
    assert(s4.take(0) =~= Seq::<HeapBlock>::empty());
    assert(s4.take(1) =~= seq![fa]);
    assert(s4.take(2) =~= seq![fa, ta]);
    lemma_total_size_3(fa, ta, ta);
    assert(block_index_from(s4, 2 * r as int, 2) == Some(2int));
    assert(block_index_from(s4, 2 * r as int, 1) == Some(2int));
    let f4 = release(s4, 2);
    let rest2 = HeapBlock { size: (total - 2 * r) as nat, taken: false };
    assert(f4 =~= seq![fa, ta, fa, rest3]);
    assert(f4.skip(1) =~= seq![ta, fa, rest3]);
    assert(seq![ta, fa, rest3].skip(1) =~= seq![fa, rest3]);
    assert(seq![fa, rest3].skip(2) =~= Seq::<HeapBlock>::empty());
    lemma_merge_pair(fa, rest3);
    assert(merge_pass(seq![fa, rest3]) =~= seq![rest2]);
    assert(merge_pass(seq![ta, fa, rest3]) =~= seq![ta, rest2]);
    let s5 = merge_pass(f4);
    assert(s5 =~= seq![fa, ta, rest2]);
    assert(s5.take(0) =~= Seq::<HeapBlock>::empty());
    assert(s5.take(1) =~= seq![fa]);
    assert(block_index_from(s5, r as int, 1) == Some(1int));
    let f5 = release(s5, 1);
    assert(f5 =~= seq![fa, fa, rest2]);
    assert(f5.skip(2) =~= seq![rest2]);
    let s6 = merge_pass(f5);
    lemma_merge_two(fa, fa, seq![rest2]);
    assert(f5 =~= seq![fa, fa] + seq![rest2]);
    assert(merge_pass(seq![rest2]) == seq![rest2]);
    assert(s6 =~= seq![HeapBlock { size: 2 * r, taken: false }, rest2]);
    assert(request_size((3 * r - 8) as nat) == 3 * r) by (nonlinear_arith)
        requires
            r == ((sz + 7) / 8) * 8 + 8,
    ;
    assert(first_block_from(s6, 3 * r, 1) == Some(1int));
    assert(first_block(s0, r) == Some(0int));
    assert(block_offset(s0, 0) == 0);
    assert(first_block_from(s1, r, 1) == Some(1int));
    assert(first_block(s1, r) == Some(1int));
    assert(block_offset(s1, 1) == r);
    assert(first_block_from(s2, r, 2) == Some(2int));
    assert(first_block_from(s2, r, 1) == Some(2int));
    assert(first_block(s2, r) == Some(2int));
    assert(block_offset(s2, 2) == 2 * r);
    assert(block_index(s3, 0) == Some(0int));
    assert(block_index(s4, 2 * r as int) == Some(2int));
    assert(block_index(s5, r as int) == Some(1int));
    assert(first_block(s6, 3 * r) == Some(1int));
}

/// The blocks from head to tail as (size in bytes, taken) pairs.
pub fn heap_blocks(heap: &KernelHeap) -> (r: Vec<(u64, bool)>)
    requires
        heap.wf(),
    ensures
        r@.len() == heap.blocks().len(),
        forall|j: int|
            0 <= j < r@.len() ==> (#[trigger] r@[j]).0 == heap.blocks()[j].size && r@[j].1
                == heap.blocks()[j].taken,
{
    let ghost w = heap.contents();
    let ghost bs = heap.blocks();
    let end = heap.words.len();
    let mut out: Vec<(u64, bool)> = Vec::new();
    let mut i: usize = 0;
    proof {
        assert(blocks(w, 0, 0) =~= Seq::<HeapBlock>::empty());
    }
    while i < end
        invariant
            heap.wf(),
            w == heap.contents(),
            bs == heap.blocks(),
            end == w.len(),
            i <= end,
            chain(w, 0, i as int),
            chain(w, i as int, end as int),
            bs == blocks(w, 0, i as int) + blocks(w, i as int, end as int),
            out@.len() == blocks(w, 0, i as int).len(),
            forall|j: int|
                0 <= j < out@.len() ==> (#[trigger] out@[j]).0 == bs[j].size && out@[j].1
                    == bs[j].taken,
        decreases end - i,
    {
        let h = heap.header(i);
        let bsz = h.get_size();
        proof {
            lemma_chain_sizes(w, i as int, end as int);
            assert(blocks(w, i as int, end as int)[0] == hdr_block(w[i as int]));
            lemma_step(bsz as nat);
            lemma_chain_bounds(w, i + bsz / 8, end as int);
        }
        let nx: usize = i + (bsz / 8) as usize;
        proof {
            lemma_one_block(w, i as int, nx as int);
            lemma_chain_split(w, 0, i as int, nx as int);
            let rest = blocks(w, nx as int, end as int);
            assert(bs == blocks(w, 0, i as int) + seq![hdr_block(w[i as int])] + rest);
            assert(bs[out@.len() as int] == hdr_block(w[i as int]));
        }
        out.push((bsz, h.is_taken()));
        i = nx;
    }
    proof {
        assert(blocks(w, end as int, end as int) =~= Seq::<HeapBlock>::empty());
        assert(bs =~= blocks(w, 0, end as int));
    }
    out
}

} // verus!
