//! Frame allocator: one descriptor byte per 4096-byte frame, first-fit
//! allocation of contiguous runs, and the word contents of every frame.
use vstd::prelude::*;

verus! {

pub const PAGE_ORDER: usize = 12;

pub const PAGE_SIZE: usize = 4096;

/// Number of 8-byte words in one frame.
pub const PAGE_WORDS: usize = 512;

/// Rounds `val` up to the next multiple of `2^order`.
pub fn align_val(val: usize, order: usize) -> (r: usize)
    requires
        order < usize::BITS,
        val + ((1usize << order) - 1) <= usize::MAX,
    ensures
        r & (((1usize << order) - 1) as usize) == 0,
        val <= r,
        r < val + (1usize << order),
{
    assert(1usize << order >= 1) by (bit_vector)
        requires
            order < usize::BITS,
    ;
    let o: usize = (1usize << order) - 1;
    let x: usize = val + o;
    let r = x & !o;
    assert(r & o == 0 && val <= r && r <= val + o) by (bit_vector)
        requires
            order < usize::BITS,
            o == (1usize << order) - 1,
            x == val + o,
            r == x & !o,
    ;
    r
}

/// The flag bits of a frame descriptor.
#[derive(Clone, Copy)]
pub enum PageBits {
    Empty,
    Taken,
    Last,
}

impl PageBits {
    pub open spec fn spec_val(self) -> u8 {
        match self {
            PageBits::Empty => 0,
            PageBits::Taken => 1,
            PageBits::Last => 2,
        }
    }

    #[verifier::when_used_as_spec(spec_val)]
    pub fn val(self) -> (r: u8)
        ensures
            r == self.spec_val(),
    {
        match self {
            PageBits::Empty => 0,
            PageBits::Taken => 1,
            PageBits::Last => 2,
        }
    }
}

/// A descriptor byte in a well-formed table is free (0), taken (1), or taken
/// and the last frame of its run (3).
pub open spec fn flags_ok(f: u8) -> bool {
    f == 0 || f == 1 || f == 3
}

proof fn lemma_flag_bits(f: u8)
    requires
        flags_ok(f),
    ensures
        (f & 1 == 1) == (f != 0),
        (f & 2 != 0) == (f == 3),
{
    assert((f & 1 == 1) == (f != 0) && (f & 2 != 0) == (f == 3)) by (bit_vector)
        requires
            f == 0 || f == 1 || f == 3,
    ;
}

proof fn lemma_set_bits()
    ensures
        0u8 | 1u8 == 1u8,
        1u8 | 1u8 == 1u8,
        1u8 | 2u8 == 3u8,
{
    assert(0u8 | 1u8 == 1u8 && 1u8 | 1u8 == 1u8 && 1u8 | 2u8 == 3u8) by (bit_vector);
}

/// Descriptor of one physical frame (not the frame itself).
#[derive(Clone, Copy)]
pub struct Page {
    flags: u8,
}

impl Page {
    pub closed spec fn spec_flags(&self) -> u8 {
        self.flags
    }

    pub fn is_taken(&self) -> (r: bool)
        ensures
            r == (self.spec_flags() & 1 == 1),
            flags_ok(self.spec_flags()) ==> r == (self.spec_flags() != 0),
    {
        proof {
            if flags_ok(self.flags) {
                lemma_flag_bits(self.flags);
            }
        }
        self.flags & PageBits::Taken.val() == 1
    }

    pub fn is_last(&self) -> (r: bool)
        ensures
            r == (self.spec_flags() & 2 != 0),
            flags_ok(self.spec_flags()) ==> r == (self.spec_flags() == 3),
    {
        proof {
            if flags_ok(self.flags) {
                lemma_flag_bits(self.flags);
            }
        }
        self.flags & PageBits::Last.val() != 0
    }

    pub fn is_free(&self) -> (r: bool)
        ensures
            r == !(self.spec_flags() & 1 == 1),
            flags_ok(self.spec_flags()) ==> r == (self.spec_flags() == 0),
    {
        !self.is_taken()
    }

    pub fn clear(&mut self)
        ensures
            final(self).spec_flags() == 0,
    {
        self.flags = PageBits::Empty.val();
    }

    pub fn set_flag(&mut self, flag: PageBits)
        ensures
            final(self).spec_flags() == old(self).spec_flags() | flag.spec_val(),
    {
        self.flags = self.flags | flag.val();
    }
}

} // verus!

verus! {

/// A misuse of the frame allocator that the kernel treats as fatal.
#[derive(Clone, Copy, Debug, PartialEq, Eq, Structural)]
pub enum FreeError {
    /// The address was null.
    Null,
    /// The address lies outside the allocatable frames.
    OutOfRange,
    /// The run starting at the address is not a live allocation.
    DoubleFree,
}

/// Frames `[i, i + n)` are all free.
pub open spec fn run_free(s: Seq<u8>, i: int, n: int) -> bool {
    forall|k: int| i <= k < i + n ==> s[k] == 0
}

/// The lowest start index `>= i` of `n` free frames that all lie in the
/// table.
pub open spec fn first_fit_from(s: Seq<u8>, n: int, i: int) -> Option<int>
    decreases s.len() - n + 1 - i,
{
    if i < 0 || i > s.len() - n {
        None
    } else if run_free(s, i, n) {
        Some(i)
    } else {
        first_fit_from(s, n, i + 1)
    }
}

pub open spec fn first_fit(s: Seq<u8>, n: int) -> Option<int> {
    first_fit_from(s, n, 0)
}

/// Descriptors after marking `[i, i + n)` taken, the last one also `Last`.
pub open spec fn take_run(s: Seq<u8>, i: int, n: int) -> Seq<u8> {
    Seq::new(
        s.len(),
        |k: int|
            if i <= k < i + n - 1 {
                1u8
            } else if k == i + n - 1 {
                3u8
            } else {
                s[k]
            },
    )
}

/// The first index `>= i` whose descriptor is not "taken, not last".
pub open spec fn run_end(s: Seq<u8>, i: int) -> int
    decreases s.len() - i,
{
    if i < 0 || i >= s.len() || s[i] != 1 {
        i
    } else {
        run_end(s, i + 1)
    }
}

/// The run starting at `i` is a live allocation: it ends in a `Last` frame.
pub open spec fn live_run(s: Seq<u8>, i: int) -> bool {
    run_end(s, i) < s.len() && s[run_end(s, i)] == 3
}

/// Descriptors after clearing `[i, j]`.
pub open spec fn clear_run(s: Seq<u8>, i: int, j: int) -> Seq<u8> {
    Seq::new(s.len(), |k: int| if i <= k <= j { 0u8 } else { s[k] })
}

/// Memory words after zero-filling frames `[i, i + n)`.
pub open spec fn zero_frames(m: Seq<u64>, i: int, n: int) -> Seq<u64> {
    Seq::new(m.len(), |w: int| if i * 512 <= w < (i + n) * 512 { 0u64 } else { m[w] })
}

pub open spec fn frame_addr(start: int, i: int) -> int {
    start + 4096 * i
}

proof fn lemma_first_fit_from(s: Seq<u8>, n: int, i: int)
    requires
        0 <= i,
    ensures
        first_fit_from(s, n, i) matches Some(j) ==> {
            &&& i <= j <= s.len() - n
            &&& run_free(s, j, n)
            &&& forall|k: int| i <= k < j ==> !run_free(s, k, n)
        },
        first_fit_from(s, n, i) is None ==> forall|k: int|
            i <= k <= s.len() - n ==> !run_free(s, k, n),
    decreases s.len() - n + 1 - i,
{
    if i <= s.len() - n && !run_free(s, i, n) {
        lemma_first_fit_from(s, n, i + 1);
    }
}

/// Every run that `alloc` hands out was free, lies inside the table, and no
/// lower start would have fitted.
pub proof fn lemma_first_fit(s: Seq<u8>, n: int)
    ensures
        first_fit(s, n) matches Some(j) ==> {
            &&& 0 <= j <= s.len() - n
            &&& run_free(s, j, n)
            &&& forall|k: int| 0 <= k < j ==> !run_free(s, k, n)
        },
        first_fit(s, n) is None ==> forall|k: int| 0 <= k <= s.len() - n ==> !run_free(s, k, n),
{
    lemma_first_fit_from(s, n, 0);
}

/// The physical frames of the kernel heap region: one descriptor per frame
/// and the frames' contents as 8-byte words.
pub struct FrameAllocator {
    heap_start: usize,
    heap_size: usize,
    alloc_start: usize,
    pages: Vec<Page>,
    mem: Vec<u64>,
}

impl FrameAllocator {
    /// The descriptor bytes, one per frame.
    pub closed spec fn flags(&self) -> Seq<u8> {
        self.pages@.map_values(|p: Page| p.flags)
    }

    /// The contents of all frames, 512 words per frame.
    pub closed spec fn memory(&self) -> Seq<u64> {
        self.mem@
    }

    /// Address of frame 0.
    pub closed spec fn start(&self) -> nat {
        self.alloc_start as nat
    }

    pub closed spec fn num_pages(&self) -> nat {
        self.pages@.len()
    }

    pub open spec fn wf(&self) -> bool {
        &&& self.flags().len() == self.num_pages()
        &&& self.memory().len() == self.num_pages() * 512
        &&& self.start() % 4096 == 0
        &&& self.start() + self.num_pages() * 4096 <= usize::MAX
        &&& forall|k: int| 0 <= k < self.num_pages() ==> flags_ok(#[trigger] self.flags()[k])
        &&& self.num_pages() > 0 ==> self.start() > 0
    }

    /// Frame `f` is allocated.
    pub open spec fn taken(&self, f: int) -> bool {
        0 <= f < self.num_pages() && self.flags()[f] != 0
    }

    /// Start and size of the region the allocator was built for.
    pub closed spec fn region(&self) -> (usize, usize) {
        (self.heap_start, self.heap_size)
    }

    pub fn heap_start(&self) -> (r: usize)
        ensures
            r == self.region().0,
    {
        self.heap_start
    }

    pub fn heap_size(&self) -> (r: usize)
        ensures
            r == self.region().1,
    {
        self.heap_size
    }

    pub fn alloc_start(&self) -> (r: usize)
        ensures
            r == self.start(),
    {
        self.alloc_start
    }

    pub fn page_count(&self) -> (r: usize)
        ensures
            r == self.num_pages(),
    {
        self.pages.len()
    }

    /// Whether frame `i` is allocated.
    pub fn is_taken(&self, i: usize) -> (r: bool)
        requires
            self.wf(),
            i < self.num_pages(),
        ensures
            r == self.taken(i as int),
    {
        self.pages[i].is_taken()
    }

    /// Whether frame `i` ends its run.
    pub fn is_last(&self, i: usize) -> (r: bool)
        requires
            self.wf(),
            i < self.num_pages(),
        ensures
            r == (self.flags()[i as int] == 3),
    {
        self.pages[i].is_last()
    }

    /// Word `w` of frame memory.
    pub fn read_word(&self, w: usize) -> (r: u64)
        requires
            w < self.memory().len(),
        ensures
            r == self.memory()[w as int],
    {
        self.mem[w]
    }

    pub(crate) fn write_word(&mut self, w: usize, v: u64)
        requires
            old(self).wf(),
            w < old(self).memory().len(),
        ensures
            final(self).wf(),
            final(self).memory() == old(self).memory().update(w as int, v),
            final(self).flags() == old(self).flags(),
            final(self).start() == old(self).start(),
            final(self).num_pages() == old(self).num_pages(),
    {
        self.mem.set(w, v);
    }

    /// Finds the first fitting run and marks it taken; returns its index.
    fn take_first_fit(&mut self, pages: usize) -> (r: Option<usize>)
        requires
            old(self).wf(),
            pages > 0,
        ensures
            final(self).wf(),
            final(self).memory() == old(self).memory(),
            final(self).start() == old(self).start(),
            final(self).num_pages() == old(self).num_pages(),
            (match first_fit(old(self).flags(), pages as int) {
                Some(i) => r == Some(i as usize)
                    && final(self).flags() == take_run(old(self).flags(), i, pages as int),
                None => r is None && final(self).flags() == old(self).flags(),
            }),
    {
        let ghost s = self.flags();
        let ghost n = pages as int;
        let num_pages = self.pages.len();
        if pages > num_pages {
            return None;
        }
        let mut i: usize = 0;
        while i <= num_pages - pages
            invariant
                self.wf(),
                self.flags() == s,
                *self == *old(self),
                num_pages == self.pages@.len(),
                pages <= num_pages,
                pages > 0,
                n == pages,
                i <= num_pages - pages + 1,
                first_fit(s, n) == first_fit_from(s, n, i as int),
            decreases num_pages - pages + 1 - i,
        {
            let mut j: usize = i;
            while j < i + pages && self.pages[j].is_free()
                invariant
                    self.wf(),
                    self.flags() == s,
                    num_pages == self.pages@.len(),
                    i <= num_pages - pages,
                    i <= j <= i + pages,
                    forall|k: int| i <= k < j ==> s[k] == 0,
                decreases i + pages - j,
            {
                proof {
                    assert(s[j as int] == self.pages@[j as int].flags);
                }
                j += 1;
            }
            if j == i + pages {
                assert(run_free(s, i as int, n));
                self.mark_run(i, pages);
                return Some(i);
            }
            proof {
                assert(s[j as int] == self.pages@[j as int].flags);
                assert(flags_ok(s[j as int]));
                assert(!run_free(s, i as int, n));
            }
            i += 1;
        }
        None
    }

    fn mark_run(&mut self, i: usize, pages: usize)
        requires
            old(self).wf(),
            pages > 0,
            i + pages <= old(self).num_pages(),
            run_free(old(self).flags(), i as int, pages as int),
        ensures
            final(self).wf(),
            final(self).memory() == old(self).memory(),
            final(self).start() == old(self).start(),
            final(self).num_pages() == old(self).num_pages(),
            final(self).flags() == take_run(old(self).flags(), i as int, pages as int),
    {
        let ghost s = self.flags();
        proof {
            lemma_set_bits();
        }
        let mut k: usize = i;
        while k < i + pages - 1
            invariant
                i <= k <= i + pages - 1,
                i + pages <= self.pages@.len(),
                self.pages@.len() == s.len(),
                self.mem@ == old(self).mem@,
                self.alloc_start == old(self).alloc_start,
                s == old(self).flags(),
                old(self).wf(),
                run_free(s, i as int, pages as int),
                forall|m: int|
                    0 <= m < s.len() ==> #[trigger] self.pages@[m].flags == if i <= m < k {
                        1u8
                    } else {
                        s[m]
                    },
            decreases i + pages - 1 - k,
        {
            let mut p = self.pages[k];
            proof {
                lemma_set_bits();
            }
            p.set_flag(PageBits::Taken);
            self.pages.set(k, p);
            k += 1;
        }
        let last = i + pages - 1;
        let mut p = self.pages[last];
        p.set_flag(PageBits::Taken);
        p.set_flag(PageBits::Last);
        self.pages.set(last, p);
        assert(self.flags() =~= take_run(s, i as int, pages as int));
    }
}

/// Builds the allocator for the region `[heap_start, heap_start + heap_size)`:
/// one cleared descriptor per 4096-byte frame, and allocatable frames
/// starting at the first 4096 boundary past the descriptor table.
pub fn init(heap_start: usize, heap_size: usize) -> (fa: FrameAllocator)
    requires
        heap_start + heap_size / 4096 + 4095 + (heap_size / 4096) * 4096 <= usize::MAX,
    ensures
        fa.wf(),
        fa.region() == (heap_start, heap_size),
        fa.num_pages() == heap_size / 4096,
        fa.start() % 4096 == 0,
        heap_start + heap_size / 4096 <= fa.start() < heap_start + heap_size / 4096 + 4096,
        forall|k: int| 0 <= k < fa.num_pages() ==> #[trigger] fa.flags()[k] == 0,
        forall|w: int| 0 <= w < fa.memory().len() ==> #[trigger] fa.memory()[w] == 0,
{
    let num_pages = heap_size / PAGE_SIZE;
    let mut pages: Vec<Page> = Vec::new();
    let mut i: usize = 0;
    while i < num_pages
        invariant
            i <= num_pages,
            pages@.len() == i,
            forall|k: int| 0 <= k < i ==> #[trigger] pages@[k].flags == 0,
        decreases num_pages - i,
    {
        let mut p = Page { flags: PageBits::Taken.val() };
        p.clear();
        pages.push(p);
        i += 1;
    }
    let words = num_pages * PAGE_WORDS;
    let mut mem: Vec<u64> = Vec::new();
    let mut w: usize = 0;
    while w < words
        invariant
            w <= words,
            mem@.len() == w,
            forall|k: int| 0 <= k < w ==> #[trigger] mem@[k] == 0,
        decreases words - w,
    {
        mem.push(0);
        w += 1;
    }
    assert(1usize << 12usize == 4096) by (bit_vector);
    // The descriptor table holds one byte per frame.
    let alloc_start = align_val(heap_start + num_pages, PAGE_ORDER);
    assert(alloc_start % 4096 == 0 && alloc_start < heap_start + num_pages + 4096) by (bit_vector)
        requires
            alloc_start & (((1usize << 12usize) - 1) as usize) == 0,
            alloc_start < heap_start + num_pages + (1usize << 12usize),
    ;
    let fa = FrameAllocator { heap_start, heap_size, alloc_start, pages, mem };
    assert(fa.flags().len() == num_pages);
    fa
}

/// Allocates `pages` contiguous frames, first fit, and returns the address of
/// the first one; `None` when no run of free frames fits.
pub fn alloc_pages(fa: &mut FrameAllocator, pages: usize) -> (r: Option<usize>)
    requires
        old(fa).wf(),
        pages > 0,
    ensures
        final(fa).wf(),
        final(fa).memory() == old(fa).memory(),
        final(fa).start() == old(fa).start(),
        final(fa).num_pages() == old(fa).num_pages(),
        (match first_fit(old(fa).flags(), pages as int) {
            Some(i) => r == Some(frame_addr(old(fa).start() as int, i) as usize)
                && final(fa).flags() == take_run(old(fa).flags(), i, pages as int),
            None => r is None && final(fa).flags() == old(fa).flags(),
        }),
        r matches Some(a) ==> {
            &&& a % 4096 == 0
            &&& a >= old(fa).start()
            &&& (a - old(fa).start()) / 4096 + pages <= old(fa).num_pages()
            &&& run_free(old(fa).flags(), (a - old(fa).start()) / 4096, pages as int)
        },
{
    proof {
        lemma_first_fit(fa.flags(), pages as int);
    }
    match fa.take_first_fit(pages) {
        Some(i) => {
            let a = fa.alloc_start + PAGE_SIZE * i;
            assert((a - fa.start()) / 4096 == i as int);
            Some(a)
        },
        None => None,
    }
}


proof fn lemma_run_end_step(s: Seq<u8>, i: int)
    requires
        0 <= i < s.len(),
        s[i] == 1,
    ensures
        run_end(s, i) == run_end(s, i + 1),
{
}

/// Frees the run of frames starting at `ptr`: clears descriptors up to and
/// including the one marked `Last`. A null or out-of-range address, or a run
/// that is not live, is reported and nothing changes.
pub fn dealloc(fa: &mut FrameAllocator, ptr: usize) -> (r: Result<(), FreeError>)
    requires
        old(fa).wf(),
    ensures
        final(fa).wf(),
        final(fa).memory() == old(fa).memory(),
        final(fa).start() == old(fa).start(),
        final(fa).num_pages() == old(fa).num_pages(),
        ptr == 0 ==> r matches Err(FreeError::Null),
        ptr != 0 && !(old(fa).start() <= ptr < frame_addr(
            old(fa).start() as int,
            old(fa).num_pages() as int,
        )) ==> r matches Err(FreeError::OutOfRange),
        ptr != 0 && old(fa).start() <= ptr < frame_addr(
            old(fa).start() as int,
            old(fa).num_pages() as int,
        ) ==> ({
            let i = (ptr - old(fa).start()) / 4096;
            if live_run(old(fa).flags(), i) {
                r is Ok && final(fa).flags() == clear_run(
                    old(fa).flags(),
                    i,
                    run_end(old(fa).flags(), i),
                )
            } else {
                r matches Err(FreeError::DoubleFree)
            }
        }),
        r is Err ==> final(fa).flags() == old(fa).flags(),
{
    if ptr == 0 {
        return Err(FreeError::Null);
    }
    if ptr < fa.alloc_start || ptr - fa.alloc_start >= PAGE_SIZE * fa.pages.len() {
        return Err(FreeError::OutOfRange);
    }
    let ghost s = fa.flags();
    let num_pages = fa.pages.len();
    let i = (ptr - fa.alloc_start) / PAGE_SIZE;
    assert(i < num_pages) by (nonlinear_arith)
        requires
            ptr - fa.alloc_start < 4096 * num_pages,
            i == (ptr - fa.alloc_start) / 4096,
    ;
    let mut j: usize = i;
    while j < num_pages && fa.pages[j].is_taken() && !fa.pages[j].is_last()
        invariant
            fa.wf(),
            fa.flags() == s,
            num_pages == s.len(),
            i <= j <= num_pages,
            forall|k: int| i <= k < j ==> s[k] == 1,
            run_end(s, i as int) == run_end(s, j as int),
        decreases num_pages - j,
    {
        proof {
            assert(s[j as int] == fa.pages@[j as int].flags);
            assert(flags_ok(s[j as int]));
            lemma_run_end_step(s, j as int);
        }
        j += 1;
    }
    if j == num_pages || !fa.pages[j].is_last() {
        proof {
            if j < num_pages {
                assert(s[j as int] == fa.pages@[j as int].flags);
                assert(flags_ok(s[j as int]));
            }
        }
        return Err(FreeError::DoubleFree);
    }
    proof {
        assert(s[j as int] == fa.pages@[j as int].flags);
    }
    let mut k: usize = i;
    while k <= j
        invariant
            i <= k <= j + 1,
            j < num_pages,
            fa.pages@.len() == num_pages,
            num_pages == s.len(),
            fa.mem@ == old(fa).mem@,
            fa.alloc_start == old(fa).alloc_start,
            s == old(fa).flags(),
            old(fa).wf(),
            forall|m: int|
                0 <= m < s.len() ==> #[trigger] fa.pages@[m].flags == if i <= m < k {
                    0u8
                } else {
                    s[m]
                },
        decreases j + 1 - k,
    {
        let mut p = fa.pages[k];
        p.clear();
        fa.pages.set(k, p);
        k += 1;
    }
    assert(fa.flags() =~= clear_run(s, i as int, j as int));
    Ok(())
}

/// `alloc_pages` followed by a zero fill of the frames handed out, one
/// 8-byte word at a time.
pub fn zalloc(fa: &mut FrameAllocator, pages: usize) -> (r: Option<usize>)
    requires
        old(fa).wf(),
        pages > 0,
    ensures
        final(fa).wf(),
        final(fa).start() == old(fa).start(),
        final(fa).num_pages() == old(fa).num_pages(),
        (match first_fit(old(fa).flags(), pages as int) {
            Some(i) => r == Some(frame_addr(old(fa).start() as int, i) as usize)
                && final(fa).flags() == take_run(old(fa).flags(), i, pages as int)
                && final(fa).memory() == zero_frames(old(fa).memory(), i, pages as int),
            None => r is None && final(fa).flags() == old(fa).flags() && final(fa).memory()
                == old(fa).memory(),
        }),
{
    proof {
        lemma_first_fit(fa.flags(), pages as int);
    }
    match fa.take_first_fit(pages) {
        Some(i) => {
            let ghost m = fa.memory();
            let end = (i + pages) * PAGE_WORDS;
            let mut w: usize = i * PAGE_WORDS;
            while w < end
                invariant
                    i * 512 <= w <= end,
                    end == (i + pages) * 512,
                    end <= fa.mem@.len(),
                    fa.mem@.len() == m.len(),
                    fa.wf(),
                    fa.flags() == take_run(old(fa).flags(), i as int, pages as int),
                    fa.start() == old(fa).start(),
                    fa.num_pages() == old(fa).num_pages(),
                    forall|x: int|
                        0 <= x < m.len() ==> #[trigger] fa.mem@[x] == if i * 512 <= x < w {
                            0u64
                        } else {
                            m[x]
                        },
                decreases end - w,
            {
                fa.write_word(w, 0);
                w += 1;
            }
            assert(fa.memory() =~= zero_frames(m, i as int, pages as int));
            Some(fa.alloc_start + PAGE_SIZE * i)
        },
        None => None,
    }
}


proof fn lemma_run_end_at(t: Seq<u8>, i: int, e: int, k: int)
    requires
        0 <= i <= k <= e < t.len(),
        forall|m: int| i <= m < e ==> t[m] == 1,
        t[e] == 3,
    ensures
        run_end(t, k) == e,
    decreases e - k,
{
    if k < e {
        lemma_run_end_at(t, i, e, k + 1);
    }
}

/// A run just taken is live, and it ends at its own last frame.
pub proof fn lemma_taken_run_is_live(s: Seq<u8>, i: int, n: int)
    requires
        n > 0,
        0 <= i,
        i + n <= s.len(),
    ensures
        run_end(take_run(s, i, n), i) == i + n - 1,
        live_run(take_run(s, i, n), i),
{
    lemma_run_end_at(take_run(s, i, n), i, i + n - 1, i);
}

/// Freeing a run right after allocating it restores every descriptor, so an
/// allocation of the same count returns the same frames again.
pub proof fn lemma_alloc_dealloc_round_trip(s: Seq<u8>, n: int)
    requires
        n > 0,
        first_fit(s, n) is Some,
    ensures
        ({
            let i = first_fit(s, n)->0;
            let t = take_run(s, i, n);
            &&& live_run(t, i)
            &&& clear_run(t, i, run_end(t, i)) == s
            &&& first_fit(clear_run(t, i, run_end(t, i)), n) == Some(i)
        }),
{
    lemma_first_fit(s, n);
    let i = first_fit(s, n)->0;
    let t = take_run(s, i, n);
    lemma_taken_run_is_live(s, i, n);
    assert(clear_run(t, i, i + n - 1) =~= s);
}

/// On an empty table, two runs allocated one after the other and then both
/// freed leave the table empty again, and their combined count then fits at
/// frame 0.
pub proof fn lemma_two_runs_free_whole(s: Seq<u8>, n1: int, n2: int)
    requires
        n1 > 0,
        n2 > 0,
        forall|k: int| 0 <= k < s.len() ==> s[k] == 0,
        first_fit(s, n1) is Some,
        first_fit(take_run(s, first_fit(s, n1)->0, n1), n2) is Some,
    ensures
        ({
            let i1 = first_fit(s, n1)->0;
            let t1 = take_run(s, i1, n1);
            let i2 = first_fit(t1, n2)->0;
            let t2 = take_run(t1, i2, n2);
            let u1 = clear_run(t2, i1, run_end(t2, i1));
            let u2 = clear_run(u1, i2, run_end(u1, i2));
            &&& live_run(t2, i1)
            &&& live_run(u1, i2)
            &&& u2 == s
            &&& first_fit(u2, n1 + n2) == Some(0int)
        }),
{
    lemma_first_fit(s, n1);
    let i1 = first_fit(s, n1)->0;
    let t1 = take_run(s, i1, n1);
    lemma_first_fit(t1, n2);
    let i2 = first_fit(t1, n2)->0;
    let t2 = take_run(t1, i2, n2);
    // the second run avoids the first, so it starts past it
    assert(i2 >= i1 + n1) by {
        if i2 < i1 + n1 {
            if i2 >= i1 {
                assert(t1[i2] != 0);
            } else {
                assert(t1[i1] != 0);
            }
        }
    }
    assert(i1 == 0) by {
        if i1 > 0 {
            assert(run_free(s, 0, n1));
        }
    }
    lemma_run_end_at(t2, i1, i1 + n1 - 1, i1);
    let u1 = clear_run(t2, i1, run_end(t2, i1));
    assert(u1 =~= take_run(s, i2, n2));
    lemma_taken_run_is_live(s, i2, n2);
    let u2 = clear_run(u1, i2, run_end(u1, i2));
    assert(u2 =~= s);
    assert(run_free(s, 0, n1 + n2));
    reveal_with_fuel(first_fit_from, 2);
}

/// Last frame of the allocated run that starts at a taken frame `i`: the
/// frame marked `Last`, or the frame before the run breaks off.
pub open spec fn run_last(s: Seq<u8>, i: int) -> int {
    if run_end(s, i) < s.len() && s[run_end(s, i)] == 3 {
        run_end(s, i)
    } else {
        run_end(s, i) - 1
    }
}

/// The allocated runs from frame `i` on, as (first frame, frame count).
pub open spec fn runs_from(s: Seq<u8>, i: int) -> Seq<(int, int)>
    decreases s.len() - i,
    via runs_from_decreases
{
    if i < 0 || i >= s.len() {
        Seq::empty()
    } else if s[i] == 0 {
        runs_from(s, i + 1)
    } else if run_last(s, i) >= i {
        seq![(i, run_last(s, i) - i + 1)] + runs_from(s, run_last(s, i) + 1)
    } else {
        Seq::empty()
    }
}

pub(crate) proof fn lemma_run_end_ge(s: Seq<u8>, i: int)
    ensures
        run_end(s, i) >= i,
        0 <= i ==> run_end(s, i) <= s.len() || run_end(s, i) == i,
    decreases s.len() - i,
{
    if 0 <= i < s.len() && s[i] == 1 {
        lemma_run_end_ge(s, i + 1);
    }
}

#[via_fn]
proof fn runs_from_decreases(s: Seq<u8>, i: int) {
    lemma_run_end_ge(s, i);
    if 0 <= i < s.len() && s[i] != 0 && run_last(s, i) >= i {
        if run_end(s, i) > s.len() {
            lemma_run_end_ge(s, i);
        }
    }
}

/// The allocated runs in frame order, as (first frame index, frame count).
pub fn page_allocations(fa: &FrameAllocator) -> (r: Vec<(usize, usize)>)
    requires
        fa.wf(),
    ensures
        r@.map_values(|p: (usize, usize)| (p.0 as int, p.1 as int)) == runs_from(fa.flags(), 0),
{
    let ghost s = fa.flags();
    let num = fa.pages.len();
    let mut out: Vec<(usize, usize)> = Vec::new();
    let mut i: usize = 0;
    while i < num
        invariant
            fa.wf(),
            s == fa.flags(),
            num == s.len(),
            i <= num,
            runs_from(s, 0) == out@.map_values(|p: (usize, usize)| (p.0 as int, p.1 as int))
                + runs_from(s, i as int),
        decreases num - i,
    {
        proof {
            assert(s[i as int] == fa.pages@[i as int].flags);
            assert(flags_ok(s[i as int]));
        }
        if fa.pages[i].is_free() {
            i += 1;
        } else {
            let mut j: usize = i;
            while j < num && fa.pages[j].is_taken() && !fa.pages[j].is_last()
                invariant
                    fa.wf(),
                    s == fa.flags(),
                    num == s.len(),
                    i <= j <= num,
                    run_end(s, i as int) == run_end(s, j as int),
                decreases num - j,
            {
                proof {
                    assert(s[j as int] == fa.pages@[j as int].flags);
                    assert(flags_ok(s[j as int]));
                    lemma_run_end_step(s, j as int);
                }
                j += 1;
            }
            let last = if j < num && fa.pages[j].is_last() {
                j
            } else {
                j - 1
            };
            proof {
                if j < num {
                    assert(s[j as int] == fa.pages@[j as int].flags);
                    assert(flags_ok(s[j as int]));
                }
                assert(run_end(s, j as int) == j);
                assert(last == run_last(s, i as int));
                assert(s[i as int] != 0);
                if j == i {
                    assert(s[i as int] == 3);
                }
            }
            let ghost before = out@.map_values(|p: (usize, usize)| (p.0 as int, p.1 as int));
            out.push((i, last - i + 1));
            proof {
                assert(out@.map_values(|p: (usize, usize)| (p.0 as int, p.1 as int)) =~= before
                    + seq![(i as int, last - i + 1)]);
            }
            i = last + 1;
        }
    }
    proof {
        assert(out@.map_values(|p: (usize, usize)| (p.0 as int, p.1 as int)) + runs_from(s, num as int)
            =~= out@.map_values(|p: (usize, usize)| (p.0 as int, p.1 as int)));
    }
    out
}

} // verus!
