//! A process: its trap frame, stack and root table, built from the frame
//! allocator and the translation primitives.
use vstd::prelude::*;
use crate::mmu::{
    frame_index, leaf_above, leaf_addr, leaf_pte, lemma_fresh_root, lemma_mapped_page,
    lemma_vpn_bound, lemma_zero_invalid, map_page, outside_tree, pte_at, pte_branch, root_ok,
    same_slot, translate, unmap, vpn, EntryBits,
};
use crate::page::{
    alloc_pages, dealloc, first_fit, lemma_first_fit, lemma_run_end_ge, zalloc, FrameAllocator,
    FreeError,
    PAGE_SIZE, PAGE_WORDS,
};

verus! {

/// Stack frames of each process.
pub const STACK_PAGES: usize = 2;

/// Virtual address of the bottom of every process stack.
pub const STACK_ADDR: u64 = 0x1_0000_0000;

/// Virtual address where every process starts executing.
pub const PROCESS_STARTING_ADDR: usize = 0x2000_0000;

/// Address of the system-call entry page, mapped into every process.
pub const SYSCALL_PAGE: usize = 0x8000_0000;

/// Virtual address of stack page `i`.
pub open spec fn stack_page(i: int) -> u64 {
    ((STACK_ADDR + 4096 * i) as usize) as u64
}

/// Virtual address of code page `j` of a process starting at `func_addr`.
pub open spec fn code_page(func_addr: usize, j: int) -> u64 {
    (func_addr + 4096 * j) as u64
}

/// No code page of a process starting at `func_addr`, and not the
/// system-call page, shares a level-0 entry with a stack page.
pub open spec fn stack_apart(func_addr: usize) -> bool {
    &&& forall|i: int, j: int|
        0 <= i < 2 && 0 <= j <= 100 ==> !#[trigger] same_slot(stack_page(i), code_page(func_addr, j), 0)
    &&& forall|i: int| 0 <= i < 2 ==> !same_slot(stack_page(i), SYSCALL_PAGE as u64, 0)
}

proof fn lemma_stack_pages_apart()
    ensures
        !same_slot(stack_page(0), stack_page(1), 0),
{
    let a = stack_page(0);
    let b = stack_page(1);
    assert(a == (0x1_0000_0000u64 as usize) as u64);
    assert(b == (0x1_0000_1000u64 as usize) as u64);
    assert((a >> 12u64) & 0x1ff != (b >> 12u64) & 0x1ff) by (bit_vector)
        requires
            a == (0x1_0000_0000u64 as usize) as u64,
            b == (0x1_0000_1000u64 as usize) as u64,
    ;
}

#[derive(Clone, Copy, Debug, PartialEq, Eq, Structural)]
pub enum ProcessState {
    Running,
    Sleeping,
    Waiting,
    Dead,
}

/// Per-process private data.
pub struct ProcessData {
    cwd_path: [u8; 128],
}

impl ProcessData {
    pub closed spec fn path(&self) -> Seq<u8> {
        self.cwd_path@
    }

    pub fn zero() -> (r: Self)
        ensures
            forall|i: int| 0 <= i < 128 ==> r.path()[i] == 0,
    {
        ProcessData { cwd_path: [0; 128] }
    }
}

pub struct Process {
    frame: usize,
    stack: usize,
    program_counter: usize,
    pid: u16,
    root: usize,
    state: ProcessState,
    data: ProcessData,
    sleep_until: usize,
}

impl Process {
    pub closed spec fn spec_frame(&self) -> usize {
        self.frame
    }

    pub closed spec fn spec_stack(&self) -> usize {
        self.stack
    }

    pub closed spec fn spec_pc(&self) -> usize {
        self.program_counter
    }

    pub closed spec fn spec_pid(&self) -> u16 {
        self.pid
    }

    pub closed spec fn spec_root(&self) -> usize {
        self.root
    }

    pub closed spec fn spec_state(&self) -> ProcessState {
        self.state
    }

    pub closed spec fn spec_sleep_until(&self) -> usize {
        self.sleep_until
    }

    pub fn get_frame_address(&self) -> (r: usize)
        ensures
            r == self.spec_frame(),
    {
        self.frame
    }

    pub fn get_program_counter(&self) -> (r: usize)
        ensures
            r == self.spec_pc(),
    {
        self.program_counter
    }

    pub fn get_pid(&self) -> (r: u16)
        ensures
            r == self.spec_pid(),
    {
        self.pid
    }

    pub fn get_table_address(&self) -> (r: usize)
        ensures
            r == self.spec_root(),
    {
        self.root
    }

    pub fn get_state(&self) -> (r: &ProcessState)
        ensures
            *r == self.spec_state(),
    {
        &self.state
    }

    pub fn get_sleep_until(&self) -> (r: usize)
        ensures
            r == self.spec_sleep_until(),
    {
        self.sleep_until
    }

    /// Builds process `pid` whose code starts at `func_addr`: a zeroed trap
    /// frame whose stack pointer is the top of the stack, a stack, and a
    /// root table mapping the stack at `STACK_ADDR`, 101 pages of code at
    /// their own addresses, and the system-call page. `None` when frames run
    /// out.
    pub fn new_default(fa: &mut FrameAllocator, func_addr: usize, pid: u16) -> (r: Option<Process>)
        requires
            old(fa).wf(),
            func_addr + 101 * 4096 <= usize::MAX,
        ensures
            final(fa).wf(),
            final(fa).start() == old(fa).start(),
            final(fa).num_pages() == old(fa).num_pages(),
            r is None ==> first_fit(final(fa).flags(), 1) is None || first_fit(final(fa).flags(), 2)
                is None,
            r matches Some(p) ==> {
                let rt = frame_index(*final(fa), p.spec_root() as int);
                &&& p.spec_pid() == pid
                &&& p.spec_pc() == PROCESS_STARTING_ADDR
                &&& p.spec_state() == ProcessState::Running
                &&& p.spec_sleep_until() == 0
                &&& root_ok(*final(fa), p.spec_root() as int)
                &&& pte_at(final(fa).memory(), frame_index(*final(fa), p.spec_frame() as int), 2)
                    == STACK_ADDR + STACK_PAGES * 4096
                &&& translate(*final(fa), rt, SYSCALL_PAGE as u64) == Some(
                    leaf_addr(
                        leaf_pte(SYSCALL_PAGE as u64, EntryBits::UserReadExecute.spec_val()),
                        SYSCALL_PAGE as u64,
                        0,
                    ),
                )
                &&& stack_apart(func_addr) ==> forall|i: int|
                    0 <= i < 2 ==> #[trigger] translate(*final(fa), rt, stack_page(i)) == Some(
                        leaf_addr(
                            leaf_pte(
                                (p.spec_stack() + 4096 * i) as u64,
                                EntryBits::UserReadWrite.spec_val(),
                            ),
                            stack_page(i),
                            0,
                        ),
                    )
            },
    {
        let ghost f0 = *fa;
        proof {
            lemma_first_fit(fa.flags(), 1);
        }
        let frame = match zalloc(fa, 1) {
            Some(a) => a,
            None => return None,
        };
        let ghost fa1 = *fa;
        proof {
            lemma_first_fit(fa.flags(), 2);
        }
        let stack = match alloc_pages(fa, STACK_PAGES) {
            Some(a) => a,
            None => return None,
        };
        // the stack pointer (x2) starts at the top of the stack
        let fi = (frame - fa.alloc_start()) / PAGE_SIZE;
        proof {
            let i0 = first_fit(f0.flags(), 1)->0;
            assert(fi == i0);
            assert(fa1.flags()[i0] == 3);
            let i1 = first_fit(fa1.flags(), 2)->0;
            assert(!(i1 <= i0 < i1 + 2));
            assert(fa.flags()[fi as int] == 3);
        }
        let sp = STACK_ADDR + (STACK_PAGES * PAGE_SIZE) as u64;
        fa.write_word(fi * PAGE_WORDS + 2, sp);
        proof {
            lemma_first_fit(fa.flags(), 1);
        }
        let ghost before_root = *fa;
        let root = match zalloc(fa, 1) {
            Some(a) => a,
            None => return None,
        };
        let ghost rt = frame_index(*fa, root as int);
        proof {
            let ri = first_fit(before_root.flags(), 1)->0;
            assert(rt == ri);
            assert forall|k: int| 0 <= k < 512 implies #[trigger] pte_at(fa.memory(), ri, k) == 0 by {}
            lemma_fresh_root(*fa, root as int);
            lemma_zero_invalid();
            assert(fi != ri);
            assert(pte_at(fa.memory(), fi as int, 2) == sp);
            assert forall|u: u64| !#[trigger] leaf_above(*fa, rt, u, 0) by {
                lemma_vpn_bound(u);
                assert(pte_at(fa.memory(), rt, vpn(u, 2)) == 0);
            }
            assert forall|k: int| 0 <= k < 512 implies !pte_branch(#[trigger] pte_at(fa.memory(), rt, k)) by {
                assert(pte_at(fa.memory(), rt, k) == 0);
            }
        }
        let mut i: usize = 0;
        while i < STACK_PAGES
            invariant
                root_ok(*fa, root as int),
                fa.start() == old(fa).start(),
                fa.num_pages() == old(fa).num_pages(),
                rt == frame_index(*fa, root as int),
                fi == frame_index(*fa, frame as int),
                fi < fa.num_pages(),
                fa.flags()[fi as int] != 0,
                outside_tree(*fa, rt, fi as int),
                pte_at(fa.memory(), fi as int, 2) == sp,
                sp == STACK_ADDR + STACK_PAGES * 4096,
                forall|u: u64| !#[trigger] leaf_above(*fa, rt, u, 0),
                i <= STACK_PAGES,
                stack + STACK_PAGES * 4096 <= usize::MAX,
                forall|ii: int|
                    0 <= ii < i ==> #[trigger] translate(*fa, rt, stack_page(ii)) == Some(
                        leaf_addr(
                            leaf_pte((stack + 4096 * ii) as u64, EntryBits::UserReadWrite.spec_val()),
                            stack_page(ii),
                            0,
                        ),
                    ),
            decreases STACK_PAGES - i,
        {
            let addr = i * PAGE_SIZE;
            let vaddr = #[verifier::truncate] ((STACK_ADDR + addr as u64) as usize);
            let ghost before = *fa;
            proof {
                assert(vaddr as u64 == stack_page(i as int));
            }
            match map_page(fa, root, vaddr, stack + addr, EntryBits::UserReadWrite.val()) {
                Ok(()) => {},
                Err(_) => {
                    proof {
                        assert(22u64 & 0xe != 0) by (bit_vector);
                    }
                    return None;
                },
            }
            proof {
                lemma_mapped_page(before, *fa, rt, vaddr as u64, fi as int);
                if i == 1 {
                    lemma_stack_pages_apart();
                }
            }
            i += 1;
        }
        let mut j: usize = 0;
        while j <= 100
            invariant
                root_ok(*fa, root as int),
                fa.start() == old(fa).start(),
                fa.num_pages() == old(fa).num_pages(),
                rt == frame_index(*fa, root as int),
                fi == frame_index(*fa, frame as int),
                fi < fa.num_pages(),
                fa.flags()[fi as int] != 0,
                outside_tree(*fa, rt, fi as int),
                pte_at(fa.memory(), fi as int, 2) == sp,
                sp == STACK_ADDR + STACK_PAGES * 4096,
                forall|u: u64| !#[trigger] leaf_above(*fa, rt, u, 0),
                j <= 101,
                func_addr + 101 * 4096 <= usize::MAX,
                stack_apart(func_addr) ==> forall|ii: int|
                    0 <= ii < 2 ==> #[trigger] translate(*fa, rt, stack_page(ii)) == Some(
                        leaf_addr(
                            leaf_pte((stack + 4096 * ii) as u64, EntryBits::UserReadWrite.spec_val()),
                            stack_page(ii),
                            0,
                        ),
                    ),
            decreases 101 - j,
        {
            let modifier = j * 0x1000;
            let ghost before = *fa;
            match map_page(fa, root, func_addr + modifier, func_addr + modifier, EntryBits::UserReadWriteExecute.val()) {
                Ok(()) => {},
                Err(_) => {
                    proof {
                        assert(30u64 & 0xe != 0) by (bit_vector);
                    }
                    return None;
                },
            }
            proof {
                lemma_mapped_page(before, *fa, rt, (func_addr + modifier) as u64, fi as int);
                if stack_apart(func_addr) {
                    assert forall|ii: int| 0 <= ii < 2 implies !same_slot(
                        stack_page(ii),
                        (func_addr + modifier) as u64,
                        0,
                    ) by {
                        assert(code_page(func_addr, j as int) == (func_addr + modifier) as u64);
                        assert(!same_slot(stack_page(ii), code_page(func_addr, j as int), 0));
                    }
                }
            }
            j += 1;
        }
        let ghost before = *fa;
        match map_page(fa, root, SYSCALL_PAGE, SYSCALL_PAGE, EntryBits::UserReadExecute.val()) {
            Ok(()) => {},
            Err(_) => {
                proof {
                    assert(26u64 & 0xe != 0) by (bit_vector);
                }
                return None;
            },
        }
        proof {
            lemma_mapped_page(before, *fa, rt, SYSCALL_PAGE as u64, fi as int);
        }
        Some(
            Process {
                frame,
                stack,
                program_counter: PROCESS_STARTING_ADDR,
                pid,
                root,
                state: ProcessState::Running,
                data: ProcessData::zero(),
                sleep_until: 0,
            },
        )
    }

    /// Gives the process's frames back: its intermediate tables, its stack,
    /// then its root table. Stops at the first frame that is not a live
    /// allocation.
    pub fn release(self, fa: &mut FrameAllocator) -> (r: Result<(), FreeError>)
        requires
            root_ok(*old(fa), self.spec_root() as int),
        ensures
            final(fa).wf(),
            final(fa).start() == old(fa).start(),
            final(fa).num_pages() == old(fa).num_pages(),
            r is Ok ==> final(fa).flags()[frame_index(*old(fa), self.spec_root() as int)] == 0,
            r is Ok ==> final(fa).flags()[frame_index(*old(fa), self.spec_stack() as int)] == 0,
    {
        unmap(fa, self.root);
        let ghost f1 = *fa;
        dealloc(fa, self.stack)?;
        let ghost f2 = *fa;
        let r = dealloc(fa, self.root);
        proof {
            let is = frame_index(*old(fa), self.stack as int);
            let ir = frame_index(*old(fa), self.root as int);
            lemma_run_end_ge(f1.flags(), is);
            lemma_run_end_ge(f2.flags(), ir);
            assert(f2.flags()[is] == 0);
        }
        r
    }
}

} // verus!
