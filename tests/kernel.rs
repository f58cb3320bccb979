use rusty_os::cpu::{build_satp, SatpMode, TrapFrame};
use rusty_os::mmu::virt_to_phys;
use rusty_os::page::{self, PAGE_SIZE};
use rusty_os::process::{Process, ProcessData, ProcessState, PROCESS_STARTING_ADDR, STACK_ADDR, SYSCALL_PAGE};
use rusty_os::uart::Uart;

#[test]
fn satp_packs_mode_asid_and_root_page() {
    assert_eq!(SatpMode::Off.val(), 0);
    assert_eq!(SatpMode::Sv39.val(), 8);
    assert_eq!(SatpMode::Sv48.val(), 9);
    let s = build_satp(SatpMode::Sv39, 1, 0x8000_1000);
    assert_eq!(s, (8usize << 60) | (1usize << 44) | 0x8_0001);
    assert_eq!(build_satp(SatpMode::Off, 0x1_ffff, 0xfff), 0xffffusize << 44);
}

#[test]
fn trap_frame_starts_zeroed() {
    let f = TrapFrame::zero();
    assert!(f.regs.iter().all(|r| *r == 0));
    assert!(f.fregs.iter().all(|r| *r == 0));
    assert_eq!((f.satp, f.trap_stack, f.hartid), (0, 0, 0));
}

#[test]
fn uart_keeps_its_base() {
    assert_eq!(Uart::new(0x1000_0000).base_addr(), 0x1000_0000);
}

#[test]
fn new_process_maps_stack_code_and_syscall_page() {
    let mut fa = page::init(0x8000_0000, 64 * PAGE_SIZE);
    let func = 0x8000_4000usize;
    let _data = ProcessData::zero();
    let p = Process::new_default(&mut fa, func, 7).unwrap();
    assert_eq!(p.get_pid(), 7);
    assert_eq!(p.get_program_counter(), PROCESS_STARTING_ADDR);
    assert_eq!(*p.get_state(), ProcessState::Running);
    assert_eq!(p.get_sleep_until(), 0);
    let frame = p.get_frame_address();
    let root = p.get_table_address();
    let fi = (frame - fa.alloc_start()) / PAGE_SIZE;
    assert_eq!(fa.read_word(fi * 512 + 2), STACK_ADDR + 2 * 4096);
    let stack = virt_to_phys(&fa, root, STACK_ADDR as usize).unwrap();
    assert_eq!(virt_to_phys(&fa, root, STACK_ADDR as usize + 0x1008), Some(stack + 0x1008));
    assert_eq!(virt_to_phys(&fa, root, func + 100 * 0x1000 + 4), Some(func + 100 * 0x1000 + 4));
    assert_eq!(virt_to_phys(&fa, root, SYSCALL_PAGE), Some(SYSCALL_PAGE));
    let taken_before = (0..64).filter(|i| fa.is_taken(*i)).count();
    assert_eq!(p.release(&mut fa), Ok(()));
    let taken_after = (0..64).filter(|i| fa.is_taken(*i)).count();
    // stack (2), root, and the intermediate tables come back; the trap frame stays
    assert!(taken_after < taken_before - 3);
    assert!(fa.is_taken(fi));
}
