//! Supervisor address-translation register encoding and the trap frame.
use vstd::prelude::*;

verus! {

/// Translation mode field of `satp`.
#[derive(Clone, Copy)]
pub enum SatpMode {
    Off,
    Sv39,
    Sv48,
}

impl SatpMode {
    pub open spec fn spec_val(self) -> u64 {
        match self {
            SatpMode::Off => 0,
            SatpMode::Sv39 => 8,
            SatpMode::Sv48 => 9,
        }
    }

    #[verifier::when_used_as_spec(spec_val)]
    pub fn val(self) -> (r: u64)
        ensures
            r == self.spec_val(),
    {
        match self {
            SatpMode::Off => 0,
            SatpMode::Sv39 => 8,
            SatpMode::Sv48 => 9,
        }
    }
}

/// `satp` value: mode in bits 60..64, address-space id in 44..60, and the
/// root table's physical page number in 0..44.
pub open spec fn satp_value(mode: u64, asid: u64, addr: u64) -> u64 {
    (mode << 60u64) | ((asid & 0xffff) << 44u64) | ((addr >> 12u64) & 0xff_ffff_ffff)
}

pub fn build_satp(mode: SatpMode, asid: usize, addr: usize) -> (r: usize)
    ensures
        r == satp_value(mode.spec_val(), asid as u64, addr as u64) as usize,
{
    let m = mode.val();
    (((m << 60) | ((asid as u64 & 0xffff) << 44) | ((addr as u64 >> 12) & 0xff_ffff_ffff))
        as usize)
}

/// Registers saved on a trap, with the hart's translation setting, trap
/// stack address and id.
#[derive(Clone, Copy)]
pub struct TrapFrame {
    pub regs: [usize; 32],
    pub fregs: [usize; 32],
    pub satp: usize,
    pub trap_stack: usize,
    pub hartid: usize,
}

impl TrapFrame {
    /// A frame with every field zero.
    pub fn zero() -> (r: Self)
        ensures
            forall|i: int| 0 <= i < 32 ==> r.regs@[i] == 0 && r.fregs@[i] == 0,
            r.satp == 0,
            r.trap_stack == 0,
            r.hartid == 0,
    {
        TrapFrame { regs: [0; 32], fregs: [0; 32], satp: 0, trap_stack: 0, hartid: 0 }
    }
}

} // verus!
