//! Physical-memory and address-translation core of a small RISC-V kernel:
//! a frame allocator over a byte-per-frame descriptor table, a first-fit
//! byte heap carved out of frames, and an Sv39 page-table builder and walker.
//!
//! Physical memory is modelled as an arena of 4096-byte frames owned by a
//! `page::FrameAllocator`; every address handed out is checked against it.
pub mod cpu;
pub mod kmem;
pub mod mmu;
pub mod page;
pub mod process;
pub mod uart;
