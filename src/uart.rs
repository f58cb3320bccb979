//! The UART device handle; the device registers themselves are driven
//! outside this library.
use vstd::prelude::*;

verus! {

/// A 16550-style UART at a memory-mapped base address.
pub struct Uart {
    base_addr: usize,
}

impl Uart {
    pub closed spec fn base(&self) -> usize {
        self.base_addr
    }

    pub fn new(base_addr: usize) -> (r: Self)
        ensures
            r.base() == base_addr,
    {
        Uart { base_addr }
    }

    pub fn base_addr(&self) -> (r: usize)
        ensures
            r == self.base(),
    {
        self.base_addr
    }
}

} // verus!
