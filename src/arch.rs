//! Register layouts of the trap path and the values written into the trap
//! vector and address-translation registers.

use vstd::prelude::*;

verus! {

/// The registers the trap entry spills onto the interrupted stack, in the
/// order they are stored, with the interrupted stack pointer last.
#[derive(Clone, Copy)]
pub struct TrapFrame {
    pub ra: usize,
    pub gp: usize,
    pub tp: usize,
    pub t0: usize,
    pub t1: usize,
    pub t2: usize,
    pub t3: usize,
    pub t4: usize,
    pub t5: usize,
    pub t6: usize,
    pub a0: usize,
    pub a1: usize,
    pub a2: usize,
    pub a3: usize,
    pub a4: usize,
    pub a5: usize,
    pub a6: usize,
    pub a7: usize,
    pub s0: usize,
    pub s1: usize,
    pub s2: usize,
    pub s3: usize,
    pub s4: usize,
    pub s5: usize,
    pub s6: usize,
    pub s7: usize,
    pub s8: usize,
    pub s9: usize,
    pub s10: usize,
    pub s11: usize,
    pub sp: usize,
}

/// How the trap vector register dispatches traps.
#[derive(Debug, Clone, Copy, PartialEq, Eq, Structural)]
pub enum StvecMode {
    /// Every trap lands at the one base address.
    Direct,
}

impl StvecMode {
    pub open spec fn bits(self) -> usize {
        match self {
            StvecMode::Direct => 0,
        }
    }

    /// The mode field of the trap vector register.
    pub fn value(self) -> (r: usize)
        ensures
            r == self.bits(),
    {
        match self {
            StvecMode::Direct => 0,
        }
    }
}

/// The trap vector register value for a handler at `addr`: the address with
/// the mode in its two low bits.
pub fn stvec_value(addr: usize, mode: StvecMode) -> (r: usize)
    requires
        addr % 4 == 0,
    ensures
        r == addr + mode.bits(),
{
    let m = mode.value();
    assert(addr % 4 == 0 ==> addr | 0 == addr) by (bit_vector);
    addr | m
}

/// The trap vector register value that sends every trap to `trap_entry`
/// in direct mode.
pub fn init_handlers(trap_entry: usize) -> (r: usize)
    requires
        trap_entry % 4 == 0,
    ensures
        r == trap_entry,
{
    stvec_value(trap_entry, StvecMode::Direct)
}

/// The translation-control register value that enables SV32 translation
/// with the root table on the page at `root_table`: the enable bit on top,
/// the root page-frame number in the low 22 bits.
pub struct Satp(usize);

impl Satp {
    pub closed spec fn bits(&self) -> usize {
        self.0
    }

    /// The value for a root table at `root_table`.
    pub fn new(root_table: usize) -> (r: Satp)
        requires
            root_table < 0x1_0000_0000,
        ensures
            r.bits() == 0x8000_0000 + root_table / 4096,
    {
        assert(root_table < 0x1_0000_0000 ==> (1usize << 31) | (root_table >> 12) == 0x8000_0000
            + root_table / 4096) by (bit_vector);
        Satp((1usize << 31) | (root_table >> 12))
    }

    /// The register value.
    pub fn get(&self) -> (r: usize)
        ensures
            r == self.bits(),
    {
        self.0
    }
}

} // verus!
