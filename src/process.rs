//! Execution contexts: the registers a context switch saves and the record
//! the scheduler keeps for each process.

use vstd::prelude::*;

verus! {

/// Size of the kernel stack of a process, in bytes.
pub const KERNEL_STACK_SIZE: usize = 8192;

/// Pages of a kernel stack.
pub const KERNEL_STACK_PAGES: usize = 2;

/// The registers a context switch saves and restores: return address, stack
/// pointer and the callee-saved registers s0 to s11.
#[derive(Clone, Copy)]
pub struct CpuContext {
    pub ra: usize,
    pub sp: usize,
    pub s0: usize,
    pub s1: usize,
    pub s2: usize,
    pub s3: usize,
    pub s4: usize,
    pub s5: usize,
    pub s6: usize,
    pub s7: usize,
    pub s8: usize,
    pub s9: usize,
    pub s10: usize,
    pub s11: usize,
}

/// The context a process starts from: it returns into `entry` on a stack
/// whose pointer is `sp`; every other register is zero.
pub open spec fn start_context(entry: usize, sp: usize) -> CpuContext {
    CpuContext {
        ra: entry,
        sp: sp,
        s0: 0,
        s1: 0,
        s2: 0,
        s3: 0,
        s4: 0,
        s5: 0,
        s6: 0,
        s7: 0,
        s8: 0,
        s9: 0,
        s10: 0,
        s11: 0,
    }
}

impl Default for CpuContext {
    fn default() -> (r: Self)
        ensures
            r == start_context(0, 0),
    {
        CpuContext {
            ra: 0,
            sp: 0,
            s0: 0,
            s1: 0,
            s2: 0,
            s3: 0,
            s4: 0,
            s5: 0,
            s6: 0,
            s7: 0,
            s8: 0,
            s9: 0,
            s10: 0,
            s11: 0,
        }
    }
}

/// Where a process is in its life.
#[derive(PartialEq, Eq, Structural, Clone, Copy, Debug)]
pub enum ProcessState {
    Unused,
    Runnable,
    Exited,
    KernelReserved,
}

/// A process: its id, state, saved registers and the address of the kernel
/// stack it owns.
#[derive(Clone, Copy)]
pub struct Process {
    pub pid: u32,
    pub state: ProcessState,
    pub context: CpuContext,
    pub kernel_stack: usize,
}

/// A fresh process `pid` in `state`, about to enter `entry` on the stack at
/// `stack`, with its stack pointer one past the end of that stack.
pub open spec fn fresh_process(pid: u32, state: ProcessState, entry: usize, stack: usize) -> Process {
    Process {
        pid: pid,
        state: state,
        context: start_context(entry, (stack + KERNEL_STACK_SIZE) as usize),
        kernel_stack: stack,
    }
}

} // verus!
