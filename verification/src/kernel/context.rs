//! The registers that are saved when one task hands the processor to another.

use vstd::prelude::*;

verus! {

/// The saved registers of a task, in the order in which they lie on its
/// stack.
#[derive(Debug, Clone, Copy)]
pub struct Context {
    pub gs: u64,
    pub fs: u64,
    pub es: u64,
    pub ds: u64,
    pub r15: u64,
    pub r14: u64,
    pub r13: u64,
    pub r12: u64,
    pub r11: u64,
    pub r10: u64,
    pub r9: u64,
    pub r8: u64,
    pub rsi: u64,
    pub rdi: u64,
    pub rdx: u64,
    pub rcx: u64,
    pub rbx: u64,
    pub rax: u64,
    pub rbp: u64,
    pub rip: u64,
    pub cs: u64,
    pub rflags: u64,
    pub rsp: u64,
    pub ss: u64,
}

impl Context {
    /// Whether every register is zero.
    pub open spec fn is_zero(&self) -> bool {
        &&& self.gs == 0 && self.fs == 0 && self.es == 0 && self.ds == 0
        &&& self.r15 == 0 && self.r14 == 0 && self.r13 == 0 && self.r12 == 0
        &&& self.r11 == 0 && self.r10 == 0 && self.r9 == 0 && self.r8 == 0
        &&& self.rsi == 0 && self.rdi == 0 && self.rdx == 0 && self.rcx == 0
        &&& self.rbx == 0 && self.rax == 0 && self.rbp == 0
        &&& self.rip == 0 && self.cs == 0 && self.rflags == 0 && self.rsp == 0 && self.ss == 0
    }

    /// A context with every register set to zero.
    pub fn new() -> (r: Self)
        ensures
            r.is_zero(),
    {
        Self {
            gs: 0,
            fs: 0,
            es: 0,
            ds: 0,
            r15: 0,
            r14: 0,
            r13: 0,
            r12: 0,
            r11: 0,
            r10: 0,
            r9: 0,
            r8: 0,
            rsi: 0,
            rdi: 0,
            rdx: 0,
            rcx: 0,
            rbx: 0,
            rax: 0,
            rbp: 0,
            rip: 0,
            cs: 0,
            rflags: 0,
            rsp: 0,
            ss: 0,
        }
    }
}

} // verus!
