use vstd::array::spec_array_update;
use vstd::prelude::*;

verus! {

/// Processor status word of a process that runs in user mode.
pub const CPSR_USR: u32 = 0x50;

/// The saved register frame of a process: status register, program counter,
/// thirteen general-purpose registers, stack pointer and link register.
#[derive(Clone, Copy, Debug)]
pub struct Context {
    pub cpsr: u32,
    pub pc: u32,
    pub gpr: [u32; 13],
    pub sp: u32,
    pub lr: u32,
}

/// `c` is the fresh user-mode frame that starts at `pc` with stack pointer `sp`.
pub open spec fn is_initial(c: Context, pc: u32, sp: u32) -> bool {
    &&& c.cpsr == CPSR_USR
    &&& c.pc == pc
    &&& c.sp == sp
    &&& c.lr == 0
    &&& forall|i: int| 0 <= i < 13 ==> c.gpr[i] == 0
}

impl Context {
    /// A fresh user-mode frame that starts at `pc` with stack pointer `sp` and
    /// every other register zero.
    pub fn new(pc: u32, sp: u32) -> (c: Context)
        ensures
            c.cpsr == CPSR_USR,
            c.pc == pc,
            c.sp == sp,
            c.lr == 0,
            forall|i: int| 0 <= i < 13 ==> c.gpr[i] == 0,
    {
        Context { cpsr: CPSR_USR, pc, gpr: [0u32; 13], sp, lr: 0 }
    }

    pub open spec fn with_result_spec(self, value: u32) -> Context {
        Context { gpr: spec_array_update(self.gpr, 0, value), ..self }
    }

    /// The frame with `value` in the system call result register `gpr[0]`.
    pub fn with_result(self, value: u32) -> (c: Context)
        ensures
            c == self.with_result_spec(value),
            c.gpr@ == self.gpr@.update(0, value),
    {
        let mut c = self;
        c.gpr[0] = value;
        c
    }
}

} // verus!
