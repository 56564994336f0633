use vstd::prelude::*;

verus! {

/// The supervisor calls, by the number a process passes in `r0`.
#[derive(Clone, Copy, PartialEq, Eq, Structural, Debug)]
pub enum SysCall {
    Yield,
    Write,
    Read,
    Fork,
    Exit,
    Exec,
    Kill,
    Nice,
    Close,
    Pipe,
}

/// The call numbered `id`, if there is one.
pub open spec fn syscall_of(id: u32) -> Option<SysCall> {
    if id == 0 {
        Some(SysCall::Yield)
    } else if id == 1 {
        Some(SysCall::Write)
    } else if id == 2 {
        Some(SysCall::Read)
    } else if id == 3 {
        Some(SysCall::Fork)
    } else if id == 4 {
        Some(SysCall::Exit)
    } else if id == 5 {
        Some(SysCall::Exec)
    } else if id == 6 {
        Some(SysCall::Kill)
    } else if id == 7 {
        Some(SysCall::Nice)
    } else if id == 8 {
        Some(SysCall::Close)
    } else if id == 9 {
        Some(SysCall::Pipe)
    } else {
        None
    }
}

impl SysCall {
    /// Decodes a call number; numbers past the table give `None`.
    pub fn from_u32(id: u32) -> (r: Option<SysCall>)
        ensures
            r == syscall_of(id),
    {
        match id {
            0 => Some(SysCall::Yield),
            1 => Some(SysCall::Write),
            2 => Some(SysCall::Read),
            3 => Some(SysCall::Fork),
            4 => Some(SysCall::Exit),
            5 => Some(SysCall::Exec),
            6 => Some(SysCall::Kill),
            7 => Some(SysCall::Nice),
            8 => Some(SysCall::Close),
            9 => Some(SysCall::Pipe),
            _ => None,
        }
    }
}

} // verus!
