use vstd::prelude::*;

verus! {

/// The ways a kernel operation can fail.
#[derive(Clone, Copy, PartialEq, Eq, Structural, Debug)]
pub enum KernelError {
    /// A file identifier is not bound in the process's file table.
    InvalidDescriptor,
    /// A read on a write-only descriptor, or a write on a read-only one.
    UnsupportedOperation,
    /// No process has the given identifier.
    PidNotFound,
    /// An identifier table has no identifier left to hand out.
    TableFull,
    /// The operation needs a running process and none is running.
    NoCurrentProcess,
    /// A stack pointer does not address a byte of the process's stack.
    StackPointerOutOfRange,
    /// A new stack does not have the size of the one it is to copy.
    StackSizeMismatch,
}

} // verus!
