use crate::context::Context;
use crate::error::KernelError;
use crate::id_table::{next_key_of, IdTable};
use vstd::prelude::*;

verus! {

/// Identifier of the idle process, which never enters the process table.
pub const IDLE_PID: i32 = -1;

/// Size in bytes of a process stack.
pub const DEFAULT_STACK_BYTES: usize = 0x1000;

#[derive(Clone, Copy, PartialEq, Eq, Structural, Debug)]
pub enum ProcessStatus {
    Ready,
    Executing,
    Exited,
    Terminated,
    Blocked,
}

/// A process stack: its bytes and the user-space address of its first byte.
pub struct UserStack {
    base: u32,
    bytes: Vec<u8>,
}

impl UserStack {
    /// A non-empty stack whose last byte has an address that fits in 32 bits.
    pub open spec fn wf(&self) -> bool {
        self.len_spec() > 0 && self.base_spec() + self.len_spec() - 1 <= u32::MAX
    }

    pub closed spec fn base_spec(&self) -> u32 {
        self.base
    }

    pub closed spec fn bytes_spec(&self) -> Seq<u8> {
        self.bytes@
    }

    pub open spec fn len_spec(&self) -> nat {
        self.bytes_spec().len()
    }

    /// Address of the last byte, where the stack starts growing down.
    pub open spec fn top_spec(&self) -> u32 {
        (self.base_spec() + self.len_spec() - 1) as u32
    }

    /// `sp` addresses a byte of the stack.
    pub open spec fn holds(&self, sp: u32) -> bool {
        self.base_spec() <= sp <= self.top_spec()
    }

    /// The stack of `bytes` placed at `base`, when it is non-empty and its last
    /// byte has a 32-bit address.
    pub fn new(base: u32, bytes: Vec<u8>) -> (r: Option<UserStack>)
        ensures
            match r {
                Some(s) => s.wf() && s.base_spec() == base && s.bytes_spec() == bytes@,
                None => !(bytes@.len() > 0 && base + bytes@.len() - 1 <= u32::MAX),
            },
    {
        if bytes.len() > 0 && bytes.len() - 1 <= (u32::MAX - base) as usize {
            Some(UserStack { base, bytes })
        } else {
            None
        }
    }

    pub fn base(&self) -> (b: u32)
        ensures
            b == self.base_spec(),
    {
        self.base
    }

    pub fn len(&self) -> (n: usize)
        ensures
            n == self.len_spec(),
    {
        self.bytes.len()
    }

    pub fn top(&self) -> (t: u32)
        requires
            self.wf(),
        ensures
            t == self.top_spec(),
    {
        (self.base as usize + (self.bytes.len() - 1)) as u32
    }

    pub fn bytes(&self) -> (b: &Vec<u8>)
        ensures
            b@ == self.bytes_spec(),
    {
        &self.bytes
    }

    /// Overwrites this stack's bytes with those of `from`, which has as many.
    pub fn copy_from(&mut self, from: &UserStack)
        requires
            old(self).len_spec() == from.len_spec(),
        ensures
            final(self).base_spec() == old(self).base_spec(),
            final(self).bytes_spec() == from.bytes_spec(),
    {
        let mut i: usize = 0;
        while i < from.bytes.len()
            invariant
                self.bytes@.len() == from.bytes@.len(),
                self.base == old(self).base,
                i <= from.bytes@.len(),
                forall|j: int| 0 <= j < i ==> self.bytes@[j] == from.bytes@[j],
            decreases from.bytes@.len() - i,
        {
            self.bytes.set(i, from.bytes[i]);
            i = i + 1;
        }
        assert(self.bytes@ =~= from.bytes@);
    }
}

/// Maps a stack pointer into another stack of the same layout: the new pointer
/// lies as far below the new stack's top as the old one lay below the old top
/// (in 32-bit wrapping arithmetic).
pub fn adjust_sp(old_stack: &UserStack, new_stack: &UserStack, old_sp: u32) -> (r: u32)
    requires
        old_stack.wf(),
        new_stack.wf(),
    ensures
        r == new_stack.top_spec().wrapping_sub(old_stack.top_spec().wrapping_sub(old_sp)),
        old_stack.holds(old_sp) && old_stack.len_spec() == new_stack.len_spec() ==> {
            &&& new_stack.holds(r)
            &&& r - new_stack.base_spec() == old_sp - old_stack.base_spec()
        },
{
    let old_tos = old_stack.top();
    let diff = old_tos.wrapping_sub(old_sp);
    let new_tos = new_stack.top();
    new_tos.wrapping_sub(diff)
}

/// What a process control block holds, as plain values.
pub ghost struct ProcessView {
    pub pid: i32,
    pub status: ProcessStatus,
    pub stack_base: u32,
    pub stack_bytes: Seq<u8>,
    pub context: Context,
    pub files: Map<i32, usize>,
}

/// KernelState-side state of one process. Its file table maps per-process
/// identifiers to handles of shared file descriptors.
pub struct ProcessControlBlock {
    pid: i32,
    status: ProcessStatus,
    stack: UserStack,
    context: Context,
    file_descriptors: IdTable<usize>,
}

impl View for ProcessControlBlock {
    type V = ProcessView;

    closed spec fn view(&self) -> ProcessView {
        ProcessView {
            pid: self.pid,
            status: self.status,
            stack_base: self.stack.base_spec(),
            stack_bytes: self.stack.bytes_spec(),
            context: self.context,
            files: self.file_descriptors@,
        }
    }
}

impl ProcessControlBlock {
    pub closed spec fn stack_spec(&self) -> UserStack {
        self.stack
    }

    pub open spec fn wf(&self) -> bool {
        self.stack_spec().wf()
    }

    /// A file table binds finitely many identifiers.
    pub proof fn lemma_files_finite(&self)
        ensures
            self@.files.dom().finite(),
    {
        self.file_descriptors.lemma_finite();
    }

    /// The view's stack fields are those of the stack.
    pub proof fn lemma_stack_view(&self)
        ensures
            self@.stack_base == self.stack_spec().base_spec(),
            self@.stack_bytes == self.stack_spec().bytes_spec(),
    {
    }

    /// A ready process; its stack pointer must address a byte of its stack.
    pub fn new(pid: i32, stack: UserStack, context: Context, file_descriptors: IdTable<usize>) -> (p:
        ProcessControlBlock)
        requires
            stack.wf(),
            stack.holds(context.sp),
        ensures
            p.wf(),
            p.stack_spec() == stack,
            p@ == (ProcessView {
                pid,
                status: ProcessStatus::Ready,
                stack_base: stack.base_spec(),
                stack_bytes: stack.bytes_spec(),
                context,
                files: file_descriptors@,
            }),
    {
        ProcessControlBlock { pid, status: ProcessStatus::Ready, stack, context, file_descriptors }
    }

    pub fn pid(&self) -> (r: i32)
        ensures
            r == self@.pid,
    {
        self.pid
    }

    pub fn status(&self) -> (r: ProcessStatus)
        ensures
            r == self@.status,
    {
        self.status
    }

    pub fn context(&self) -> (r: Context)
        ensures
            r == self@.context,
    {
        self.context
    }

    pub fn stack(&self) -> (r: &UserStack)
        ensures
            *r == self.stack_spec(),
    {
        &self.stack
    }

    pub fn set_status(&mut self, status: ProcessStatus)
        ensures
            final(self).wf() == old(self).wf(),
            final(self).stack_spec() == old(self).stack_spec(),
            final(self)@ == (ProcessView { status, ..old(self)@ }),
    {
        self.status = status;
    }

    pub fn set_context(&mut self, context: Context)
        ensures
            final(self).wf() == old(self).wf(),
            final(self).stack_spec() == old(self).stack_spec(),
            final(self)@ == (ProcessView { context, ..old(self)@ }),
    {
        self.context = context;
    }

    /// Marks the process as waiting for a system call to complete.
    pub fn set_blocked(&mut self)
        ensures
            final(self).wf() == old(self).wf(),
            final(self).stack_spec() == old(self).stack_spec(),
            final(self)@ == (ProcessView { status: ProcessStatus::Blocked, ..old(self)@ }),
    {
        self.status = ProcessStatus::Blocked;
    }

    /// Hands `result` to the process as its system call's return value, and makes
    /// it ready again if it was blocked.
    pub fn set_unblocked(&mut self, result: u32)
        ensures
            final(self).wf() == old(self).wf(),
            final(self).stack_spec() == old(self).stack_spec(),
            final(self)@ == (ProcessView {
                status: if old(self)@.status == ProcessStatus::Blocked {
                    ProcessStatus::Ready
                } else {
                    old(self)@.status
                },
                context: old(self)@.context.with_result_spec(result),
                ..old(self)@
            }),
    {
        if self.status == ProcessStatus::Blocked {
            self.status = ProcessStatus::Ready;
        }
        self.context = self.context.with_result(result);
    }

    /// The descriptor handle bound to `fid`.
    pub fn get_file(&self, fid: i32) -> (r: Option<usize>)
        ensures
            r == (if self@.files.contains_key(fid) {
                Some(self@.files[fid])
            } else {
                None::<usize>
            }),
    {
        match self.file_descriptors.get(fid) {
            Some(h) => Some(*h),
            None => None,
        }
    }

    /// Unbinds `fid`; fails with `InvalidDescriptor` when it is not bound.
    pub fn close_file(&mut self, fid: i32) -> (r: Result<(), KernelError>)
        ensures
            final(self).wf() == old(self).wf(),
            final(self).stack_spec() == old(self).stack_spec(),
            final(self)@ == (ProcessView { files: old(self)@.files.remove(fid), ..old(self)@ }),
            r is Ok <==> old(self)@.files.contains_key(fid),
            r is Err ==> r == Err::<(), KernelError>(KernelError::InvalidDescriptor),
    {
        match self.file_descriptors.remove(fid) {
            Some(_) => Ok(()),
            None => Err(KernelError::InvalidDescriptor),
        }
    }

    /// Binds `handle` to a fresh identifier, chosen by the table's allocation
    /// rule; fails with `TableFull` when the rule has none left.
    pub fn add_file(&mut self, handle: usize) -> (r: Result<i32, KernelError>)
        ensures
            final(self).wf() == old(self).wf(),
            final(self).stack_spec() == old(self).stack_spec(),
            match next_key_of(old(self)@.files.dom()) {
                Some(fid) => r == Ok::<i32, KernelError>(fid) && final(self)@ == (ProcessView {
                    files: old(self)@.files.insert(fid, handle),
                    ..old(self)@
                }),
                None => r == Err::<i32, KernelError>(KernelError::TableFull) && final(self)@
                    == old(self)@,
            },
    {
        match self.file_descriptors.new_key() {
            Some(fid) => {
                self.file_descriptors.insert(fid, handle);
                Ok(fid)
            },
            None => Err(KernelError::TableFull),
        }
    }

    /// The identifiers bound in the file table, with their handles.
    pub fn files(&self) -> (t: &IdTable<usize>)
        ensures
            t@ == self@.files,
    {
        &self.file_descriptors
    }
}

} // verus!

verus! {

/// Every process in the table is well formed and filed under its own pid.
pub open spec fn table_wf(procs: Map<i32, ProcessControlBlock>) -> bool {
    forall|p: i32| #[trigger] procs.contains_key(p) ==> procs[p].wf() && procs[p]@.pid == p
}

pub open spec fn blocked_view(v: ProcessView) -> ProcessView {
    ProcessView { status: ProcessStatus::Blocked, ..v }
}

pub open spec fn unblocked_view(v: ProcessView, result: u32) -> ProcessView {
    ProcessView {
        status: if v.status == ProcessStatus::Blocked {
            ProcessStatus::Ready
        } else {
            v.status
        },
        context: v.context.with_result_spec(result),
        ..v
    }
}

/// `after` is `before` with the process `pid` now seen as `v`, and its stack kept.
pub open spec fn table_updated(
    before: Map<i32, ProcessControlBlock>,
    after: Map<i32, ProcessControlBlock>,
    pid: i32,
    v: ProcessView,
) -> bool {
    &&& after.dom() == before.dom()
    &&& after[pid]@ == v
    &&& after[pid].stack_spec() == before[pid].stack_spec()
    &&& after[pid].wf() == before[pid].wf()
    &&& forall|q: i32| q != pid && #[trigger] before.contains_key(q) ==> after[q] == before[q]
}

/// Marks process `pid` of the table as blocked.
pub fn block_in(procs: &mut IdTable<ProcessControlBlock>, pid: i32)
    requires
        old(procs)@.contains_key(pid),
    ensures
        table_updated(old(procs)@, final(procs)@, pid, blocked_view(old(procs)@[pid]@)),
{
    let mut pcb = procs.remove(pid).unwrap();
    pcb.set_blocked();
    procs.insert(pid, pcb);
    assert(final(procs)@.dom() =~= old(procs)@.dom());
}

/// Hands `result` to process `pid` of the table as its system call's return
/// value, making it ready if it was blocked.
pub fn unblock_in(procs: &mut IdTable<ProcessControlBlock>, pid: i32, result: u32)
    requires
        old(procs)@.contains_key(pid),
    ensures
        table_updated(old(procs)@, final(procs)@, pid, unblocked_view(old(procs)@[pid]@, result)),
{
    let mut pcb = procs.remove(pid).unwrap();
    pcb.set_unblocked(result);
    procs.insert(pid, pcb);
    assert(final(procs)@.dom() =~= old(procs)@.dom());
}

} // verus!
