use crate::descriptor::{FileError, IOResult};
use crate::id_table::IdTable;
use crate::process::{
    block_in, blocked_view, table_updated, table_wf, unblock_in, unblocked_view,
    ProcessControlBlock,
};
use vstd::prelude::*;

verus! {

/// The value `-1` in the system call result register.
pub const ERROR_RESULT: u32 = 0xFFFF_FFFF;

/// A pending transfer of `length` bytes for process `pid`, of which `completed`
/// are done. The process is named by its pid: once it leaves the process table
/// the task is over.
pub struct TaskBase {
    pid: i32,
    completed: usize,
    length: usize,
}

impl TaskBase {
    pub closed spec fn pid_spec(&self) -> i32 {
        self.pid
    }

    pub closed spec fn completed_spec(&self) -> nat {
        self.completed as nat
    }

    pub closed spec fn length_spec(&self) -> nat {
        self.length as nat
    }

    pub open spec fn wf(&self) -> bool {
        self.completed_spec() <= self.length_spec() <= u32::MAX
    }

    pub fn new(pid: i32, length: u32) -> (t: TaskBase)
        ensures
            t.wf(),
            t.pid_spec() == pid,
            t.completed_spec() == 0,
            t.length_spec() == length,
    {
        TaskBase { pid, completed: 0, length: length as usize }
    }

    pub fn pid(&self) -> (p: i32)
        ensures
            p == self.pid_spec(),
    {
        self.pid
    }

    pub fn completed(&self) -> (c: usize)
        ensures
            c == self.completed_spec(),
    {
        self.completed
    }

    /// Bytes still to move.
    pub fn remaining(&self) -> (n: usize)
        requires
            self.wf(),
        ensures
            n == self.length_spec() - self.completed_spec(),
    {
        self.length - self.completed
    }

    /// Applies the outcome of one transfer on the task's remaining bytes. A task
    /// whose process is gone is over and reports the bytes it completed. Moved
    /// bytes count as completed; a transfer that blocked blocks the process and
    /// leaves the task pending (`None`); one that did not hands the completed
    /// count to the process; an error hands it `-1` and ends the task.
    pub fn attempt(
        &mut self,
        procs: &mut IdTable<ProcessControlBlock>,
        outcome: Result<IOResult, FileError>,
    ) -> (r: Option<u32>)
        requires
            old(self).wf(),
            outcome matches Ok(io) ==> io.bytes <= old(self).length_spec() - old(self).completed_spec(),
        ensures
            final(self).wf(),
            old(self).attempt_post(*final(self), old(procs)@, final(procs)@, outcome, r),
    {
        if !procs.contains_key(self.pid) {
            return Some(self.completed as u32);
        }
        match outcome {
            Ok(io) => {
                self.completed = self.completed + io.bytes;
                if io.blocked {
                    block_in(procs, self.pid);
                    None
                } else {
                    unblock_in(procs, self.pid, self.completed as u32);
                    Some(self.completed as u32)
                }
            },
            Err(_) => {
                unblock_in(procs, self.pid, ERROR_RESULT);
                Some(ERROR_RESULT)
            },
        }
    }
}

/// A pending read into the process's memory at `destination`.
pub struct ReadTask {
    base: TaskBase,
    destination: u32,
}

impl ReadTask {
    pub closed spec fn base_spec(&self) -> TaskBase {
        self.base
    }

    pub closed spec fn destination_spec(&self) -> u32 {
        self.destination
    }

    pub open spec fn wf(&self) -> bool {
        self.base_spec().wf()
    }

    pub fn new(pid: i32, destination: u32, length: u32) -> (t: ReadTask)
        ensures
            t.wf(),
            t.base_spec().pid_spec() == pid,
            t.base_spec().completed_spec() == 0,
            t.base_spec().length_spec() == length,
            t.destination_spec() == destination,
    {
        ReadTask { base: TaskBase::new(pid, length), destination }
    }

    pub fn base(&self) -> (b: &TaskBase)
        ensures
            *b == self.base_spec(),
    {
        &self.base
    }

    /// Address where the next delivered byte goes, wrapping at 32 bits.
    pub fn next_address(&self) -> (a: u32)
        requires
            self.wf(),
        ensures
            a == self.destination_spec().wrapping_add(self.base_spec().completed_spec() as u32),
    {
        self.destination.wrapping_add(self.base.completed() as u32)
    }

    /// See `TaskBase::attempt`.
    pub fn attempt(
        &mut self,
        procs: &mut IdTable<ProcessControlBlock>,
        outcome: Result<IOResult, FileError>,
    ) -> (r: Option<u32>)
        requires
            old(self).wf(),
            outcome matches Ok(io) ==> io.bytes <= old(self).base_spec().length_spec()
                - old(self).base_spec().completed_spec(),
        ensures
            final(self).wf(),
            final(self).destination_spec() == old(self).destination_spec(),
            final(self).base_spec().pid_spec() == old(self).base_spec().pid_spec(),
            old(self).base_spec().attempt_post(
                final(self).base_spec(),
                old(procs)@,
                final(procs)@,
                outcome,
                r,
            ),
    {
        self.base.attempt(procs, outcome)
    }
}

/// A pending write of `source`, the bytes the process asked to write.
pub struct WriteTask {
    base: TaskBase,
    source: Vec<u8>,
}

impl WriteTask {
    pub closed spec fn base_spec(&self) -> TaskBase {
        self.base
    }

    pub closed spec fn source_spec(&self) -> Seq<u8> {
        self.source@
    }

    pub open spec fn wf(&self) -> bool {
        self.base_spec().wf() && self.base_spec().length_spec() == self.source_spec().len()
    }

    pub fn new(pid: i32, source: Vec<u8>) -> (t: WriteTask)
        requires
            source@.len() <= u32::MAX,
        ensures
            t.wf(),
            t.base_spec().pid_spec() == pid,
            t.base_spec().completed_spec() == 0,
            t.source_spec() == source@,
    {
        let n = source.len() as u32;
        WriteTask { base: TaskBase::new(pid, n), source }
    }

    pub fn base(&self) -> (b: &TaskBase)
        ensures
            *b == self.base_spec(),
    {
        &self.base
    }

    pub fn source(&self) -> (s: &Vec<u8>)
        ensures
            s@ == self.source_spec(),
    {
        &self.source
    }

    /// See `TaskBase::attempt`.
    pub fn attempt(
        &mut self,
        procs: &mut IdTable<ProcessControlBlock>,
        outcome: Result<IOResult, FileError>,
    ) -> (r: Option<u32>)
        requires
            old(self).wf(),
            outcome matches Ok(io) ==> io.bytes <= old(self).base_spec().length_spec()
                - old(self).base_spec().completed_spec(),
        ensures
            final(self).wf(),
            final(self).source_spec() == old(self).source_spec(),
            old(self).base_spec().attempt_post(
                final(self).base_spec(),
                old(procs)@,
                final(procs)@,
                outcome,
                r,
            ),
    {
        self.base.attempt(procs, outcome)
    }
}

impl TaskBase {
    /// What `attempt` does to the task and the process table, and returns.
    pub open spec fn attempt_post(
        &self,
        after: TaskBase,
        procs0: Map<i32, ProcessControlBlock>,
        procs1: Map<i32, ProcessControlBlock>,
        outcome: Result<IOResult, FileError>,
        r: Option<u32>,
    ) -> bool {
        &&& after.pid_spec() == self.pid_spec()
        &&& after.length_spec() == self.length_spec()
        &&& r == self.attempt_result(procs0, outcome)
        &&& !procs0.contains_key(self.pid_spec()) ==> {
            &&& procs1 == procs0
            &&& after.completed_spec() == self.completed_spec()
        }
        &&& procs0.contains_key(self.pid_spec()) ==> match outcome {
            Ok(io) => {
                let done = self.completed_spec() + io.bytes;
                let v = procs0[self.pid_spec()]@;
                &&& after.completed_spec() == done
                &&& io.blocked ==> table_updated(procs0, procs1, self.pid_spec(), blocked_view(v))
                &&& !io.blocked ==> table_updated(
                    procs0,
                    procs1,
                    self.pid_spec(),
                    unblocked_view(v, done as u32),
                )
            },
            Err(_) => {
                &&& after.completed_spec() == self.completed_spec()
                &&& table_updated(
                    procs0,
                    procs1,
                    self.pid_spec(),
                    unblocked_view(procs0[self.pid_spec()]@, ERROR_RESULT),
                )
            },
        }
    }

    /// An attempt keeps the process table well formed.
    pub proof fn lemma_attempt_keeps_table(
        &self,
        after: TaskBase,
        procs0: Map<i32, ProcessControlBlock>,
        procs1: Map<i32, ProcessControlBlock>,
        outcome: Result<IOResult, FileError>,
        r: Option<u32>,
    )
        requires
            table_wf(procs0),
            self.attempt_post(after, procs0, procs1, outcome, r),
        ensures
            table_wf(procs1),
            procs1.dom() == procs0.dom(),
    {
        if procs0.contains_key(self.pid_spec()) {
            assert forall|p: i32| #[trigger] procs1.contains_key(p) implies procs1[p].wf()
                && procs1[p]@.pid == p by {
                assert(procs0.contains_key(p));
            }
        }
    }

    /// What `attempt` returns.
    pub open spec fn attempt_result(
        &self,
        procs: Map<i32, ProcessControlBlock>,
        outcome: Result<IOResult, FileError>,
    ) -> Option<u32> {
        if !procs.contains_key(self.pid_spec()) {
            Some(self.completed_spec() as u32)
        } else {
            match outcome {
                Ok(io) => if io.blocked {
                    None
                } else {
                    Some((self.completed_spec() + io.bytes) as u32)
                },
                Err(_) => Some(ERROR_RESULT),
            }
        }
    }
}

} // verus!
