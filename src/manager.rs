use crate::context::{is_initial, Context};
use crate::error::KernelError;
use crate::io::{
    interrupt_completes, io_frame, io_wf, read_attempt_post, retried_once, single_reader, with_byte,
    write_attempt_post, FileKind, IoManager, IoView,
};
use crate::tasks::{ReadTask, WriteTask, ERROR_RESULT};
use crate::id_table::{lemma_next_key_fresh, lemma_next_key_rule, next_key_of, IdTable};
use crate::process::{
    adjust_sp, table_wf, ProcessControlBlock, ProcessStatus, ProcessView, UserStack, IDLE_PID,
};
use crate::queues::{
    lemma_push_distinct, lemma_without_distinct,
    contains_spec, first_match_at, lemma_without_absent, outcome_of, pop_first_spec,
    push_front_spec, without_spec,
};
use crate::scheduler::{
    retired_spec, ready_pred, schedule_spec, tick_spec, Current, MLFQScheduler, ScheduleSource, Switch,
};
use vstd::prelude::*;

verus! {

/// What the processes of a table look like.
pub open spec fn views(m: Map<i32, ProcessControlBlock>) -> Map<i32, ProcessView> {
    Map::new(|p: i32| m.contains_key(p), |p: i32| m[p]@)
}

/// A process whose frame is saved on a switch away from it: it gets the live
/// frame, and is ready again if it was executing.
pub open spec fn saved_view(v: ProcessView, ctx: Context) -> ProcessView {
    ProcessView {
        context: ctx,
        status: if v.status == ProcessStatus::Executing {
            ProcessStatus::Ready
        } else {
            v.status
        },
        ..v
    }
}

/// A process switched to: it executes.
pub open spec fn loaded_view(v: ProcessView) -> ProcessView {
    ProcessView { status: ProcessStatus::Executing, ..v }
}

/// The frame after a fork of the process running with frame `ctx`: the same
/// registers, but `sp` and the child's zero in `gpr[0]`.
pub open spec fn is_fork_context(c: Context, ctx: Context, sp: u32) -> bool {
    &&& c.cpsr == ctx.cpsr
    &&& c.pc == ctx.pc
    &&& c.lr == ctx.lr
    &&& c.sp == sp
    &&& c.gpr@ == ctx.gpr@.update(0, 0)
}

/// Owns the process table and the scheduler, and the idle process, which is
/// dispatched when no process is ready and never enters the table.
pub struct ProcessManager {
    table: IdTable<ProcessControlBlock>,
    scheduler: MLFQScheduler,
    idle: ProcessControlBlock,
}

impl ProcessManager {
    pub closed spec fn procs(&self) -> Map<i32, ProcessControlBlock> {
        self.table@
    }

    pub closed spec fn sched(&self) -> MLFQScheduler {
        self.scheduler
    }

    pub closed spec fn idle_spec(&self) -> ProcessControlBlock {
        self.idle
    }

    /// Every process, the idle one under `IDLE_PID` included.
    pub open spec fn all_views(&self) -> Map<i32, ProcessView> {
        views(self.procs()).insert(IDLE_PID, self.idle_spec()@)
    }

    /// The table is well formed, with non-negative identifiers, and holds the
    /// running process unless that has retired.
    pub open spec fn wf(&self) -> bool {
        &&& table_wf(self.procs())
        &&& forall|p: i32| #[trigger] self.procs().contains_key(p) ==> p >= 0
        &&& self.sched().wf()
        &&& self.idle_spec().wf()
        &&& self.idle_spec()@.pid == IDLE_PID
        &&& match self.sched().current_spec() {
            Some(c) => c.pid >= 0 && (!c.retired ==> self.procs().contains_key(c.pid)),
            None => true,
        }
        &&& forall|q: i32| contains_spec(self.sched().levels(), q) ==> self.procs().contains_key(q)
        &&& !contains_spec(self.sched().levels(), IDLE_PID)
    }

    /// No process yet; the idle process starts at `idle_entry` on `idle_stack`.
    pub fn new(idle_entry: u32, idle_stack: UserStack) -> (pm: ProcessManager)
        requires
            idle_stack.wf(),
        ensures
            pm.wf(),
            pm.procs() == Map::<i32, ProcessControlBlock>::empty(),
            pm.sched().quanta() == seq![2u32, 4, 8, 16],
            pm.sched().levels() == Seq::new(4, |l: int| Seq::<i32>::empty()),
            pm.sched().current_spec() is None,
            pm.sched().boost_counter() == 0,
            pm.idle_spec()@.status == ProcessStatus::Ready,
            is_initial(pm.idle_spec()@.context, idle_entry, idle_stack.top_spec()),
    {
        let top = idle_stack.top();
        let idle = ProcessControlBlock::new(
            IDLE_PID,
            idle_stack,
            Context::new(idle_entry, top),
            IdTable::new(),
        );
        let scheduler = MLFQScheduler::default();
        ProcessManager { table: IdTable::new(), scheduler, idle }
    }

    pub fn scheduler(&self) -> (s: &MLFQScheduler)
        ensures
            *s == self.sched(),
    {
        &self.scheduler
    }

    pub fn idle_process(&self) -> (p: &ProcessControlBlock)
        ensures
            *p == self.idle_spec(),
    {
        &self.idle
    }

    /// The process with identifier `pid`, if it is in the table.
    pub fn process(&self, pid: i32) -> (r: Option<&ProcessControlBlock>)
        ensures
            match r {
                Some(p) => self.procs().contains_key(pid) && *p == self.procs()[pid],
                None => !self.procs().contains_key(pid),
            },
    {
        self.table.get(pid)
    }

    /// The running process, or `None` while idling.
    pub fn current_process(&self) -> (r: Option<i32>)
        ensures
            r == (match self.sched().current_spec() {
                Some(c) => if c.retired {
                    None
                } else {
                    Some(c.pid)
                },
                None => None::<i32>,
            }),
    {
        self.scheduler.current_process()
    }

    /// The running process's identifier, when it is still in the table.
    fn live_current(&self) -> (r: Option<i32>)
        ensures
            match r {
                Some(p) => self.sched().current_spec() matches Some(c) && !c.retired && c.pid == p
                    && self.procs().contains_key(p),
                None => !(self.sched().current_spec() matches Some(c) && !c.retired
                    && self.procs().contains_key(c.pid)),
            },
    {
        match self.scheduler.current_process() {
            Some(p) => if self.table.contains_key(p) {
                Some(p)
            } else {
                None
            },
            None => None,
        }
    }

    /// Puts a new process in the table and at the front of the top level.
    fn enroll(&mut self, pid: i32, pcb: ProcessControlBlock)
        requires
            old(self).wf(),
            pcb.wf(),
            pcb@.pid == pid,
            pid >= 0,
            !old(self).procs().contains_key(pid),
        ensures
            final(self).wf(),
            final(self).procs() == old(self).procs().insert(pid, pcb),
            final(self).idle_spec() == old(self).idle_spec(),
            final(self).sched().levels() == push_front_spec(old(self).sched().levels(), pid),
            final(self).sched().quanta() == old(self).sched().quanta(),
            final(self).sched().current_spec() == old(self).sched().current_spec(),
            final(self).sched().boost_counter() == old(self).sched().boost_counter(),
    {
        self.table.insert(pid, pcb);
        self.scheduler.insert_process(pid);
        proof {
            lemma_push_distinct(old(self).sched().levels(), 0, pid);
        }
    }

    /// Creates a ready process that starts at `entry` with the stack pointer at
    /// the top of `stack` and the file table `files`, under the identifier that
    /// the table's allocation rule hands out; fails with `TableFull` when there
    /// is none.
    pub fn create_process(&mut self, entry: u32, files: IdTable<usize>, stack: UserStack) -> (r:
        Result<i32, KernelError>)
        requires
            old(self).wf(),
            stack.wf(),
        ensures
            final(self).wf(),
            final(self).idle_spec() == old(self).idle_spec(),
            match next_key_of(old(self).procs().dom()) {
                Some(pid) => {
                    &&& r == Ok::<i32, KernelError>(pid)
                    &&& !old(self).procs().contains_key(pid)
                    &&& final(self).procs().dom() == old(self).procs().dom().insert(pid)
                    &&& forall|q: i32| q != pid && #[trigger] old(self).procs().contains_key(q)
                        ==> final(self).procs()[q] == old(self).procs()[q]
                    &&& final(self).procs()[pid]@.pid == pid
                    &&& final(self).procs()[pid]@.status == ProcessStatus::Ready
                    &&& final(self).procs()[pid]@.stack_base == stack.base_spec()
                    &&& final(self).procs()[pid]@.stack_bytes == stack.bytes_spec()
                    &&& final(self).procs()[pid]@.files == files@
                    &&& is_initial(final(self).procs()[pid]@.context, entry, stack.top_spec())
                    &&& final(self).sched().levels() == push_front_spec(old(self).sched().levels(), pid)
                    &&& final(self).sched().current_spec() == old(self).sched().current_spec()
                },
                None => r == Err::<i32, KernelError>(KernelError::TableFull) && *final(self)
                    == *old(self),
            },
    {
        proof {
            self.table.lemma_finite();
            lemma_next_key_rule(self.table@.dom());
        }
        let pid = match self.table.new_key() {
            Some(p) => p,
            None => return Err(KernelError::TableFull),
        };
        let top = stack.top();
        let pcb = ProcessControlBlock::new(pid, stack, Context::new(entry, top), files);
        self.enroll(pid, pcb);
        Ok(pid)
    }
}


impl ProcessManager {
    /// Forks the running process, whose live frame is `ctx`, onto `child_stack`:
    /// the child gets a copy of the parent's stack bytes, its file table, and
    /// the frame with the stack pointer moved into the new stack at the same
    /// depth and zero in `gpr[0]`. It fails with `NoCurrentProcess` while
    /// idling, `StackSizeMismatch` when the stacks differ in size,
    /// `StackPointerOutOfRange` when `ctx.sp` is outside the parent's stack, and
    /// `TableFull` when no identifier is left.
    pub fn fork(&mut self, ctx: &Context, child_stack: UserStack) -> (r: Result<i32, KernelError>)
        requires
            old(self).wf(),
            child_stack.wf(),
        ensures
            final(self).wf(),
            final(self).idle_spec() == old(self).idle_spec(),
            match old(self).sched().current_spec() {
                Some(c) if !c.retired && old(self).procs().contains_key(c.pid) => {
                    let parent = old(self).procs()[c.pid];
                    if child_stack.len_spec() != parent.stack_spec().len_spec() {
                        r == Err::<i32, KernelError>(KernelError::StackSizeMismatch) && *final(self)
                            == *old(self)
                    } else if !parent.stack_spec().holds(ctx.sp) {
                        r == Err::<i32, KernelError>(KernelError::StackPointerOutOfRange)
                            && *final(self) == *old(self)
                    } else {
                        match next_key_of(old(self).procs().dom()) {
                            Some(pid) => {
                                let child = final(self).procs()[pid]@;
                                &&& r == Ok::<i32, KernelError>(pid)
                                &&& !old(self).procs().contains_key(pid)
                                &&& final(self).procs().dom() == old(self).procs().dom().insert(pid)
                                &&& forall|q: i32|
                                    q != pid && #[trigger] old(self).procs().contains_key(q)
                                        ==> final(self).procs()[q] == old(self).procs()[q]
                                &&& child.pid == pid
                                &&& child.status == ProcessStatus::Ready
                                &&& child.stack_base == child_stack.base_spec()
                                &&& child.stack_bytes == parent@.stack_bytes
                                &&& child.files == parent@.files
                                &&& final(self).procs()[pid].stack_spec().holds(child.context.sp)
                                &&& child.context.sp - child.stack_base == ctx.sp - parent@.stack_base
                                &&& is_fork_context(child.context, *ctx, child.context.sp)
                                &&& final(self).sched().levels() == push_front_spec(old(self).sched().levels(), pid)
                                &&& final(self).sched().current_spec() == old(
                                    self,
                                ).sched().current_spec()
                                &&& final(self).sched().quanta() == old(self).sched().quanta()
                                &&& final(self).sched().boost_counter() == old(
                                    self,
                                ).sched().boost_counter()
                            },
                            None => r == Err::<i32, KernelError>(KernelError::TableFull)
                                && *final(self) == *old(self),
                        }
                    }
                },
                _ => r == Err::<i32, KernelError>(KernelError::NoCurrentProcess) && *final(self)
                    == *old(self),
            },
    {
        let cur = match self.live_current() {
            Some(p) => p,
            None => return Err(KernelError::NoCurrentProcess),
        };
        let parent = self.table.get(cur).unwrap();
        let parent_stack = parent.stack();
        if child_stack.len() != parent_stack.len() {
            return Err(KernelError::StackSizeMismatch);
        }
        if ctx.sp < parent_stack.base() || ctx.sp > parent_stack.top() {
            return Err(KernelError::StackPointerOutOfRange);
        }
        proof {
            self.table.lemma_finite();
            lemma_next_key_rule(self.table@.dom());
        }
        let pid = match self.table.new_key() {
            Some(p) => p,
            None => return Err(KernelError::TableFull),
        };
        let mut new_stack = child_stack;
        new_stack.copy_from(parent_stack);
        let sp = adjust_sp(parent_stack, &new_stack, ctx.sp);
        let mut new_ctx = *ctx;
        new_ctx.sp = sp;
        new_ctx.gpr[0] = 0;
        let files = parent.files().duplicate();
        proof {
            parent.lemma_stack_view();
        }
        let pcb = ProcessControlBlock::new(pid, new_stack, new_ctx, files);
        assert(new_ctx.gpr@ =~= ctx.gpr@.update(0, 0));
        self.enroll(pid, pcb);
        Ok(pid)
    }

    /// Restarts the running process at `entry`: the live frame becomes a fresh
    /// one with the stack pointer at the top of the process's stack. Its stack
    /// and file table stay. Fails with `NoCurrentProcess` while idling.
    pub fn exec(&mut self, ctx: &mut Context, entry: u32) -> (r: Result<(), KernelError>)
        requires
            old(self).wf(),
        ensures
            *final(self) == *old(self),
            match old(self).sched().current_spec() {
                Some(c) if !c.retired && old(self).procs().contains_key(c.pid) => {
                    &&& r is Ok
                    &&& is_initial(
                        *final(ctx),
                        entry,
                        old(self).procs()[c.pid].stack_spec().top_spec(),
                    )
                },
                _ => r == Err::<(), KernelError>(KernelError::NoCurrentProcess) && *final(ctx)
                    == *old(ctx),
            },
    {
        let cur = match self.live_current() {
            Some(p) => p,
            None => return Err(KernelError::NoCurrentProcess),
        };
        let pcb = self.table.get(cur).unwrap();
        let top = pcb.stack().top();
        *ctx = Context::new(entry, top);
        Ok(())
    }

    /// Ends the running process: it leaves the process table, and the next
    /// dispatch switches away from it. The exit code is not used. Fails with
    /// `NoCurrentProcess` while idling.
    pub fn exit(&mut self, code: u32) -> (r: Result<(), KernelError>)
        requires
            old(self).wf(),
        ensures
            final(self).wf(),
            final(self).sched().levels() == old(self).sched().levels(),
            final(self).sched().quanta() == old(self).sched().quanta(),
            final(self).sched().boost_counter() == old(self).sched().boost_counter(),
            final(self).idle_spec() == old(self).idle_spec(),
            match old(self).sched().current_spec() {
                Some(c) if !c.retired && old(self).procs().contains_key(c.pid) => {
                    &&& r is Ok
                    &&& final(self).procs() == old(self).procs().remove(c.pid)
                    &&& final(self).sched().current_spec() == retired_spec(
                        old(self).sched().current_spec(),
                        c.pid,
                    )
                },
                _ => r == Err::<(), KernelError>(KernelError::NoCurrentProcess) && *final(self)
                    == *old(self),
            },
    {
        let cur = match self.live_current() {
            Some(p) => p,
            None => return Err(KernelError::NoCurrentProcess),
        };
        let mut pcb = self.table.remove(cur).unwrap();
        pcb.set_status(ProcessStatus::Exited);
        self.scheduler.retire(cur);
        Ok(())
    }

    /// Kills process `pid`, whatever the signal: it leaves the process table and
    /// every level of the scheduler. Fails with `PidNotFound` when no process has
    /// that identifier.
    pub fn signal(&mut self, pid: i32, signal: i32) -> (r: Result<(), KernelError>)
        requires
            old(self).wf(),
        ensures
            final(self).wf(),
            final(self).idle_spec() == old(self).idle_spec(),
            r is Ok <==> old(self).procs().contains_key(pid),
            r is Err ==> r == Err::<(), KernelError>(KernelError::PidNotFound) && *final(self)
                == *old(self),
            r is Ok ==> {
                &&& final(self).procs() == old(self).procs().remove(pid)
                &&& final(self).sched().levels() == without_spec(old(self).sched().levels(), pid)
                &&& !contains_spec(final(self).sched().levels(), pid)
                &&& final(self).sched().quanta() == old(self).sched().quanta()
                &&& final(self).sched().current_spec() == retired_spec(
                    old(self).sched().current_spec(),
                    pid,
                )
                &&& final(self).sched().boost_counter() == old(self).sched().boost_counter()
            },
    {
        if !self.table.contains_key(pid) {
            return Err(KernelError::PidNotFound);
        }
        let mut pcb = self.table.remove(pid).unwrap();
        pcb.set_status(ProcessStatus::Terminated);
        self.scheduler.remove_process(pid);
        self.scheduler.retire(pid);
        proof {
            lemma_without_distinct(old(self).sched().levels(), pid);
        }
        Ok(())
    }

    /// Saves the live frame into process `p` (the idle process for `IDLE_PID`),
    /// which becomes ready if it was executing.
    fn save(&mut self, p: i32, ctx: Context)
        requires
            old(self).wf(),
        ensures
            final(self).wf(),
            final(self).sched() == old(self).sched(),
            final(self).procs().dom() == old(self).procs().dom(),
            final(self).all_views() == (if old(self).all_views().contains_key(p) {
                old(self).all_views().insert(p, saved_view(old(self).all_views()[p], ctx))
            } else {
                old(self).all_views()
            }),
    {
        if p == IDLE_PID {
            self.idle.set_context(ctx);
            if self.idle.status() == ProcessStatus::Executing {
                self.idle.set_status(ProcessStatus::Ready);
            }
            proof {
                assert(!old(self).procs().contains_key(IDLE_PID));
                assert(self.all_views() =~= old(self).all_views().insert(
                    p,
                    saved_view(old(self).all_views()[p], ctx),
                ));
            }
        } else if self.table.contains_key(p) {
            let mut pcb = self.table.remove(p).unwrap();
            pcb.set_context(ctx);
            if pcb.status() == ProcessStatus::Executing {
                pcb.set_status(ProcessStatus::Ready);
            }
            self.table.insert(p, pcb);
            proof {
                assert(self.procs().dom() =~= old(self).procs().dom());
                assert(views(self.procs()) =~= views(old(self).procs()).insert(
                    p,
                    saved_view(old(self).all_views()[p], ctx),
                ));
                assert(self.all_views() =~= old(self).all_views().insert(
                    p,
                    saved_view(old(self).all_views()[p], ctx),
                ));
            }
        } else {
            assert(!old(self).all_views().contains_key(p));
        }
    }

    /// Loads the frame of process `p` (the idle process for `IDLE_PID`) into the
    /// live frame; the process executes.
    fn load(&mut self, p: i32, ctx: &mut Context)
        requires
            old(self).wf(),
        ensures
            final(self).wf(),
            final(self).sched() == old(self).sched(),
            final(self).procs().dom() == old(self).procs().dom(),
            old(self).all_views().contains_key(p) ==> {
                &&& final(self).all_views() == old(self).all_views().insert(
                    p,
                    loaded_view(old(self).all_views()[p]),
                )
                &&& *final(ctx) == old(self).all_views()[p].context
            },
            !old(self).all_views().contains_key(p) ==> final(self).all_views() == old(
                self,
            ).all_views() && *final(ctx) == *old(ctx),
    {
        if p == IDLE_PID {
            *ctx = self.idle.context();
            self.idle.set_status(ProcessStatus::Executing);
            proof {
                assert(!old(self).procs().contains_key(IDLE_PID));
                assert(self.all_views() =~= old(self).all_views().insert(
                    p,
                    loaded_view(old(self).all_views()[p]),
                ));
            }
        } else if self.table.contains_key(p) {
            let mut pcb = self.table.remove(p).unwrap();
            *ctx = pcb.context();
            pcb.set_status(ProcessStatus::Executing);
            self.table.insert(p, pcb);
            proof {
                assert(self.procs().dom() =~= old(self).procs().dom());
                assert(views(self.procs()) =~= views(old(self).procs()).insert(
                    p,
                    loaded_view(old(self).all_views()[p]),
                ));
                assert(self.all_views() =~= old(self).all_views().insert(
                    p,
                    loaded_view(old(self).all_views()[p]),
                ));
            }
        } else {
            assert(!old(self).all_views().contains_key(p));
        }
    }

    /// Runs the scheduler for `src` and carries out the switch it decides on:
    /// the live frame `ctx` is saved into the previous process, which becomes
    /// ready if it was executing, and the next process's frame is loaded into
    /// `ctx`, and that process executes. Returns the switch.
    pub fn dispatch(&mut self, ctx: &mut Context, src: ScheduleSource) -> (r: Option<Switch>)
        requires
            old(self).wf(),
        ensures
            final(self).wf(),
            final(self).procs().dom() == old(self).procs().dom(),
            final(self).sched().quanta() == old(self).sched().quanta(),
            dispatch_post(*old(self), *old(ctx), *final(self), *final(ctx), src, r),
    {
        let sw = self.scheduler.schedule(src, &self.table);
        match sw {
            None => {},
            Some(s) => {
                match s.prev {
                    Some(p) => self.save(p, *ctx),
                    None => {},
                }
                self.load(s.next, ctx);
            },
        }
        sw
    }
}


/// The running process, when there is one that has not retired.
pub open spec fn running(pm: ProcessManager) -> Option<i32> {
    match pm.sched().current_spec() {
        Some(c) => if !c.retired && pm.procs().contains_key(c.pid) {
            Some(c.pid)
        } else {
            None
        },
        None => None,
    }
}

/// What `dispatch` does: the scheduler runs for `src` over the process table,
/// and the switch it decides on saves the live frame `ctx0` into the previous
/// process, which becomes ready if it was executing, and loads the next
/// process's frame, which executes.
pub open spec fn dispatch_post(
    pm0: ProcessManager,
    ctx0: Context,
    pm1: ProcessManager,
    ctx1: Context,
    src: ScheduleSource,
    r: Option<Switch>,
) -> bool {
    &&& pm1.procs().dom() == pm0.procs().dom()
    &&& pm1.sched().quanta() == pm0.sched().quanta()
    &&& ({
        let (lv, cur, b, sw) = schedule_spec(
            pm0.sched().levels(),
            pm0.sched().quanta(),
            pm0.sched().current_spec(),
            pm0.sched().boost_counter(),
            src,
            pm0.procs(),
        );
        &&& pm1.sched().levels() == lv
        &&& pm1.sched().current_spec() == cur
        &&& pm1.sched().boost_counter() == b
        &&& r == sw
    })
    &&& match r {
        None => pm1.all_views() == pm0.all_views() && ctx1 == ctx0,
        Some(s) => {
            let m0 = pm0.all_views();
            let m1 = match s.prev {
                Some(p) => if m0.contains_key(p) {
                    m0.insert(p, saved_view(m0[p], ctx0))
                } else {
                    m0
                },
                None => m0,
            };
            &&& m1.contains_key(s.next) ==> pm1.all_views() == m1.insert(
                s.next,
                loaded_view(m1[s.next]),
            ) && ctx1 == m1[s.next].context
            &&& !m1.contains_key(s.next) ==> pm1.all_views() == m1 && ctx1 == ctx0
        },
    }
}

/// What a byte received on UART descriptor `h` does to the processes and the
/// I/O state: with no reader waiting only the input buffer changes; with one
/// reader, the byte joins the input when there is room and the reader is
/// retried once, as `retried_once` says.
pub open spec fn receive_post(
    pm0: ProcessManager,
    io0: IoView,
    pm1: ProcessManager,
    io1: IoView,
    h: int,
    byte: u8,
) -> bool {
    &&& io_frame(io0, io1, pm0.procs(), pm1.procs())
    &&& pm1.sched() == pm0.sched()
    &&& pm1.idle_spec() == pm0.idle_spec()
    &&& io0.reads[h].len() == 0 ==> {
        &&& pm1.procs() == pm0.procs()
        &&& io1 == IoView {
            inputs: io0.inputs.update(
                h,
                if io0.inputs[h].len() < crate::io::KEYBOARD_BUFFER {
                    io0.inputs[h].push(byte)
                } else {
                    io0.inputs[h]
                },
            ),
            ..io0
        }
    }
    &&& single_reader(io0, h, pm0.procs()) && io0.inputs[h].len() < crate::io::KEYBOARD_BUFFER
        ==> exists|t1: ReadTask, r: Option<u32>|
        retried_once(with_byte(io0, h, byte), io1, h, true, t1, pm0.procs(), pm1.procs(), r)
}

/// What `pop_process` takes out meets the predicate.
proof fn lemma_popped_matches(levels: Seq<Seq<i32>>, pred: spec_fn(i32) -> bool)
    ensures
        pop_first_spec(levels, pred) matches Some((p, l, rest)) ==> pred(p),
{
    if exists|l: int, i: int| first_match_at(levels, outcome_of(pred), l, i) {
        let (l, i) = choose|l: int, i: int| first_match_at(levels, outcome_of(pred), l, i);
        assert(outcome_of(pred)(levels[l][i], true));
    }
}

/// A killed process is in neither the process table nor any level, and the
/// next timer event does not switch to it.
pub proof fn lemma_signal_is_kill(
    levels: Seq<Seq<i32>>,
    quanta: Seq<u32>,
    current: Option<Current>,
    boost: u32,
    procs: Map<i32, ProcessControlBlock>,
    pid: i32,
)
    ensures
        ({
            let procs1 = procs.remove(pid);
            let lv1 = without_spec(levels, pid);
            &&& !procs1.contains_key(pid)
            &&& !contains_spec(lv1, pid)
            &&& schedule_spec(lv1, quanta, current, boost, ScheduleSource::Timer, procs1).3 matches Some(
                s,
            ) ==> s.next != pid
        }),
{
    let procs1 = procs.remove(pid);
    let lv1 = without_spec(levels, pid);
    lemma_without_absent(levels, pid);
    let lv2 = tick_spec(lv1, boost).0;
    lemma_popped_matches(lv2, ready_pred(procs1));
}


/// What a write of `data` on descriptor `h` by process `pid` does: one attempt
/// of a fresh write task, as `write_attempt_post` says; a task that blocked then
/// waits at the end of the descriptor's write queue.
pub open spec fn write_call_post(
    io0: IoView,
    io1: IoView,
    procs0: Map<i32, ProcessControlBlock>,
    procs1: Map<i32, ProcessControlBlock>,
    pid: i32,
    h: int,
    data: Seq<u8>,
    r: Option<u32>,
) -> bool {
    exists|t0: WriteTask, t1: WriteTask, mid: IoView|
        {
            &&& t0.wf()
            &&& t0.base_spec().pid_spec() == pid
            &&& t0.base_spec().completed_spec() == 0
            &&& t0.source_spec() == data
            &&& write_attempt_post(io0, mid, h, true, t0, t1, procs0, procs1, r)
            &&& io1 == if r is None {
                IoView { writes: mid.writes.update(h, mid.writes[h].push(t1)), ..mid }
            } else {
                mid
            }
        }
}

/// What a read of up to `length` bytes into `address` on descriptor `h` by
/// process `pid` does: one attempt of a fresh read task, as `read_attempt_post`
/// says; a task that blocked then waits at the end of the read queue.
pub open spec fn read_call_post(
    io0: IoView,
    io1: IoView,
    procs0: Map<i32, ProcessControlBlock>,
    procs1: Map<i32, ProcessControlBlock>,
    pid: i32,
    h: int,
    address: u32,
    length: u32,
    r: Option<u32>,
) -> bool {
    exists|t0: ReadTask, t1: ReadTask, mid: IoView|
        {
            &&& t0.wf()
            &&& t0.base_spec().pid_spec() == pid
            &&& t0.base_spec().completed_spec() == 0
            &&& t0.base_spec().length_spec() == length
            &&& t0.destination_spec() == address
            &&& read_attempt_post(io0, mid, h, true, t0, t1, procs0, procs1, r)
            &&& io1 == if r is None {
                IoView { reads: mid.reads.update(h, mid.reads[h].push(t1)), ..mid }
            } else {
                mid
            }
        }
}

/// The running process and the descriptor handle that its identifier `fid`
/// names, when it is still in the table, `fid` is bound, and the handle names
/// one of `n` descriptors.
pub open spec fn current_file(pm: ProcessManager, n: nat, fid: i32) -> Option<(i32, usize)> {
    match pm.sched().current_spec() {
        Some(c) => if !c.retired && pm.procs().contains_key(c.pid) && pm.procs()[c.pid]@.files.contains_key(fid)
            && pm.procs()[c.pid]@.files[fid] < n {
            Some((c.pid, pm.procs()[c.pid]@.files[fid]))
        } else {
            None
        },
        None => None,
    }
}

impl ProcessManager {
    fn current_file(&self, io: &IoManager, fid: i32) -> (r: Option<(i32, usize)>)
        ensures
            r == current_file(*self, io@.kinds.len(), fid),
    {
        let cur = match self.live_current() {
            Some(p) => p,
            None => return None,
        };
        match self.table.get(cur).unwrap().get_file(fid) {
            Some(h) => if h < io.num_files() {
                Some((cur, h))
            } else {
                None
            },
            None => None,
        }
    }

    /// The running process writes `data` to its descriptor `fid`. Returns the
    /// value for its result register: the bytes written, or `-1` for an
    /// identifier that names no descriptor or a write the descriptor refuses;
    /// `None` when the write blocked and waits on the descriptor.
    pub fn write_file(&mut self, io: &mut IoManager, fid: i32, data: Vec<u8>) -> (r: Option<u32>)
        requires
            old(self).wf(),
            io_wf(old(io)@),
        ensures
            final(self).wf(),
            io_wf(final(io)@),
            final(io)@.kinds == old(io)@.kinds,
            final(self).sched() == old(self).sched(),
            final(self).idle_spec() == old(self).idle_spec(),
            final(self).procs().dom() == old(self).procs().dom(),
            current_file(*old(self), old(io)@.kinds.len(), fid) is None ==> r == Some(ERROR_RESULT)
                && *final(self) == *old(self) && final(io)@ == old(io)@,
            match current_file(*old(self), old(io)@.kinds.len(), fid) {
                Some((pid, h)) => data@.len() <= u32::MAX ==> write_call_post(
                    old(io)@,
                    final(io)@,
                    old(self).procs(),
                    final(self).procs(),
                    pid,
                    h as int,
                    data@,
                    r,
                ),
                None => true,
            },
            match current_file(*old(self), old(io)@.kinds.len(), fid) {
                Some((pid, h)) => match old(io)@.kinds[h as int] {
                    FileKind::Uart { device, can_write, .. } => can_write && data@.len() <= u32::MAX
                        ==> {
                        &&& r == Some(data@.len() as u32)
                        &&& final(io)@.devices[device as int] == old(io)@.devices[device as int]
                            + data@
                        &&& final(self).procs()[pid]@.context.gpr[0] == data@.len() as u32
                    },
                    _ => true,
                },
                None => true,
            },
    {
        let (pid, h) = match self.current_file(io, fid) {
            Some(x) => x,
            None => return Some(ERROR_RESULT),
        };
        if data.len() > u32::MAX as usize {
            return Some(ERROR_RESULT);
        }
        let mut task = WriteTask::new(pid, data);
        assert(task.source_spec().skip(0) =~= task.source_spec());
        let ghost t0 = task;
        let ghost p0 = self.procs();
        let r = io.attempt_write(h, &mut task, &mut self.table);
        let ghost mid = io@;
        let ghost t1 = task;
        if r.is_none() {
            io.add_pending_write(h, task);
        }
        assert(write_attempt_post(old(io)@, mid, h as int, true, t0, t1, p0, self.procs(), r));
        r
    }

    /// The running process reads up to `length` bytes from its descriptor `fid`
    /// into its memory at `address`. Returns as `write_file` does.
    pub fn read_file(&mut self, io: &mut IoManager, fid: i32, address: u32, length: u32) -> (r:
        Option<u32>)
        requires
            old(self).wf(),
            io_wf(old(io)@),
        ensures
            final(self).wf(),
            io_wf(final(io)@),
            final(io)@.kinds == old(io)@.kinds,
            final(self).sched() == old(self).sched(),
            final(self).idle_spec() == old(self).idle_spec(),
            final(self).procs().dom() == old(self).procs().dom(),
            current_file(*old(self), old(io)@.kinds.len(), fid) is None ==> r == Some(ERROR_RESULT)
                && *final(self) == *old(self) && final(io)@ == old(io)@,
            match current_file(*old(self), old(io)@.kinds.len(), fid) {
                Some((pid, h)) => read_call_post(
                    old(io)@,
                    final(io)@,
                    old(self).procs(),
                    final(self).procs(),
                    pid,
                    h as int,
                    address,
                    length,
                    r,
                ),
                None => true,
            },
            match current_file(*old(self), old(io)@.kinds.len(), fid) {
                Some((pid, h)) => (old(io)@.kinds[h as int] matches FileKind::Uart {
                    can_read: true,
                    ..
                }) && old(io)@.inputs[h as int].len() == 0 && length > 0 ==> {
                    let t = final(io)@.reads[h as int].last();
                    &&& r is None
                    &&& final(self).procs()[pid]@.status == ProcessStatus::Blocked
                    &&& final(io)@.reads[h as int].len() == old(io)@.reads[h as int].len() + 1
                    &&& t.base_spec().pid_spec() == pid
                    &&& t.base_spec().completed_spec() == 0
                    &&& t.base_spec().length_spec() == length
                    &&& t.destination_spec() == address
                },
                None => true,
            },
    {
        let (pid, h) = match self.current_file(io, fid) {
            Some(x) => x,
            None => return Some(ERROR_RESULT),
        };
        let mut task = ReadTask::new(pid, address, length);
        let ghost t0 = task;
        let ghost p0 = self.procs();
        let r = io.attempt_read(h, &mut task, &mut self.table);
        let ghost mid = io@;
        let ghost t1 = task;
        if r.is_none() {
            io.add_pending_read(h, task);
        }
        assert(read_attempt_post(old(io)@, mid, h as int, true, t0, t1, p0, self.procs(), r));
        r
    }

    /// A byte received by the UART of descriptor `h`; the readers waiting on it
    /// are retried.
    pub fn receive(&mut self, io: &mut IoManager, h: usize, byte: u8)
        requires
            old(self).wf(),
            io_wf(old(io)@),
            h < old(io)@.kinds.len(),
            old(io)@.kinds[h as int] is Uart,
        ensures
            final(self).wf(),
            receive_post(*old(self), old(io)@, *final(self), final(io)@, h as int, byte),
            interrupt_completes(old(io)@, h as int, old(self).procs()) ==> {
                let t = old(io)@.reads[h as int][0].base_spec();
                let v = old(self).procs()[t.pid_spec()]@;
                &&& final(io)@.reads[h as int].len() == 0
                &&& v.status == ProcessStatus::Blocked ==> final(self).procs()[t.pid_spec()]@.status
                    == ProcessStatus::Ready
                &&& final(self).procs()[t.pid_spec()]@.context.gpr[0] == t.length_spec() as u32
            },
    {
        io.on_interrupt(h, byte, &mut self.table);
    }

    /// The running process closes its identifier `fid`. Fails with
    /// `InvalidDescriptor` when it is not bound, and `NoCurrentProcess` while
    /// idling.
    pub fn close_file(&mut self, fid: i32) -> (r: Result<(), KernelError>)
        requires
            old(self).wf(),
        ensures
            final(self).wf(),
            final(self).idle_spec() == old(self).idle_spec(),
            final(self).sched() == old(self).sched(),
            final(self).procs().dom() == old(self).procs().dom(),
            match old(self).sched().current_spec() {
                Some(c) if !c.retired && old(self).procs().contains_key(c.pid) => {
                    &&& r is Ok <==> old(self).procs()[c.pid]@.files.contains_key(fid)
                    &&& r is Err ==> r == Err::<(), KernelError>(KernelError::InvalidDescriptor)
                    &&& final(self).procs()[c.pid]@ == (ProcessView {
                        files: old(self).procs()[c.pid]@.files.remove(fid),
                        ..old(self).procs()[c.pid]@
                    })
                    &&& forall|q: i32| q != c.pid && #[trigger] old(self).procs().contains_key(q)
                        ==> final(self).procs()[q] == old(self).procs()[q]
                    &&& r is Err ==> *final(self) == *old(self)
                },
                _ => r == Err::<(), KernelError>(KernelError::NoCurrentProcess) && *final(self)
                    == *old(self),
            },
    {
        let cur = match self.live_current() {
            Some(p) => p,
            None => return Err(KernelError::NoCurrentProcess),
        };
        if self.table.get(cur).unwrap().get_file(fid).is_none() {
            assert(self.procs()[cur]@.files.remove(fid) =~= self.procs()[cur]@.files);
            return Err(KernelError::InvalidDescriptor);
        }
        let mut pcb = self.table.remove(cur).unwrap();
        let r = pcb.close_file(fid);
        self.table.insert(cur, pcb);
        assert(self.procs().dom() =~= old(self).procs().dom());
        r
    }

    /// Gives the running process a new pipe: its read end and write end are
    /// bound to the two identifiers its file table hands out next, which are
    /// returned. Fails with `NoCurrentProcess` while idling, and with
    /// `TableFull` when the file table has not two identifiers left or the I/O
    /// subsystem has no room for two more descriptors and a pipe.
    pub fn open_pipe(&mut self, io: &mut IoManager) -> (r: Result<(i32, i32), KernelError>)
        requires
            old(self).wf(),
            io_wf(old(io)@),
        ensures
            final(self).wf(),
            io_wf(final(io)@),
            final(self).sched() == old(self).sched(),
            final(self).procs().dom() == old(self).procs().dom(),
            final(io)@.kinds.len() >= old(io)@.kinds.len(),
            forall|k: int| 0 <= k < old(io)@.kinds.len() ==> final(io)@.kinds[k] == old(io)@.kinds[k],
            final(self).idle_spec() == old(self).idle_spec(),
            match old(self).sched().current_spec() {
                Some(c) if !c.retired && old(self).procs().contains_key(c.pid) => {
                    let v = old(self).procs()[c.pid]@;
                    let rd = next_key_of(v.files.dom());
                    let wr = next_key_of(v.files.dom().insert(rd.unwrap()));
                    let k = old(io)@.kinds.len();
                    let p = old(io)@.buffers.len();
                    &&& r is Ok <==> (rd is Some && wr is Some && io_room(old(io)@))
                    &&& r is Ok ==> {
                        &&& r == Ok::<(i32, i32), KernelError>((rd.unwrap(), wr.unwrap()))
                        &&& final(self).procs()[c.pid]@ == (ProcessView {
                            files: v.files.insert(rd.unwrap(), k as usize).insert(
                                wr.unwrap(),
                                (k + 1) as usize,
                            ),
                            ..v
                        })
                        &&& forall|q: i32| q != c.pid && #[trigger] old(self).procs().contains_key(q)
                            ==> final(self).procs()[q] == old(self).procs()[q]
                        &&& final(io)@.kinds == old(io)@.kinds.push(
                            FileKind::PipeRead { pipe: p as usize },
                        ).push(FileKind::PipeWrite { pipe: p as usize })
                        &&& final(io)@.buffers == old(io)@.buffers.push(Seq::empty())
                        &&& final(io)@.ends == old(io)@.ends.push((k as usize, (k + 1) as usize))
                        &&& final(io)@.reads.len() == k + 2
                        &&& final(io)@.user_writes == old(io)@.user_writes
                    }
                    &&& r is Err ==> r == Err::<(i32, i32), KernelError>(KernelError::TableFull)
                        && *final(self) == *old(self) && final(io)@ == old(io)@
                },
                _ => r == Err::<(i32, i32), KernelError>(KernelError::NoCurrentProcess)
                    && *final(self) == *old(self) && final(io)@ == old(io)@,
            },
    {
        let cur = match self.live_current() {
            Some(p) => p,
            None => return Err(KernelError::NoCurrentProcess),
        };
        let files = self.table.get(cur).unwrap().files();
        let rd = match files.new_key() {
            Some(k) => k,
            None => return Err(KernelError::TableFull),
        };
        let mut probe = files.duplicate();
        probe.insert(rd, 0);
        assert(probe@.dom() =~= files@.dom().insert(rd));
        let wr = match probe.new_key() {
            Some(k) => k,
            None => return Err(KernelError::TableFull),
        };
        if io.num_files() > usize::MAX - 2 || io.num_pipes() >= usize::MAX - 1 {
            return Err(KernelError::TableFull);
        }
        let (rh, wh) = io.new_pipe();
        let mut pcb = self.table.remove(cur).unwrap();
        proof {
            pcb.lemma_files_finite();
            lemma_next_key_fresh(pcb@.files.dom());
        }
        let _ = pcb.add_file(rh);
        assert(pcb@.files.dom() =~= files@.dom().insert(rd));
        let _ = pcb.add_file(wh);
        self.table.insert(cur, pcb);
        assert(self.procs().dom() =~= old(self).procs().dom());
        Ok((rd, wr))
    }
}

/// The I/O subsystem has room for two more descriptors and one more pipe.
pub open spec fn io_room(v: IoView) -> bool {
    v.kinds.len() + 2 <= usize::MAX && v.buffers.len() + 1 < usize::MAX
}

} // verus!
