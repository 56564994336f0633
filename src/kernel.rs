use crate::context::{is_initial, Context};
use crate::error::KernelError;
use crate::id_table::next_key_of;
use crate::io::{
    io_wf, IoManager, UserWrite, STDERR_FILENO, STDIN_FILENO, STDOUT_FILENO, UART0_RO, UART0_WO,
    UART1_FILENO, UART1_RW,
};
use crate::manager::{
    current_file, dispatch_post, io_room, read_call_post, receive_post, running, write_call_post,
    ProcessManager,
};
use crate::io::{forget_spec, FileKind};
use crate::process::{ProcessStatus, ProcessView};
use crate::queues::{push_front_spec, without_spec};
use crate::scheduler::retired_spec;
use crate::manager::{loaded_view, saved_view};
use crate::queues::{first_match_at, outcome_of};
use crate::process::IDLE_PID;
use crate::process::UserStack;
use crate::queues::contains_spec;
use crate::scheduler::{lemma_only_ready, ready_pred, schedule_spec, ScheduleSource, Switch};
use crate::syscall::{syscall_of, SysCall};
use crate::tasks::ERROR_RESULT;
use vstd::prelude::*;

verus! {

/// An interrupt, as the platform layer identified it; a UART interrupt brings
/// the byte read from the device.
#[derive(Clone, Copy, PartialEq, Eq, Structural, Debug)]
pub enum Interrupt {
    Timer,
    Uart0 { byte: u8 },
    Uart1 { byte: u8 },
    Other,
}

/// The four bytes of `u`, least significant first.
pub open spec fn le_bytes(u: u32) -> Seq<u8> {
    seq![
        (u % 256) as u8,
        ((u / 256) % 256) as u8,
        ((u / 65536) % 256) as u8,
        ((u / 16777216) % 256) as u8,
    ]
}

fn push_le_bytes(out: &mut Vec<u8>, u: u32)
    ensures
        final(out)@ == old(out)@ + le_bytes(u),
{
    out.push((u % 256) as u8);
    out.push(((u / 256) % 256) as u8);
    out.push(((u / 65536) % 256) as u8);
    out.push(((u / 16777216) % 256) as u8);
    assert(out@ =~= old(out)@ + le_bytes(u));
}

/// A fork of the running process onto a stack of `child_stack`'s size succeeds.
pub open spec fn fork_succeeds(pm: ProcessManager, ctx: Context, child_stack: UserStack) -> bool {
    match pm.sched().current_spec() {
        Some(c) => {
            &&& !c.retired
            &&& pm.procs().contains_key(c.pid)
            &&& child_stack.len_spec() == pm.procs()[c.pid].stack_spec().len_spec()
            &&& pm.procs()[c.pid].stack_spec().holds(ctx.sp)
            &&& next_key_of(pm.procs().dom()) is Some
        },
        None => false,
    }
}

/// The stores `bytes` into the memory of `pid` at `address` is the one store
/// that `after` adds to `before`.
pub open spec fn one_store(before: Seq<UserWrite>, after: Seq<UserWrite>, pid: i32, address: u32, bytes: Seq<u8>) -> bool {
    &&& after.len() == before.len() + 1
    &&& after.drop_last() == before
    &&& after.last().pid == pid
    &&& after.last().address == address
    &&& after.last().bytes@ == bytes
}

/// What supervisor call `id` does, with `ctx0` the caller's frame, `data` the
/// bytes a write points at and `child_stack` the stack a fork copies into.
/// Results go to `gpr[0]` of the frame, `-1` for an error; a failed call
/// changes nothing else.
pub open spec fn service_post(
    k0: KernelState,
    ctx0: Context,
    k1: KernelState,
    ctx1: Context,
    id: u32,
    data: Seq<u8>,
    child_stack: Option<UserStack>,
) -> bool {
    let pm0 = k0.pm();
    let io0 = k0.io_spec()@;
    let pm1 = k1.pm();
    let io1 = k1.io_spec()@;
    let unchanged = pm1 == pm0 && io1 == io0;
    let fid = ctx0.gpr[0] as i32;
    let failed = unchanged && ctx1 == ctx0.with_result_spec(ERROR_RESULT);
    match syscall_of(id) {
        None => unchanged && ctx1 == ctx0,
        Some(SysCall::Yield) => unchanged && ctx1 == ctx0,
        Some(SysCall::Nice) => unchanged && ctx1 == ctx0,
        Some(SysCall::Write) => match current_file(pm0, io0.kinds.len(), fid) {
            None => failed,
            Some((pid, h)) => data.len() <= u32::MAX ==> exists|r: Option<u32>|
                {
                    &&& write_call_post(io0, io1, pm0.procs(), pm1.procs(), pid, h as int, data, r)
                    &&& pm1.sched() == pm0.sched()
                    &&& pm1.idle_spec() == pm0.idle_spec()
                    &&& ctx1 == match r {
                        Some(v) => ctx0.with_result_spec(v),
                        None => ctx0,
                    }
                },
        },
        Some(SysCall::Read) => match current_file(pm0, io0.kinds.len(), fid) {
            None => failed,
            Some((pid, h)) => exists|r: Option<u32>|
                {
                    &&& read_call_post(
                        io0,
                        io1,
                        pm0.procs(),
                        pm1.procs(),
                        pid,
                        h as int,
                        ctx0.gpr[1],
                        ctx0.gpr[2],
                        r,
                    )
                    &&& pm1.sched() == pm0.sched()
                    &&& pm1.idle_spec() == pm0.idle_spec()
                    &&& ctx1 == match r {
                        Some(v) => ctx0.with_result_spec(v),
                        None => ctx0,
                    }
                },
        },
        Some(SysCall::Fork) => match child_stack {
            Some(s) => if fork_succeeds(pm0, ctx0, s) {
                let pid = next_key_of(pm0.procs().dom()).unwrap();
                let c = pm0.sched().current_spec().unwrap().pid;
                let parent = pm0.procs()[c]@;
                let child = pm1.procs()[pid]@;
                &&& ctx1 == ctx0.with_result_spec(pid as u32)
                &&& io1 == io0
                &&& pm1.procs().dom() == pm0.procs().dom().insert(pid)
                &&& !pm0.procs().contains_key(pid)
                &&& pm1.procs()[c] == pm0.procs()[c]
                &&& child.status == ProcessStatus::Ready
                &&& child.context.gpr[0] == 0
                &&& child.stack_bytes == parent.stack_bytes
                &&& child.files == parent.files
                &&& child.context.sp - child.stack_base == ctx0.sp - parent.stack_base
                &&& pm1.sched().levels() == push_front_spec(pm0.sched().levels(), pid)
                &&& pm1.sched().current_spec() == pm0.sched().current_spec()
                &&& pm1.sched().quanta() == pm0.sched().quanta()
                &&& pm1.sched().boost_counter() == pm0.sched().boost_counter()
                &&& pm1.idle_spec() == pm0.idle_spec()
            } else {
                failed
            },
            None => failed,
        },
        Some(SysCall::Exit) => ctx1 == ctx0 && match running(pm0) {
            Some(c) => {
                &&& pm1.procs() == pm0.procs().remove(c)
                &&& pm1.sched().levels() == pm0.sched().levels()
                &&& pm1.sched().current_spec() == retired_spec(pm0.sched().current_spec(), c)
                &&& io1 == forget_spec(io0, c)
            },
            None => unchanged,
        },
        Some(SysCall::Exec) => unchanged && match running(pm0) {
            Some(c) => is_initial(ctx1, ctx0.gpr[0], pm0.procs()[c].stack_spec().top_spec()),
            None => ctx1 == ctx0,
        },
        Some(SysCall::Kill) => if pm0.procs().contains_key(fid) {
            &&& ctx1 == ctx0.with_result_spec(0)
            &&& pm1.procs() == pm0.procs().remove(fid)
            &&& pm1.sched().levels() == without_spec(pm0.sched().levels(), fid)
            &&& !contains_spec(pm1.sched().levels(), fid)
            &&& pm1.sched().current_spec() == retired_spec(pm0.sched().current_spec(), fid)
            &&& io1 == forget_spec(io0, fid)
        } else {
            failed
        },
        Some(SysCall::Close) => match running(pm0) {
            Some(c) => if pm0.procs()[c]@.files.contains_key(fid) {
                &&& ctx1 == ctx0.with_result_spec(0)
                &&& io1 == io0
                &&& pm1.procs()[c]@ == (ProcessView {
                    files: pm0.procs()[c]@.files.remove(fid),
                    ..pm0.procs()[c]@
                })
                &&& pm1.procs().dom() == pm0.procs().dom()
            } else {
                failed
            },
            None => failed,
        },
        Some(SysCall::Pipe) => match running(pm0) {
            Some(c) => {
                let v = pm0.procs()[c]@;
                let rd = next_key_of(v.files.dom());
                let wr = next_key_of(v.files.dom().insert(rd.unwrap()));
                let k = io0.kinds.len();
                if rd is Some && wr is Some && io_room(io0) {
                    &&& ctx1 == ctx0.with_result_spec(0)
                    &&& pm1.procs()[c]@ == (ProcessView {
                        files: v.files.insert(rd.unwrap(), k as usize).insert(
                            wr.unwrap(),
                            (k + 1) as usize,
                        ),
                        ..v
                    })
                    &&& io1.kinds == io0.kinds.push(
                        FileKind::PipeRead { pipe: io0.buffers.len() as usize },
                    ).push(FileKind::PipeWrite { pipe: io0.buffers.len() as usize })
                    &&& io1.ends == io0.ends.push((k as usize, (k + 1) as usize))
                    &&& io1.buffers == io0.buffers.push(Seq::empty())
                    &&& one_store(
                        io0.user_writes,
                        io1.user_writes,
                        c,
                        ctx0.gpr[0],
                        le_bytes(rd.unwrap() as u32) + le_bytes(wr.unwrap() as u32),
                    )
                } else {
                    failed
                }
            },
            None => failed,
        },
    }
}

/// A byte received on UART descriptor `h`, as `receive_post` says, followed by
/// a run of the scheduler for I/O over the resulting processes.
pub open spec fn received_then_dispatched(
    k0: KernelState,
    ctx0: Context,
    k1: KernelState,
    ctx1: Context,
    h: int,
    byte: u8,
    r: Option<Switch>,
) -> bool {
    exists|m: ProcessManager|
        {
            &&& m.wf()
            &&& receive_post(k0.pm(), k0.io_spec()@, m, k1.io_spec()@, h, byte)
            &&& dispatch_post(m, ctx0, k1.pm(), ctx1, ScheduleSource::Io, r)
        }
}

/// The kernel's state: the processes and the I/O subsystem. Its entry points
/// are the three exception handlers.
pub struct KernelState {
    processes: ProcessManager,
    io: IoManager,
}

impl KernelState {
    pub closed spec fn pm(&self) -> ProcessManager {
        self.processes
    }

    pub closed spec fn io_spec(&self) -> IoManager {
        self.io
    }

    pub open spec fn wf(&self) -> bool {
        &&& self.pm().wf()
        &&& io_wf(self.io_spec()@)
        &&& self.io_spec()@.kinds.len() >= 3
        &&& self.io_spec()@.kinds[UART0_RO as int] is Uart
        &&& self.io_spec()@.kinds[UART1_RW as int] is Uart
    }

    /// No process yet; the idle process starts at `idle_entry` on `idle_stack`.
    pub fn new(idle_entry: u32, idle_stack: UserStack) -> (k: KernelState)
        requires
            idle_stack.wf(),
        ensures
            k.wf(),
            k.pm().procs().is_empty(),
    {
        let k = KernelState { processes: ProcessManager::new(idle_entry, idle_stack), io: IoManager::new() };
        assert(k.pm().procs() =~= Map::<i32, crate::process::ProcessControlBlock>::empty());
        k
    }

    pub fn processes(&self) -> (pm: &ProcessManager)
        ensures
            *pm == self.pm(),
    {
        &self.processes
    }

    pub fn io(&self) -> (io: &IoManager)
        ensures
            *io == self.io_spec(),
    {
        &self.io
    }

    /// The stores into process memory asked for so far, handed over.
    pub fn take_user_writes(&mut self) -> (w: Vec<UserWrite>)
        requires
            old(self).wf(),
        ensures
            final(self).wf(),
            w@ == old(self).io_spec()@.user_writes,
    {
        self.io.take_user_writes()
    }

    /// The bytes handed to UART `d`, handed over.
    pub fn take_device_output(&mut self, d: usize) -> (o: Vec<u8>)
        requires
            old(self).wf(),
            d < old(self).io_spec()@.devices.len(),
        ensures
            final(self).wf(),
            o@ == old(self).io_spec()@.devices[d as int],
    {
        self.io.take_device_output(d)
    }

    /// Bring-up: creates the first process, which starts at `entry` on `stack`
    /// with the default file table, and dispatches it.
    pub fn reset(&mut self, ctx: &mut Context, entry: u32, stack: UserStack) -> (r: Result<
        Option<Switch>,
        KernelError,
    >)
        requires
            old(self).wf(),
            stack.wf(),
        ensures
            final(self).wf(),
            old(self).pm().procs().is_empty() ==> {
                &&& r == Ok::<Option<Switch>, KernelError>(Some(Switch { prev: None, next: 0 }))
                &&& is_initial(*final(ctx), entry, stack.top_spec())
                &&& final(self).pm().sched().current_spec() matches Some(c) && c.pid == 0
                &&& final(self).pm().procs().dom() == set![0i32]
                &&& final(self).pm().procs()[0]@.status == ProcessStatus::Executing
                &&& final(self).pm().procs()[0]@.files == map![
                    STDIN_FILENO => UART0_RO,
                    STDOUT_FILENO => UART0_WO,
                    STDERR_FILENO => UART0_WO,
                    UART1_FILENO => UART1_RW,
                ]
            },
    {
        let files = self.io.default_files();
        let ghost pm0 = self.pm();
        self.processes.create_process(entry, files, stack)?;
        proof {
            if pm0.procs().is_empty() {
                assert(pm0.procs().dom() =~= Set::<i32>::empty());
                let pm1 = self.pm();
                let lv = pm1.sched().levels();
                assert(contains_spec(lv, 0)) by {
                    if !contains_spec(pm0.sched().levels(), 0) {
                        assert(lv[0][0] == 0);
                    }
                }
                assert forall|q: i32| contains_spec(lv, q) && ready_pred(pm1.procs())(q) implies q == 0 by {
                    assert(pm1.procs().contains_key(q));
                }
                lemma_only_ready(lv, ready_pred(pm1.procs()), 0);
                assert(pm1.procs().dom() =~= set![0i32]);
            }
        }
        let ghost pm1 = self.pm();
        let r = self.processes.dispatch(ctx, ScheduleSource::Reset);
        proof {
            if pm0.procs().is_empty() {
                assert(pm1.all_views().contains_key(0));
                assert(self.pm().all_views()[0] == self.pm().procs()[0]@);
                assert(pm1.all_views()[0] == pm1.procs()[0]@);
            }
        }
        Ok(r)
    }

    /// The interrupt handler: a timer tick runs the scheduler; a byte from a
    /// UART goes to its input descriptor, whose waiting readers are retried, and
    /// the scheduler runs for I/O; other interrupts are ignored.
    pub fn irq(&mut self, ctx: &mut Context, irq: Interrupt) -> (r: Option<Switch>)
        requires
            old(self).wf(),
        ensures
            final(self).wf(),
            irq == Interrupt::Other ==> r is None && *final(ctx) == *old(ctx) && *final(self)
                == *old(self),
            irq == Interrupt::Timer ==> ({
                let pm = old(self).pm();
                let (lv, cur, b, sw) = schedule_spec(
                    pm.sched().levels(),
                    pm.sched().quanta(),
                    pm.sched().current_spec(),
                    pm.sched().boost_counter(),
                    ScheduleSource::Timer,
                    pm.procs(),
                );
                &&& final(self).pm().sched().levels() == lv
                &&& final(self).pm().sched().current_spec() == cur
                &&& r == sw
            }),
            irq == Interrupt::Timer ==> dispatch_post(
                old(self).pm(),
                *old(ctx),
                final(self).pm(),
                *final(ctx),
                ScheduleSource::Timer,
                r,
            ) && final(self).io_spec() == old(self).io_spec(),
            match irq {
                Interrupt::Uart0 { byte } => received_then_dispatched(
                    *old(self),
                    *old(ctx),
                    *final(self),
                    *final(ctx),
                    UART0_RO as int,
                    byte,
                    r,
                ),
                Interrupt::Uart1 { byte } => received_then_dispatched(
                    *old(self),
                    *old(ctx),
                    *final(self),
                    *final(ctx),
                    UART1_RW as int,
                    byte,
                    r,
                ),
                _ => true,
            },
    {
        match irq {
            Interrupt::Timer => self.processes.dispatch(ctx, ScheduleSource::Timer),
            Interrupt::Uart0 { byte } => {
                self.processes.receive(&mut self.io, UART0_RO, byte);
                let ghost m = self.pm();
                let r = self.processes.dispatch(ctx, ScheduleSource::Io);
                assert(receive_post(old(self).pm(), old(self).io_spec()@, m, self.io_spec()@, UART0_RO as int, byte));
                r
            },
            Interrupt::Uart1 { byte } => {
                self.processes.receive(&mut self.io, UART1_RW, byte);
                let ghost m = self.pm();
                let r = self.processes.dispatch(ctx, ScheduleSource::Io);
                assert(receive_post(old(self).pm(), old(self).io_spec()@, m, self.io_spec()@, UART1_RW as int, byte));
                r
            },
            Interrupt::Other => None,
        }
    }

    /// The supervisor call handler: carries out call `id` with its arguments in
    /// `ctx.gpr`, then runs the scheduler. `data` holds the bytes a `Write` call
    /// points at, and `child_stack` the stack a `Fork` call copies into.
    pub fn svc(
        &mut self,
        ctx: &mut Context,
        id: u32,
        data: Vec<u8>,
        child_stack: Option<UserStack>,
    ) -> (r: Option<Switch>)
        requires
            old(self).wf(),
            child_stack matches Some(s) ==> s.wf(),
        ensures
            final(self).wf(),
            exists|k: KernelState, c: Context|
                {
                    &&& k.wf()
                    &&& service_post(*old(self), *old(ctx), k, c, id, data@, child_stack)
                    &&& dispatch_post(
                        k.pm(),
                        c,
                        final(self).pm(),
                        *final(ctx),
                        ScheduleSource::Svc { id },
                        r,
                    )
                    &&& final(self).io_spec() == k.io_spec()
                },
            syscall_of(id) == Some(SysCall::Fork) ==> match child_stack {
                Some(s) => fork_succeeds(old(self).pm(), *old(ctx), s) ==> {
                    let pid = next_key_of(old(self).pm().procs().dom()).unwrap();
                    let c = old(self).pm().sched().current_spec().unwrap().pid;
                    &&& r == Some(Switch { prev: Some(c), next: pid })
                    &&& final(self).pm().procs()[c]@.context.gpr[0] == pid as u32
                    &&& final(self).pm().procs()[pid]@.status == ProcessStatus::Executing
                    &&& final(ctx).gpr[0] == 0
                },
                None => true,
            },
    {
        let ghost d = data@;
        let ghost cs = child_stack;
        let ghost s0 = *self;
        let ghost c0 = *ctx;
        self.service(ctx, id, data, child_stack);
        let ghost k = *self;
        let ghost c = *ctx;
        proof {
            if syscall_of(id) == Some(SysCall::Fork) {
                match cs {
                    Some(st) => {
                        if fork_succeeds(s0.pm(), c0, st) {
                            let pid = next_key_of(s0.pm().procs().dom()).unwrap();
                            let lv = k.pm().sched().levels();
                            assert(lv[0][0] == pid);
                            assert(first_match_at(lv, outcome_of(ready_pred(k.pm().procs())), 0, 0));
                            crate::queues::lemma_pop_first_spec(lv, ready_pred(k.pm().procs()), 0, 0);
                        }
                    },
                    None => {},
                }
            }
        }
        let r = self.processes.dispatch(ctx, ScheduleSource::Svc { id });
        proof {
            assert(service_post(s0, c0, k, c, id, d, cs));
            if syscall_of(id) == Some(SysCall::Fork) {
                match cs {
                    Some(st) => {
                        if fork_succeeds(s0.pm(), c0, st) {
                            let pid = next_key_of(s0.pm().procs().dom()).unwrap();
                            let cp = s0.pm().sched().current_spec().unwrap().pid;
                            let m0 = k.pm().all_views();
                            assert(cp != IDLE_PID && pid != IDLE_PID && cp != pid);
                            assert(m0[cp] == k.pm().procs()[cp]@);
                            assert(m0.contains_key(pid));
                            assert(self.pm().procs().contains_key(cp));
                            assert(self.pm().all_views()[cp] == self.pm().procs()[cp]@);
                            assert(self.pm().all_views()[pid] == self.pm().procs()[pid]@);
                            assert(k.pm().sched().current_spec() == s0.pm().sched().current_spec());
                            assert(r == Some(Switch { prev: Some(cp), next: pid }));
                            let m1 = m0.insert(cp, saved_view(m0[cp], c));
                            assert(self.pm().all_views() == m1.insert(pid, loaded_view(m1[pid])));
                            assert(self.pm().procs()[cp]@.context == c);
                            assert(c.gpr[0] == pid as u32);
                            assert(*ctx == k.pm().procs()[pid]@.context);
                            assert(ctx.gpr[0] == 0);
                        }
                    },
                    None => {},
                }
            }
        }
        r
    }

    /// Carries out supervisor call `id` for the running process, whose live
    /// frame is `ctx`; results go to `ctx.gpr[0]`, `-1` for an error. The
    /// tasks of a process that exits or is killed are dropped.
    pub fn service(&mut self, ctx: &mut Context, id: u32, data: Vec<u8>, child_stack: Option<UserStack>)
        requires
            old(self).wf(),
            child_stack matches Some(s) ==> s.wf(),
        ensures
            final(self).wf(),
            service_post(*old(self), *old(ctx), *final(self), *final(ctx), id, data@, child_stack),
    {
        let ghost d = data@;
        let ghost cs = child_stack;
        let call = match SysCall::from_u32(id) {
            Some(c) => c,
            None => return,
        };
        match call {
            SysCall::Yield => {
                proof { assert(service_post(*old(self), *old(ctx), *self, *ctx, id, d, cs)); }
            },
            SysCall::Nice => {
                proof { assert(service_post(*old(self), *old(ctx), *self, *ctx, id, d, cs)); }
            },
            SysCall::Write => {
                let fid = #[verifier::truncate] (ctx.gpr[0] as i32);
                assert(fid == old(ctx).gpr[0] as i32);
                let r = self.processes.write_file(&mut self.io, fid, data);
                match r {
                    Some(v) => {
                        *ctx = ctx.with_result(v);
                    },
                    None => {},
                }
                proof {
                    assert(*ctx == match r {
                        Some(v) => old(ctx).with_result_spec(v),
                        None => *old(ctx),
                    });
                    match current_file(old(self).pm(), old(self).io_spec()@.kinds.len(), fid) {
                        Some((pid, h)) => {
                            if d.len() <= u32::MAX {
                                assert(write_call_post(
                                    old(self).io_spec()@,
                                    self.io_spec()@,
                                    old(self).pm().procs(),
                                    self.pm().procs(),
                                    pid,
                                    h as int,
                                    d,
                                    r,
                                ));
                            }
                        },
                        None => {},
                    }
                    assert(service_post(*old(self), *old(ctx), *self, *ctx, id, d, cs));
                }
            },
            SysCall::Read => {
                let fid = #[verifier::truncate] (ctx.gpr[0] as i32);
                let address = ctx.gpr[1];
                let length = ctx.gpr[2];
                assert(fid == old(ctx).gpr[0] as i32);
                let r = self.processes.read_file(&mut self.io, fid, address, length);
                match r {
                    Some(v) => {
                        *ctx = ctx.with_result(v);
                    },
                    None => {},
                }
                proof {
                    assert(*ctx == match r {
                        Some(v) => old(ctx).with_result_spec(v),
                        None => *old(ctx),
                    });
                    match current_file(old(self).pm(), old(self).io_spec()@.kinds.len(), fid) {
                        Some((pid, h)) => {
                            assert(read_call_post(
                                old(self).io_spec()@,
                                self.io_spec()@,
                                old(self).pm().procs(),
                                self.pm().procs(),
                                pid,
                                h as int,
                                address,
                                length,
                                r,
                            ));
                        },
                        None => {},
                    }
                    assert(service_post(*old(self), *old(ctx), *self, *ctx, id, d, cs));
                }
            },
            SysCall::Fork => {
                let v = match child_stack {
                    Some(s) => match self.processes.fork(ctx, s) {
                        Ok(pid) => {
                            assert(pid as u32 == #[verifier::truncate] (pid as u32));
                            #[verifier::truncate] (pid as u32)
                        },
                        Err(_) => ERROR_RESULT,
                    },
                    None => ERROR_RESULT,
                };
                *ctx = ctx.with_result(v);
                proof {
                    match cs {
                        Some(s) => {
                            if fork_succeeds(old(self).pm(), *old(ctx), s) {
                                let pid = next_key_of(old(self).pm().procs().dom()).unwrap();
                                let c = old(self).pm().sched().current_spec().unwrap().pid;
                                assert(c != pid);
                                assert(self.io_spec() == old(self).io_spec());
                                assert(self.pm().procs()[c] == old(self).pm().procs()[c]);
                                assert(*ctx == old(ctx).with_result_spec(pid as u32));
                                let child = self.pm().procs()[pid]@;
                                let parent = old(self).pm().procs()[c]@;
                                assert(child.context.gpr@ == old(ctx).gpr@.update(0, 0));
                                assert(child.context.gpr@[0] == 0);
                                assert(child.context.gpr[0] == 0);
                                assert(child.status == ProcessStatus::Ready);
                                assert(child.stack_bytes == parent.stack_bytes);
                                assert(child.files == parent.files);
                                assert(child.context.sp - child.stack_base == old(ctx).sp - parent.stack_base);
                                assert(self.pm().sched().levels() == push_front_spec(old(self).pm().sched().levels(), pid));
                                assert(self.pm().idle_spec() == old(self).pm().idle_spec());
                                assert(self.pm().sched().quanta() == old(self).pm().sched().quanta());
                                assert(self.pm().sched().boost_counter() == old(self).pm().sched().boost_counter());
                                assert(self.pm().procs().dom() == old(self).pm().procs().dom().insert(pid));
                            }
                        },
                        None => {},
                    }
                    assert(service_post(*old(self), *old(ctx), *self, *ctx, id, d, cs));
                }
            },
            SysCall::Exit => {
                let code = ctx.gpr[0];
                let cur = self.processes.current_process();
                if let (Some(pid), Ok(())) = (cur, self.processes.exit(code)) {
                    self.io.forget_process(pid);
                }
                proof { assert(service_post(*old(self), *old(ctx), *self, *ctx, id, d, cs)); }
            },
            SysCall::Exec => {
                let entry = ctx.gpr[0];
                let _ = self.processes.exec(ctx, entry);
                proof { assert(service_post(*old(self), *old(ctx), *self, *ctx, id, d, cs)); }
            },
            SysCall::Kill => {
                let pid = #[verifier::truncate] (ctx.gpr[0] as i32);
                let sig = #[verifier::truncate] (ctx.gpr[1] as i32);
                let v = match self.processes.signal(pid, sig) {
                    Ok(()) => {
                        self.io.forget_process(pid);
                        0
                    },
                    Err(_) => ERROR_RESULT,
                };
                *ctx = ctx.with_result(v);
                proof { assert(service_post(*old(self), *old(ctx), *self, *ctx, id, d, cs)); }
            },
            SysCall::Close => {
                let fid = #[verifier::truncate] (ctx.gpr[0] as i32);
                let v = match self.processes.close_file(fid) {
                    Ok(()) => 0,
                    Err(_) => ERROR_RESULT,
                };
                *ctx = ctx.with_result(v);
                proof { assert(service_post(*old(self), *old(ctx), *self, *ctx, id, d, cs)); }
            },
            SysCall::Pipe => {
                let address = ctx.gpr[0];
                let v = match self.processes.open_pipe(&mut self.io) {
                    Ok((rd, wr)) => {
                        let mut bytes: Vec<u8> = Vec::new();
                        push_le_bytes(&mut bytes, #[verifier::truncate] (rd as u32));
                        push_le_bytes(&mut bytes, #[verifier::truncate] (wr as u32));
                        let pid = self.processes.current_process().unwrap();
                        self.io.store(pid, address, bytes);
                        0
                    },
                    Err(_) => ERROR_RESULT,
                };
                *ctx = ctx.with_result(v);
                proof { assert(service_post(*old(self), *old(ctx), *self, *ctx, id, d, cs)); }
            },
        }
    }
}

} // verus!
