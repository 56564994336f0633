use hilevel::context::Context;
use hilevel::id_table::IdTable;
use hilevel::manager::ProcessManager;
use hilevel::io::UART0;
use hilevel::kernel::{Interrupt, KernelState};
use hilevel::process::{ProcessStatus, UserStack, DEFAULT_STACK_BYTES, IDLE_PID};
use hilevel::scheduler::{ScheduleSource, Switch};
use hilevel::tasks::ERROR_RESULT;

const IDLE_ENTRY: u32 = 0x100;
const MAIN_ENTRY: u32 = 0x8000;

fn stack(base: u32) -> UserStack {
    UserStack::new(base, vec![0u8; DEFAULT_STACK_BYTES]).unwrap()
}

fn booted() -> (KernelState, Context) {
    let mut k = KernelState::new(IDLE_ENTRY, stack(0x1000_0000));
    let mut ctx = Context::new(0, 0);
    let sw = k.reset(&mut ctx, MAIN_ENTRY, stack(0x2000_0000)).unwrap();
    assert_eq!(sw, Some(Switch { prev: None, next: 0 }));
    (k, ctx)
}

fn call(k: &mut KernelState, ctx: &mut Context, id: u32, args: [u32; 3], data: Vec<u8>) -> Option<Switch> {
    ctx.gpr[0] = args[0];
    ctx.gpr[1] = args[1];
    ctx.gpr[2] = args[2];
    k.svc(ctx, id, data, None)
}

#[test]
fn reset_starts_first_process() {
    let (k, ctx) = booted();
    assert_eq!(ctx.pc, MAIN_ENTRY);
    assert_eq!(ctx.sp, 0x2000_0000 + DEFAULT_STACK_BYTES as u32 - 1);
    assert_eq!(k.processes().current_process(), Some(0));
    assert_eq!(k.processes().process(0).unwrap().status(), ProcessStatus::Executing);
}

#[test]
fn s1_one_process_keeps_running() {
    let (mut k, mut ctx) = booted();
    assert_eq!(k.irq(&mut ctx, Interrupt::Timer), None);
    assert_eq!(k.irq(&mut ctx, Interrupt::Timer), None);
    let cur = k.processes().scheduler().current().unwrap();
    assert_eq!(cur.pid, 0);
    assert_eq!(cur.run_count, 2);
    assert_eq!(k.processes().process(0).unwrap().status(), ProcessStatus::Executing);
}

#[test]
fn s2_two_processes_share_the_top_level() {
    let mut k = KernelState::new(IDLE_ENTRY, stack(0x1000_0000));
    let mut ctx = Context::new(0, 0);
    let mut switches = Vec::new();
    switches.push(k.reset(&mut ctx, MAIN_ENTRY, stack(0x2000_0000)).unwrap());
    let p = 0;
    // P forks Q without a scheduling step, so Q waits, ready, on level 0.
    let child = UserStack::new(0x4000_0000, vec![0u8; DEFAULT_STACK_BYTES]).unwrap();
    k.service(&mut ctx, 3, Vec::new(), Some(child));
    let q = ctx.gpr[0] as i32;
    assert_eq!(k.processes().scheduler().queues().level_items(0), vec![q]);
    for _ in 0..3 {
        switches.push(k.irq(&mut ctx, Interrupt::Timer));
    }
    let made: Vec<Switch> = switches.into_iter().flatten().collect();
    assert_eq!(made, vec![Switch { prev: None, next: p }, Switch { prev: Some(p), next: q }]);
    assert_eq!(k.processes().scheduler().queues().level_items(1), vec![p]);
    assert_eq!(k.processes().current_process(), Some(q));
    assert_eq!(k.processes().scheduler().current().unwrap().run_count, 1);
}

#[test]
fn s3_write_to_stdout() {
    let (mut k, mut ctx) = booted();
    let sw = call(&mut k, &mut ctx, 1, [1, 0x2000_0100, 2], b"Hi".to_vec());
    assert_eq!(sw, None);
    assert_eq!(ctx.gpr[0], 2);
    assert_eq!(k.take_device_output(UART0), b"Hi".to_vec());
}

#[test]
fn s4_pipe_round_trip() {
    let (mut k, mut ctx) = booted();
    call(&mut k, &mut ctx, 9, [0x2000_0200, 0, 0], Vec::new());
    assert_eq!(ctx.gpr[0], 0);
    let stores = k.take_user_writes();
    assert_eq!(stores.len(), 1);
    assert_eq!(stores[0].address, 0x2000_0200);
    assert_eq!(stores[0].bytes, vec![4, 0, 0, 0, 5, 0, 0, 0]);
    let (rd, wr) = (4u32, 5u32);
    call(&mut k, &mut ctx, 1, [wr, 0x2000_0300, 3], b"abc".to_vec());
    assert_eq!(ctx.gpr[0], 3);
    call(&mut k, &mut ctx, 2, [rd, 0x2000_0400, 3], Vec::new());
    assert_eq!(ctx.gpr[0], 3);
    let stores = k.take_user_writes();
    assert_eq!(stores.len(), 1);
    assert_eq!(stores[0].pid, 0);
    assert_eq!(stores[0].address, 0x2000_0400);
    assert_eq!(stores[0].bytes, b"abc".to_vec());
}

#[test]
fn s5_blocking_read_from_stdin() {
    let (mut k, mut ctx) = booted();
    let sw = call(&mut k, &mut ctx, 2, [0, 0x2000_0500, 4], Vec::new());
    assert_eq!(k.processes().process(0).unwrap().status(), ProcessStatus::Blocked);
    assert_eq!(sw, Some(Switch { prev: Some(0), next: IDLE_PID }));
    assert_eq!(k.processes().current_process(), None);
    assert_eq!(ctx.pc, IDLE_ENTRY);
    let mut switches = Vec::new();
    for b in b"abcd" {
        switches.push(k.irq(&mut ctx, Interrupt::Uart0 { byte: *b }));
    }
    assert_eq!(switches[..3], [None, None, None]);
    assert_eq!(switches[3], Some(Switch { prev: Some(IDLE_PID), next: 0 }));
    assert_eq!(k.processes().process(0).unwrap().status(), ProcessStatus::Executing);
    assert_eq!(ctx.gpr[0], 4);
    let mut buf = [0u8; 4];
    for w in k.take_user_writes() {
        assert_eq!(w.pid, 0);
        for (i, b) in w.bytes.iter().enumerate() {
            buf[(w.address - 0x2000_0500) as usize + i] = *b;
        }
    }
    assert_eq!(&buf, b"abcd");
}

#[test]
fn s6_fork_returns_child_pid_and_zero() {
    let (mut k, mut ctx) = booted();
    ctx.sp = 0x2000_0000 + 0x800;
    let child = UserStack::new(0x5000_0000, vec![0u8; DEFAULT_STACK_BYTES]).unwrap();
    let sw = k.svc(&mut ctx, 3, Vec::new(), Some(child));
    // The child is ready at the top and the parent was within its quantum.
    assert_eq!(sw, Some(Switch { prev: Some(0), next: 1 }));
    let parent = k.processes().process(0).unwrap();
    assert_eq!(parent.context().gpr[0], 1);
    assert_eq!(ctx.gpr[0], 0);
    assert_eq!(ctx.sp, 0x5000_0000 + 0x800);
    let child = k.processes().process(1).unwrap();
    assert_eq!(child.stack().bytes(), parent.stack().bytes());
    assert_eq!(child.stack().base(), 0x5000_0000);
}

#[test]
fn write_to_unknown_fid_fails() {
    let (mut k, mut ctx) = booted();
    call(&mut k, &mut ctx, 1, [17, 0, 1], b"x".to_vec());
    assert_eq!(ctx.gpr[0], ERROR_RESULT);
    call(&mut k, &mut ctx, 2, [17, 0, 1], Vec::new());
    assert_eq!(ctx.gpr[0], ERROR_RESULT);
}

#[test]
fn read_from_write_only_descriptor_fails() {
    let (mut k, mut ctx) = booted();
    // Identifier 1 is the write-only UART0 descriptor.
    call(&mut k, &mut ctx, 2, [1, 0x2000_0000, 1], Vec::new());
    assert_eq!(ctx.gpr[0], ERROR_RESULT);
    call(&mut k, &mut ctx, 1, [0, 0x2000_0000, 1], b"x".to_vec());
    assert_eq!(ctx.gpr[0], ERROR_RESULT);
}

#[test]
fn kill_and_close() {
    let (mut k, mut ctx) = booted();
    call(&mut k, &mut ctx, 6, [42, 9, 0], Vec::new());
    assert_eq!(ctx.gpr[0], ERROR_RESULT);
    call(&mut k, &mut ctx, 8, [3, 0, 0], Vec::new());
    assert_eq!(ctx.gpr[0], 0);
    call(&mut k, &mut ctx, 8, [3, 0, 0], Vec::new());
    assert_eq!(ctx.gpr[0], ERROR_RESULT);
}

#[test]
fn unknown_call_changes_nothing() {
    let (mut k, mut ctx) = booted();
    let before = ctx;
    let sw = call(&mut k, &mut ctx, 77, [5, 6, 7], Vec::new());
    assert_eq!(sw, None);
    assert_eq!(ctx.gpr[0], 5);
    assert_eq!(ctx.pc, before.pc);
}

#[test]
fn exit_switches_to_idle() {
    let (mut k, mut ctx) = booted();
    let sw = call(&mut k, &mut ctx, 4, [0, 0, 0], Vec::new());
    // The exited process is gone: nothing is saved into it.
    assert_eq!(sw, Some(Switch { prev: None, next: IDLE_PID }));
    assert!(k.processes().process(0).is_none());
    assert_eq!(k.processes().current_process(), None);
}

#[test]
fn exec_restarts_at_entry() {
    let (mut k, mut ctx) = booted();
    ctx.gpr[3] = 99;
    call(&mut k, &mut ctx, 5, [0x7000, 0, 0], Vec::new());
    assert_eq!(ctx.pc, 0x7000);
    assert_eq!(ctx.gpr[3], 0);
    assert_eq!(ctx.sp, 0x2000_0000 + DEFAULT_STACK_BYTES as u32 - 1);
}

#[test]
fn killed_reader_gets_nothing() {
    let (mut k, mut ctx) = booted();
    // Process 0 forks process 1, which then blocks reading stdin.
    let child = UserStack::new(0x6000_0000, vec![0u8; DEFAULT_STACK_BYTES]).unwrap();
    let sw = k.svc(&mut ctx, 3, Vec::new(), Some(child));
    assert_eq!(sw, Some(Switch { prev: Some(0), next: 1 }));
    let sw = call(&mut k, &mut ctx, 2, [0, 0x6000_0010, 1], Vec::new());
    assert_eq!(sw, Some(Switch { prev: Some(1), next: 0 }));
    assert_eq!(k.processes().process(1).unwrap().status(), ProcessStatus::Blocked);
    // Process 0 kills it; a byte that arrives later goes nowhere.
    call(&mut k, &mut ctx, 6, [1, 9, 0], Vec::new());
    assert_eq!(ctx.gpr[0], 0);
    k.irq(&mut ctx, Interrupt::Uart0 { byte: b'k' });
    assert!(k.take_user_writes().is_empty());
    assert!(k.processes().process(1).is_none());
}

#[test]
fn exited_pid_reused_before_dispatch_is_not_clobbered() {
    let mut pm = ProcessManager::new(IDLE_ENTRY, stack(0x1000_0000));
    let mut ctx = Context::new(0, 0);
    assert_eq!(pm.create_process(0x8000, IdTable::new(), stack(0x2000_0000)), Ok(0));
    pm.dispatch(&mut ctx, ScheduleSource::Reset);
    ctx.gpr[4] = 77;
    assert_eq!(pm.exit(0), Ok(()));
    // The table is empty again, so the next process reuses pid 0.
    assert_eq!(pm.create_process(0x9000, IdTable::new(), stack(0x3000_0000)), Ok(0));
    let sw = pm.dispatch(&mut ctx, ScheduleSource::Svc { id: 4 });
    assert_eq!(sw, Some(Switch { prev: None, next: 0 }));
    // The new process starts from its own fresh frame.
    assert_eq!(ctx.pc, 0x9000);
    assert_eq!(ctx.gpr[4], 0);
}
