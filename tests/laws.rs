use hilevel::context::Context;
use hilevel::descriptor::{FileError, IOResult};
use hilevel::error::KernelError;
use hilevel::id_table::IdTable;
use hilevel::io::{IoManager, PIPE_BUFFER, UART0_WO};
use hilevel::kernel::{Interrupt, KernelState};
use hilevel::manager::ProcessManager;
use hilevel::process::{adjust_sp, ProcessControlBlock, ProcessStatus, UserStack, DEFAULT_STACK_BYTES};
use hilevel::scheduler::Switch;
use hilevel::syscall::SysCall;
use hilevel::weak_queue::WeakQueue;

fn stack(base: u32) -> UserStack {
    UserStack::new(base, vec![0u8; DEFAULT_STACK_BYTES]).unwrap()
}

/// A kernel running process 0, with `n` more processes forked from it and left
/// ready at the front of the top level.
fn kernel_with(n: u32) -> (KernelState, Context) {
    let mut k = KernelState::new(0x100, stack(0x1000_0000));
    let mut ctx = Context::new(0, 0);
    k.reset(&mut ctx, 0x8000, stack(0x2000_0000)).unwrap();
    for i in 0..n {
        let child = stack(0x4000_0000 + i * 0x10_0000);
        k.service(&mut ctx, 3, Vec::new(), Some(child));
    }
    ctx.gpr[0] = 0;
    (k, ctx)
}

#[test]
fn quantum_demotion_goes_to_back_of_level_one() {
    let (mut k, mut ctx) = kernel_with(2);
    assert_eq!(k.processes().scheduler().queues().level_items(0), vec![2, 1]);
    assert_eq!(k.irq(&mut ctx, Interrupt::Timer), None);
    assert_eq!(k.irq(&mut ctx, Interrupt::Timer), Some(Switch { prev: Some(0), next: 2 }));
    assert_eq!(k.processes().scheduler().queues().level_items(1), vec![0]);
    assert_eq!(k.irq(&mut ctx, Interrupt::Timer), None);
    assert_eq!(k.irq(&mut ctx, Interrupt::Timer), Some(Switch { prev: Some(2), next: 1 }));
    assert_eq!(k.processes().scheduler().queues().level_items(1), vec![0, 2]);
}

#[test]
fn yield_moves_down_other_calls_move_up() {
    let (mut k, mut ctx) = kernel_with(1);
    // A yield within the quantum moves the caller down.
    let sw = k.svc(&mut ctx, 0, Vec::new(), None);
    assert_eq!(sw, Some(Switch { prev: Some(0), next: 1 }));
    assert_eq!(k.processes().scheduler().queues().level_items(1), vec![0]);
    // Process 1 is demoted by the timer, and then process 0 runs on level 1.
    k.irq(&mut ctx, Interrupt::Timer);
    let sw = k.irq(&mut ctx, Interrupt::Timer);
    assert_eq!(sw, Some(Switch { prev: Some(1), next: 0 }));
    assert_eq!(k.processes().scheduler().current().unwrap().level, 1);
    // Another call within the quantum moves the caller up a level.
    let sw = k.svc(&mut ctx, SysCall::Nice as u32, Vec::new(), None);
    assert_eq!(sw, Some(Switch { prev: Some(0), next: 1 }));
    assert_eq!(k.processes().scheduler().queues().level_items(0), vec![0]);
}

#[test]
fn pipe_capacity_and_round_trip() {
    let mut io = IoManager::new();
    let mut procs: IdTable<ProcessControlBlock> = IdTable::new();
    let (r, w) = io.new_pipe();
    let data: Vec<u8> = (0..PIPE_BUFFER + 1).map(|i| (i % 251) as u8).collect();
    let wrote = io.write(w, &data, &mut procs);
    assert_eq!(wrote, Ok(IOResult { bytes: PIPE_BUFFER, blocked: true }));
    let mut into = Vec::new();
    let read = io.read(r, PIPE_BUFFER, &mut into, &mut procs);
    assert_eq!(read, Ok(IOResult { bytes: PIPE_BUFFER, blocked: false }));
    assert_eq!(into[..], data[..PIPE_BUFFER]);
    // A short write then a read of as many bytes returns them in order.
    let wrote = io.write(w, &b"xyz".to_vec(), &mut procs);
    assert_eq!(wrote, Ok(IOResult { bytes: 3, blocked: false }));
    let mut into = Vec::new();
    let read = io.read(r, 5, &mut into, &mut procs);
    assert_eq!(read, Ok(IOResult { bytes: 3, blocked: true }));
    assert_eq!(into, b"xyz".to_vec());
    // The ends refuse the other direction.
    assert_eq!(io.read(w, 1, &mut into, &mut procs), Err(FileError::UnsupportedOperation));
    assert_eq!(io.write(r, &b"q".to_vec(), &mut procs), Err(FileError::UnsupportedOperation));
    assert_eq!(io.read(UART0_WO, 1, &mut into, &mut procs), Err(FileError::UnsupportedOperation));
}

#[test]
fn one_byte_read_unblocks_on_interrupt() {
    let (mut k, mut ctx) = kernel_with(0);
    ctx.gpr[0] = 0;
    ctx.gpr[1] = 0x2000_0010;
    ctx.gpr[2] = 1;
    let sw = k.svc(&mut ctx, 2, Vec::new(), None);
    assert_eq!(sw, Some(Switch { prev: Some(0), next: -1 }));
    assert_eq!(k.processes().process(0).unwrap().status(), ProcessStatus::Blocked);
    let sw = k.irq(&mut ctx, Interrupt::Uart0 { byte: b'z' });
    assert_eq!(sw, Some(Switch { prev: Some(-1), next: 0 }));
    assert_eq!(ctx.gpr[0], 1);
    let stores = k.take_user_writes();
    assert_eq!(stores.len(), 1);
    assert_eq!(stores[0].bytes, vec![b'z']);
}

#[test]
fn killed_process_is_never_selected() {
    let (mut k, mut ctx) = kernel_with(1);
    ctx.gpr[0] = 1;
    k.service(&mut ctx, 6, Vec::new(), None);
    assert_eq!(ctx.gpr[0], 0);
    assert!(k.processes().process(1).is_none());
    assert!(!k.processes().scheduler().contains(1));
    for _ in 0..4 {
        assert_eq!(k.irq(&mut ctx, Interrupt::Timer), None);
    }
    assert_eq!(k.processes().current_process(), Some(0));
}

#[test]
fn manager_errors() {
    let mut pm = ProcessManager::new(0x100, stack(0x1000_0000));
    let ctx = Context::new(0, 0);
    assert_eq!(pm.fork(&ctx, stack(0x3000_0000)), Err(KernelError::NoCurrentProcess));
    assert_eq!(pm.signal(3, 9), Err(KernelError::PidNotFound));
    assert_eq!(pm.close_file(0), Err(KernelError::NoCurrentProcess));
    let pid = pm.create_process(0x8000, IdTable::new(), stack(0x2000_0000)).unwrap();
    assert_eq!(pid, 0);
    let mut live = Context::new(0, 0);
    pm.dispatch(&mut live, hilevel::scheduler::ScheduleSource::Reset);
    let small = UserStack::new(0x3000_0000, vec![0u8; 16]).unwrap();
    assert_eq!(pm.fork(&live, small), Err(KernelError::StackSizeMismatch));
    let mut far = live;
    far.sp = 0x9000_0000;
    assert_eq!(pm.fork(&far, stack(0x3000_0000)), Err(KernelError::StackPointerOutOfRange));
    assert_eq!(pm.close_file(0), Err(KernelError::InvalidDescriptor));
    assert_eq!(pm.signal(0, 9), Ok(()));
}

#[test]
fn adjust_sp_keeps_depth() {
    let a = stack(0x1000);
    let b = stack(0x9000);
    assert_eq!(adjust_sp(&a, &b, 0x1000 + 0xF00), 0x9000 + 0xF00);
    assert_eq!(a.top(), 0x1000 + 0xFFF);
    assert!(UserStack::new(u32::MAX, vec![0u8; 2]).is_none());
    assert!(UserStack::new(0, Vec::new()).is_none());
}

#[test]
fn syscall_numbers() {
    assert_eq!(SysCall::from_u32(0), Some(SysCall::Yield));
    assert_eq!(SysCall::from_u32(9), Some(SysCall::Pipe));
    assert_eq!(SysCall::from_u32(10), None);
}

#[test]
fn weak_queue_skips_gone_entries() {
    let mut table: IdTable<u8> = IdTable::new();
    table.insert(2, 0);
    let mut q = WeakQueue::new();
    q.push_back(1);
    q.push_back(2);
    q.push_back(3);
    assert_eq!(q.len(), 3);
    assert_eq!(q.pop_front(&table), Some(2));
    assert_eq!(q.len(), 1);
    assert_eq!(q.pop_front(&table), None);
    assert!(q.is_empty());
}

#[test]
fn write_ln_appends_line_feed() {
    let mut u = hilevel::uart::PL011::new();
    u.write_ln("ok");
    assert_eq!(u.output(), &b"ok\n".to_vec());
    assert_eq!(u.take_output(), b"ok\n".to_vec());
    assert!(u.output().is_empty());
}

#[test]
fn context_new_is_user_mode() {
    let c = Context::new(0x44, 0x88);
    assert_eq!(c.cpsr, 0x50);
    assert_eq!(c.pc, 0x44);
    assert_eq!(c.sp, 0x88);
    assert_eq!(c.gpr, [0u32; 13]);
    assert_eq!(c.with_result(7).gpr[0], 7);
}

#[test]
fn uart_input_buffer_drops_overflow() {
    let mut io = IoManager::new();
    let mut procs: IdTable<ProcessControlBlock> = IdTable::new();
    for i in 0..(hilevel::io::KEYBOARD_BUFFER + 10) {
        io.on_interrupt(hilevel::io::UART0_RO, (i % 256) as u8, &mut procs);
    }
    let mut into = Vec::new();
    let r = io.read(hilevel::io::UART0_RO, hilevel::io::KEYBOARD_BUFFER + 100, &mut into, &mut procs);
    assert_eq!(r, Ok(IOResult { bytes: hilevel::io::KEYBOARD_BUFFER, blocked: true }));
    assert_eq!(into[..3], [0, 1, 2]);
    // A UART write goes straight to the device.
    let w = io.write(UART0_WO, &b"out".to_vec(), &mut procs);
    assert_eq!(w, Ok(IOResult { bytes: 3, blocked: false }));
    assert_eq!(io.device_output(hilevel::io::UART0), &b"out".to_vec());
}

#[test]
fn other_interrupts_are_ignored() {
    let (mut k, mut ctx) = kernel_with(1);
    let before = ctx;
    assert_eq!(k.irq(&mut ctx, Interrupt::Other), None);
    assert_eq!(ctx.pc, before.pc);
    assert_eq!(k.processes().current_process(), Some(0));
}
