use crate::descriptor::{FileError, IOResult};
use crate::id_table::IdTable;
use crate::process::{
    blocked_view, table_updated, table_wf, unblocked_view, ProcessControlBlock,
};
use crate::tasks::{ReadTask, TaskBase, WriteTask, ERROR_RESULT};
use crate::uart::PL011;
use std::collections::VecDeque;
use vstd::prelude::*;

verus! {

/// Capacity of a UART descriptor's input buffer; later bytes are dropped.
pub const KEYBOARD_BUFFER: usize = 4096;

/// Capacity of a pipe.
pub const PIPE_BUFFER: usize = 4096;

/// Handle of the read-only UART0 descriptor.
pub const UART0_RO: usize = 0;

/// Handle of the write-only UART0 descriptor.
pub const UART0_WO: usize = 1;

/// Handle of the read-write UART1 descriptor.
pub const UART1_RW: usize = 2;

/// Index of the first UART device.
pub const UART0: usize = 0;

/// Index of the second UART device.
pub const UART1: usize = 1;

/// Default file identifiers of the first process.
pub const STDIN_FILENO: i32 = 0;

pub const STDOUT_FILENO: i32 = 1;

pub const STDERR_FILENO: i32 = 2;

/// Identifier of the UART1 descriptor in the default file table.
pub const UART1_FILENO: i32 = 3;

/// What a file descriptor stands for.
#[derive(Clone, Copy, PartialEq, Eq, Structural, Debug)]
pub enum FileKind {
    /// A UART device, readable and/or writable.
    Uart { device: usize, can_read: bool, can_write: bool },
    /// The read end of a pipe.
    PipeRead { pipe: usize },
    /// The write end of a pipe.
    PipeWrite { pipe: usize },
}

/// Bytes to be stored in a process's memory at `address`.
pub struct UserWrite {
    pub pid: i32,
    pub address: u32,
    pub bytes: Vec<u8>,
}

/// A file descriptor: its kind, the input buffer of a UART, and the read and
/// write tasks waiting on it, oldest first.
pub struct FileDescriptor {
    kind: FileKind,
    input: VecDeque<u8>,
    pending_reads: Vec<ReadTask>,
    pending_writes: Vec<WriteTask>,
}

/// An unnamed pipe: a bounded byte queue and the handles of its two ends.
pub struct UnnamedPipe {
    buffer: VecDeque<u8>,
    read_end: usize,
    write_end: usize,
}

/// The state of the I/O subsystem as plain values. Descriptors, pipes and
/// devices are named by their index.
pub ghost struct IoView {
    pub kinds: Seq<FileKind>,
    pub inputs: Seq<Seq<u8>>,
    pub reads: Seq<Seq<ReadTask>>,
    pub writes: Seq<Seq<WriteTask>>,
    pub buffers: Seq<Seq<u8>>,
    pub ends: Seq<(usize, usize)>,
    pub devices: Seq<Seq<u8>>,
    pub user_writes: Seq<UserWrite>,
}

pub open spec fn kind_wf(v: IoView, k: FileKind) -> bool {
    match k {
        FileKind::Uart { device, .. } => device < v.devices.len(),
        FileKind::PipeRead { pipe } => pipe < v.buffers.len(),
        FileKind::PipeWrite { pipe } => pipe < v.buffers.len(),
    }
}

pub open spec fn io_wf(v: IoView) -> bool {
    &&& v.inputs.len() == v.kinds.len()
    &&& v.reads.len() == v.kinds.len()
    &&& v.writes.len() == v.kinds.len()
    &&& v.ends.len() == v.buffers.len()
    &&& v.buffers.len() < usize::MAX
    &&& forall|h: int| 0 <= h < v.kinds.len() ==> kind_wf(v, #[trigger] v.kinds[h])
    &&& forall|h: int| 0 <= h < v.kinds.len() ==> (#[trigger] v.inputs[h]).len() <= KEYBOARD_BUFFER
    &&& forall|h: int, i: int|
        0 <= h < v.kinds.len() && 0 <= i < v.reads[h].len() ==> (#[trigger] v.reads[h][i]).wf()
    &&& forall|h: int, i: int|
        0 <= h < v.kinds.len() && 0 <= i < v.writes[h].len() ==> (#[trigger] v.writes[h][i]).wf()
    &&& forall|p: int|
        0 <= p < v.buffers.len() ==> (#[trigger] v.ends[p]).0 < v.kinds.len() && v.ends[p].1
            < v.kinds.len()
    &&& forall|p: int| 0 <= p < v.buffers.len() ==> (#[trigger] v.buffers[p]).len() <= PIPE_BUFFER
}

/// Same descriptors, pipes and devices, whatever they hold.
pub open spec fn same_shape(a: IoView, b: IoView) -> bool {
    &&& a.kinds == b.kinds
    &&& a.ends == b.ends
    &&& a.devices.len() == b.devices.len()
}

pub open spec fn can_read(k: FileKind) -> bool {
    match k {
        FileKind::Uart { can_read, .. } => can_read,
        FileKind::PipeRead { .. } => true,
        FileKind::PipeWrite { .. } => false,
    }
}

pub open spec fn can_write(k: FileKind) -> bool {
    match k {
        FileKind::Uart { can_write, .. } => can_write,
        FileKind::PipeRead { .. } => false,
        FileKind::PipeWrite { .. } => true,
    }
}

pub open spec fn min(a: int, b: int) -> int {
    if a < b {
        a
    } else {
        b
    }
}

/// How many bytes a read of `max` bytes takes from a queue of `avail` bytes.
pub open spec fn drained(max: int, avail: int) -> int {
    min(max, avail)
}

/// How many of `len` bytes fit in a queue of capacity `cap` holding `held`.
pub open spec fn filled(len: int, cap: int, held: int) -> int {
    min(len, cap - held)
}

/// A UART read of up to `max` bytes: it drains the input buffer of descriptor
/// `h` into `into` and blocks when the buffer runs dry first.
pub open spec fn uart_read_post(
    before: IoView,
    after: IoView,
    h: int,
    max: int,
    into0: Seq<u8>,
    into1: Seq<u8>,
    r: IOResult,
) -> bool {
    let input = before.inputs[h];
    let n = drained(max, input.len() as int);
    &&& r == IOResult { bytes: n as usize, blocked: input.len() < max }
    &&& into1 == into0 + input.take(n)
    &&& after == IoView { inputs: before.inputs.update(h, input.skip(n)), ..before }
}

/// A pipe read of up to `max` bytes that wakes nobody: it drains pipe `pipe`
/// into `into` and blocks when the pipe runs dry first.
pub open spec fn pipe_read_post(
    before: IoView,
    after: IoView,
    pipe: int,
    max: int,
    into0: Seq<u8>,
    into1: Seq<u8>,
    r: IOResult,
) -> bool {
    let buf = before.buffers[pipe];
    let n = drained(max, buf.len() as int);
    &&& r == IOResult { bytes: n as usize, blocked: buf.len() < max }
    &&& into1 == into0 + buf.take(n)
    &&& after == IoView { buffers: before.buffers.update(pipe, buf.skip(n)), ..before }
}

/// A UART write: every byte of `data` goes to device `device`.
pub open spec fn uart_write_post(
    before: IoView,
    after: IoView,
    device: int,
    data: Seq<u8>,
    r: IOResult,
) -> bool {
    &&& r == IOResult { bytes: data.len() as usize, blocked: false }
    &&& after == IoView {
        devices: before.devices.update(device, before.devices[device] + data),
        ..before
    }
}

/// A pipe write that wakes nobody: as many bytes of `data` as fit go into pipe
/// `pipe`, and it blocks when the pipe fills first.
pub open spec fn pipe_write_post(
    before: IoView,
    after: IoView,
    pipe: int,
    data: Seq<u8>,
    r: IOResult,
) -> bool {
    let buf = before.buffers[pipe];
    let n = filled(data.len() as int, PIPE_BUFFER as int, buf.len() as int);
    &&& r == IOResult { bytes: n as usize, blocked: n < data.len() }
    &&& after == IoView { buffers: before.buffers.update(pipe, buf + data.take(n)), ..before }
}

/// A read of up to `max` bytes that moved `io.bytes` of them: `into` grew by
/// exactly that many, and the read blocked exactly when it moved fewer.
pub open spec fn moved(into0: Seq<u8>, into1: Seq<u8>, io: IOResult, max: int) -> bool {
    &&& into1.len() == into0.len() + io.bytes
    &&& into1.subrange(0, into0.len() as int) == into0
    &&& (io.blocked <==> io.bytes < max)
}

/// Nobody waits to write on the pipe's write end, or reads do not wake writers.
pub open spec fn read_quiet(v: IoView, pipe: int, notify: bool) -> bool {
    !notify || v.writes[v.ends[pipe].1 as int].len() == 0
}

/// Nobody waits to read on the pipe's read end, or writes do not wake readers.
pub open spec fn write_quiet(v: IoView, pipe: int, notify: bool) -> bool {
    !notify || v.reads[v.ends[pipe].0 as int].len() == 0
}

/// What a read on descriptor `h` does: a UART that may be read, and a pipe read
/// end that wakes nobody, move bytes as above; a descriptor that cannot be read
/// fails with `UnsupportedOperation` and changes nothing.
pub open spec fn read_post(
    before: IoView,
    after: IoView,
    h: int,
    max: int,
    notify: bool,
    into0: Seq<u8>,
    into1: Seq<u8>,
    r: Result<IOResult, FileError>,
) -> bool {
    match before.kinds[h] {
        FileKind::Uart { can_read, .. } => if can_read {
            r matches Ok(io) && uart_read_post(before, after, h, max, into0, into1, io)
        } else {
            r == Err::<IOResult, FileError>(FileError::UnsupportedOperation) && after == before
                && into1 == into0
        },
        FileKind::PipeRead { pipe } => r matches Ok(io) && (read_quiet(before, pipe as int, notify)
            ==> pipe_read_post(before, after, pipe as int, max, into0, into1, io)),
        FileKind::PipeWrite { .. } => r == Err::<IOResult, FileError>(
            FileError::UnsupportedOperation,
        ) && after == before && into1 == into0,
    }
}

/// What a write of `data` on descriptor `h` does, in the same way.
pub open spec fn write_post(
    before: IoView,
    after: IoView,
    h: int,
    data: Seq<u8>,
    notify: bool,
    r: Result<IOResult, FileError>,
) -> bool {
    match before.kinds[h] {
        FileKind::Uart { device, can_write, .. } => if can_write {
            r matches Ok(io) && uart_write_post(before, after, device as int, data, io)
        } else {
            r == Err::<IOResult, FileError>(FileError::UnsupportedOperation) && after == before
        },
        FileKind::PipeWrite { pipe } => r matches Ok(io) && (write_quiet(before, pipe as int, notify)
            ==> pipe_write_post(before, after, pipe as int, data, io)),
        FileKind::PipeRead { .. } => r == Err::<IOResult, FileError>(
            FileError::UnsupportedOperation,
        ) && after == before,
    }
}

/// The subsystem: the UART devices, the descriptors, the pipes, and the stores
/// into process memory that completed reads ask for, oldest first.
pub struct IoManager {
    devices: Vec<PL011>,
    files: Vec<FileDescriptor>,
    pipes: Vec<UnnamedPipe>,
    user_writes: Vec<UserWrite>,
}

impl View for IoManager {
    type V = IoView;

    closed spec fn view(&self) -> IoView {
        IoView {
            kinds: Seq::new(self.files@.len(), |h: int| self.files@[h].kind),
            inputs: Seq::new(self.files@.len(), |h: int| self.files@[h].input@),
            reads: Seq::new(self.files@.len(), |h: int| self.files@[h].pending_reads@),
            writes: Seq::new(self.files@.len(), |h: int| self.files@[h].pending_writes@),
            buffers: Seq::new(self.pipes@.len(), |p: int| self.pipes@[p].buffer@),
            ends: Seq::new(
                self.pipes@.len(),
                |p: int| (self.pipes@[p].read_end, self.pipes@[p].write_end),
            ),
            devices: Seq::new(self.devices@.len(), |d: int| self.devices@[d]@),
            user_writes: self.user_writes@,
        }
    }
}

impl IoManager {
    /// Two UARTs; UART0 read-only and write-only descriptors, and a read-write
    /// descriptor of UART1; no pipes.
    pub fn new() -> (io: IoManager)
        ensures
            io_wf(io@),
            io@.kinds == seq![
                FileKind::Uart { device: UART0, can_read: true, can_write: false },
                FileKind::Uart { device: UART0, can_read: false, can_write: true },
                FileKind::Uart { device: UART1, can_read: true, can_write: true },
            ],
            io@.inputs == seq![Seq::<u8>::empty(), Seq::<u8>::empty(), Seq::<u8>::empty()],
            io@.reads == seq![Seq::<ReadTask>::empty(), Seq::<ReadTask>::empty(), Seq::<ReadTask>::empty()],
            io@.writes == seq![Seq::<WriteTask>::empty(), Seq::<WriteTask>::empty(), Seq::<WriteTask>::empty()],
            io@.buffers == Seq::<Seq<u8>>::empty(),
            io@.devices == seq![Seq::<u8>::empty(), Seq::<u8>::empty()],
            io@.user_writes == Seq::<UserWrite>::empty(),
    {
        let mut devices: Vec<PL011> = Vec::new();
        devices.push(PL011::new());
        devices.push(PL011::new());
        let mut files: Vec<FileDescriptor> = Vec::new();
        files.push(IoManager::descriptor(FileKind::Uart { device: UART0, can_read: true, can_write: false }));
        files.push(IoManager::descriptor(FileKind::Uart { device: UART0, can_read: false, can_write: true }));
        files.push(IoManager::descriptor(FileKind::Uart { device: UART1, can_read: true, can_write: true }));
        let io = IoManager { devices, files, pipes: Vec::new(), user_writes: Vec::new() };
        assert(io@.kinds =~= seq![
            FileKind::Uart { device: UART0, can_read: true, can_write: false },
            FileKind::Uart { device: UART0, can_read: false, can_write: true },
            FileKind::Uart { device: UART1, can_read: true, can_write: true },
        ]);
        assert(io@.inputs =~= seq![Seq::<u8>::empty(), Seq::<u8>::empty(), Seq::<u8>::empty()]);
        assert(io@.reads =~= seq![Seq::<ReadTask>::empty(), Seq::<ReadTask>::empty(), Seq::<ReadTask>::empty()]);
        assert(io@.writes =~= seq![Seq::<WriteTask>::empty(), Seq::<WriteTask>::empty(), Seq::<WriteTask>::empty()]);
        assert(io@.buffers =~= Seq::<Seq<u8>>::empty());
        assert(io@.devices =~= seq![Seq::<u8>::empty(), Seq::<u8>::empty()]);
        io
    }

    fn descriptor(kind: FileKind) -> (f: FileDescriptor)
        ensures
            f.kind == kind,
            f.input@ == Seq::<u8>::empty(),
            f.pending_reads@ == Seq::<ReadTask>::empty(),
            f.pending_writes@ == Seq::<WriteTask>::empty(),
    {
        FileDescriptor {
            kind,
            input: VecDeque::new(),
            pending_reads: Vec::new(),
            pending_writes: Vec::new(),
        }
    }

    /// The default file table of the first process: standard input on the
    /// read-only UART0 descriptor, standard output and error on the write-only
    /// one, and identifier 3 on UART1.
    pub fn default_files(&self) -> (t: IdTable<usize>)
        ensures
            t@ == map![
                STDIN_FILENO => UART0_RO,
                STDOUT_FILENO => UART0_WO,
                STDERR_FILENO => UART0_WO,
                UART1_FILENO => UART1_RW,
            ],
    {
        let mut t: IdTable<usize> = IdTable::new();
        t.insert(STDIN_FILENO, UART0_RO);
        t.insert(STDOUT_FILENO, UART0_WO);
        t.insert(STDERR_FILENO, UART0_WO);
        t.insert(UART1_FILENO, UART1_RW);
        assert(t@ =~= map![
            STDIN_FILENO => UART0_RO,
            STDOUT_FILENO => UART0_WO,
            STDERR_FILENO => UART0_WO,
            UART1_FILENO => UART1_RW,
        ]);
        t
    }

    pub fn num_pipes(&self) -> (n: usize)
        ensures
            n == self@.buffers.len(),
    {
        self.pipes.len()
    }

    pub fn num_files(&self) -> (n: usize)
        ensures
            n == self@.kinds.len(),
    {
        self.files.len()
    }

    pub fn kind(&self, h: usize) -> (k: FileKind)
        requires
            h < self@.kinds.len(),
        ensures
            k == self@.kinds[h as int],
    {
        self.files[h].kind
    }

    /// The bytes handed to device `d` and not yet taken.
    pub fn device_output(&self, d: usize) -> (o: &Vec<u8>)
        requires
            d < self@.devices.len(),
        ensures
            o@ == self@.devices[d as int],
    {
        self.devices[d].output()
    }

    /// The bytes handed to device `d`, handed over and forgotten.
    pub fn take_device_output(&mut self, d: usize) -> (o: Vec<u8>)
        requires
            d < old(self)@.devices.len(),
            io_wf(old(self)@),
        ensures
            io_wf(final(self)@),
            o@ == old(self)@.devices[d as int],
            final(self)@ == (IoView {
                devices: old(self)@.devices.update(d as int, Seq::empty()),
                ..old(self)@
            }),
    {
        let ghost s0 = *self;
        let o = self.devices[d].take_output();
        proof {
            lemma_device_updated(s0, *self, d as int);
            lemma_io_wf_devices(s0@, d as int, Seq::empty());
        }
        o
    }

    /// The stores into process memory asked for so far, oldest first, handed
    /// over and forgotten.
    pub fn take_user_writes(&mut self) -> (w: Vec<UserWrite>)
        ensures
            w@ == old(self)@.user_writes,
            final(self)@ == (IoView { user_writes: Seq::empty(), ..old(self)@ }),
    {
        let mut w: Vec<UserWrite> = Vec::new();
        std::mem::swap(&mut w, &mut self.user_writes);
        assert(self@ =~= (IoView { user_writes: Seq::empty(), ..old(self)@ }));
        w
    }
}


impl IoManager {
    fn uart_read(&mut self, h: usize, max: usize, into: &mut Vec<u8>) -> (r: IOResult)
        requires
            io_wf(old(self)@),
            h < old(self)@.kinds.len(),
        ensures
            io_wf(final(self)@),
            uart_read_post(old(self)@, final(self)@, h as int, max as int, old(into)@, final(into)@, r),
    {
        let ghost v0 = self@;
        let ghost in0 = v0.inputs[h as int];
        let mut idx: usize = 0;
        assert(in0.skip(0) =~= in0);
        assert(v0.inputs.update(h as int, in0) =~= v0.inputs);
        while idx < max
            invariant
                idx <= max,
                idx <= in0.len(),
                v0 == old(self)@,
                io_wf(v0),
                h < v0.kinds.len(),
                in0 == v0.inputs[h as int],
                self@ == (IoView { inputs: v0.inputs.update(h as int, in0.skip(idx as int)), ..v0 }),
                into@ == old(into)@ + in0.take(idx as int),
            decreases max - idx,
        {
            assert(self.files@[h as int].input@ == self@.inputs[h as int]);
            assert(self@.inputs[h as int] == in0.skip(idx as int));
            if self.files[h].input.len() == 0 {
                proof { lemma_io_wf_inputs(v0, h as int, in0.skip(idx as int)); }
                return IOResult { bytes: idx, blocked: true };
            }
            let ghost files0 = self.files@;
            let ghost view0 = self@;
            assert(forall|k: int| 0 <= k < files0.len() ==> view0.inputs[k] == #[trigger] files0[k].input@);
            let b = self.files[h].input.pop_front().unwrap();
            into.push(b);
            proof {
                assert(self.files@.len() == files0.len());
                assert(forall|k: int| 0 <= k < files0.len() && k != h ==> self.files@[k] == files0[k]);
                assert(self.files@[h as int].input@ == files0[h as int].input@.drop_first());
                assert(self.files@[h as int].kind == files0[h as int].kind);
                assert(in0.skip(idx as int)[0] == b);
                assert(in0.take(idx + 1) =~= in0.take(idx as int).push(b));
                assert(in0.skip(idx as int).drop_first() =~= in0.skip(idx + 1));
                assert forall|k: int| 0 <= k < self@.inputs.len() implies self@.inputs[k]
                    == v0.inputs.update(h as int, in0.skip(idx + 1))[k] by {
                    if k != h {
                        assert(self@.inputs[k] == self.files@[k].input@);
                        assert(files0[k].input@ == v0.inputs[k]);
                    }
                }
                assert(self@.inputs =~= v0.inputs.update(h as int, in0.skip(idx + 1)));
                assert(self@.kinds =~= v0.kinds);
                assert(self@.reads =~= v0.reads);
                assert(self@.writes =~= v0.writes);
            }
            idx = idx + 1;
        }
        proof { lemma_io_wf_inputs(v0, h as int, in0.skip(idx as int)); }
        IOResult { bytes: idx, blocked: false }
    }
}

proof fn lemma_io_wf_inputs(v: IoView, h: int, input: Seq<u8>)
    requires
        io_wf(v),
        0 <= h < v.kinds.len(),
        input.len() <= v.inputs[h].len(),
    ensures
        io_wf(IoView { inputs: v.inputs.update(h, input), ..v }),
{
    let w = IoView { inputs: v.inputs.update(h, input), ..v };
    assert forall|k: int| 0 <= k < w.kinds.len() implies kind_wf(w, #[trigger] w.kinds[k]) by {
        assert(kind_wf(v, v.kinds[k]));
    }
}


proof fn lemma_file_updated(a: IoManager, b: IoManager, h: int)
    requires
        0 <= h < a.files@.len(),
        b.files@ == a.files@.update(h, b.files@[h]),
        b.files@[h].kind == a.files@[h].kind,
        b.devices == a.devices,
        b.pipes == a.pipes,
        b.user_writes == a.user_writes,
    ensures
        b@ == (IoView {
            inputs: a@.inputs.update(h, b.files@[h].input@),
            reads: a@.reads.update(h, b.files@[h].pending_reads@),
            writes: a@.writes.update(h, b.files@[h].pending_writes@),
            ..a@
        }),
{
    assert(b@.kinds =~= a@.kinds);
    assert(b@.inputs =~= a@.inputs.update(h, b.files@[h].input@));
    assert(b@.reads =~= a@.reads.update(h, b.files@[h].pending_reads@));
    assert(b@.writes =~= a@.writes.update(h, b.files@[h].pending_writes@));
}

proof fn lemma_pipe_updated(a: IoManager, b: IoManager, p: int)
    requires
        0 <= p < a.pipes@.len(),
        b.pipes@ == a.pipes@.update(p, b.pipes@[p]),
        b.pipes@[p].read_end == a.pipes@[p].read_end,
        b.pipes@[p].write_end == a.pipes@[p].write_end,
        b.devices == a.devices,
        b.files == a.files,
        b.user_writes == a.user_writes,
    ensures
        b@ == (IoView { buffers: a@.buffers.update(p, b.pipes@[p].buffer@), ..a@ }),
{
    assert(b@.buffers =~= a@.buffers.update(p, b.pipes@[p].buffer@));
    assert(b@.ends =~= a@.ends);
}

proof fn lemma_device_updated(a: IoManager, b: IoManager, d: int)
    requires
        0 <= d < a.devices@.len(),
        b.devices@ == a.devices@.update(d, b.devices@[d]),
        b.pipes == a.pipes,
        b.files == a.files,
        b.user_writes == a.user_writes,
    ensures
        b@ == (IoView { devices: a@.devices.update(d, b.devices@[d]@), ..a@ }),
{
    assert(b@.devices =~= a@.devices.update(d, b.devices@[d]@));
}

proof fn lemma_io_wf_buffers(v: IoView, p: int, buf: Seq<u8>)
    requires
        io_wf(v),
        0 <= p < v.buffers.len(),
        buf.len() <= PIPE_BUFFER,
    ensures
        io_wf(IoView { buffers: v.buffers.update(p, buf), ..v }),
{
    let w = IoView { buffers: v.buffers.update(p, buf), ..v };
    assert forall|k: int| 0 <= k < w.kinds.len() implies kind_wf(w, #[trigger] w.kinds[k]) by {
        assert(kind_wf(v, v.kinds[k]));
    }
}

proof fn lemma_io_wf_devices(v: IoView, d: int, out: Seq<u8>)
    requires
        io_wf(v),
        0 <= d < v.devices.len(),
    ensures
        io_wf(IoView { devices: v.devices.update(d, out), ..v }),
{
    let w = IoView { devices: v.devices.update(d, out), ..v };
    assert forall|k: int| 0 <= k < w.kinds.len() implies kind_wf(w, #[trigger] w.kinds[k]) by {
        assert(kind_wf(v, v.kinds[k]));
    }
}

impl IoManager {
    fn uart_write(&mut self, device: usize, data: &Vec<u8>, start: usize) -> (r: IOResult)
        requires
            io_wf(old(self)@),
            device < old(self)@.devices.len(),
            start <= data@.len(),
        ensures
            io_wf(final(self)@),
            uart_write_post(old(self)@, final(self)@, device as int, data@.skip(start as int), r),
    {
        let ghost s0 = *self;
        let mut i: usize = start;
        while i < data.len()
            invariant
                start <= i <= data@.len(),
                device < s0.devices@.len(),
                s0 == *old(self),
                self.files == s0.files,
                self.pipes == s0.pipes,
                self.user_writes == s0.user_writes,
                self.devices@ == s0.devices@.update(device as int, self.devices@[device as int]),
                self.devices@[device as int]@ == s0.devices@[device as int]@ + data@.subrange(
                    start as int,
                    i as int,
                ),
            decreases data@.len() - i,
        {
            self.devices[device].putc(data[i]);
            assert(data@.subrange(start as int, i + 1) =~= data@.subrange(start as int, i as int).push(
                data@[i as int],
            ));
            i = i + 1;
        }
        proof {
            assert(data@.subrange(start as int, data@.len() as int) =~= data@.skip(start as int));
            if data@.len() == start {
                assert(self.devices@ =~= s0.devices@.update(device as int, self.devices@[device as int]));
            }
            lemma_device_updated(s0, *self, device as int);
            lemma_io_wf_devices(s0@, device as int, self.devices@[device as int]@);
        }
        IOResult { bytes: data.len() - start, blocked: false }
    }
}


/// The bytes a read of descriptor `h` drains: a UART's input buffer, or the
/// buffer of the pipe it reads.
pub open spec fn read_source(v: IoView, h: int) -> Seq<u8> {
    match v.kinds[h] {
        FileKind::Uart { .. } => v.inputs[h],
        FileKind::PipeRead { pipe } => v.buffers[pipe as int],
        FileKind::PipeWrite { .. } => Seq::empty(),
    }
}

/// `v` with the first `n` bytes of that source taken.
pub open spec fn drain_source(v: IoView, h: int, n: int) -> IoView {
    match v.kinds[h] {
        FileKind::Uart { .. } => IoView { inputs: v.inputs.update(h, v.inputs[h].skip(n)), ..v },
        FileKind::PipeRead { pipe } => IoView {
            buffers: v.buffers.update(pipe as int, v.buffers[pipe as int].skip(n)),
            ..v
        },
        FileKind::PipeWrite { .. } => v,
    }
}

/// A read on `h` whose effect is stated exactly: a UART that may be read, or a
/// pipe read end whose read wakes nobody.
pub open spec fn exact_read(v: IoView, h: int, notify: bool) -> bool {
    match v.kinds[h] {
        FileKind::Uart { can_read, .. } => can_read,
        FileKind::PipeRead { pipe } => read_quiet(v, pipe as int, notify),
        FileKind::PipeWrite { .. } => false,
    }
}

/// A read task's attempt on descriptor `h`. A task whose process is gone is
/// over and changes nothing. On a descriptor that cannot be read, the process
/// gets `-1`. On an exact read, the task takes as many bytes as it still needs,
/// or all there are, which are queued as a store at the task's next address;
/// it completes, handing the process the completed count, when they were
/// enough, and else blocks the process.
pub open spec fn read_attempt_post(
    before: IoView,
    after: IoView,
    h: int,
    notify: bool,
    t0: ReadTask,
    t1: ReadTask,
    procs0: Map<i32, ProcessControlBlock>,
    procs1: Map<i32, ProcessControlBlock>,
    r: Option<u32>,
) -> bool {
    let b0 = t0.base_spec();
    let pid = b0.pid_spec();
    &&& !procs0.contains_key(pid) ==> {
        &&& after == before
        &&& procs1 == procs0
        &&& r == Some(b0.completed_spec() as u32)
        &&& t1.base_spec().completed_spec() == b0.completed_spec()
    }
    &&& procs0.contains_key(pid) && !can_read(before.kinds[h]) ==> {
        &&& after == before
        &&& r == Some(ERROR_RESULT)
        &&& t1.base_spec().completed_spec() == b0.completed_spec()
        &&& table_updated(procs0, procs1, pid, unblocked_view(procs0[pid]@, ERROR_RESULT))
    }
    &&& procs0.contains_key(pid) && exact_read(before, h, notify) ==> {
        let src = read_source(before, h);
        let want = b0.length_spec() - b0.completed_spec();
        let n = drained(want, src.len() as int);
        let done = b0.completed_spec() + n;
        let v = procs0[pid]@;
        &&& (IoView { user_writes: before.user_writes, ..after }) == drain_source(before, h, n)
        &&& n == 0 ==> after.user_writes == before.user_writes
        &&& n > 0 ==> {
            &&& after.user_writes.len() == before.user_writes.len() + 1
            &&& after.user_writes.drop_last() == before.user_writes
            &&& after.user_writes.last().pid == pid
            &&& after.user_writes.last().address == t0.destination_spec().wrapping_add(
                b0.completed_spec() as u32,
            )
            &&& after.user_writes.last().bytes@ == src.take(n)
        }
        &&& t1.base_spec().completed_spec() == done
        &&& n < want ==> r is None && table_updated(procs0, procs1, pid, blocked_view(v))
        &&& n >= want ==> r == Some(done as u32) && table_updated(
            procs0,
            procs1,
            pid,
            unblocked_view(v, done as u32),
        )
    }
}

/// `v` with `byte` added at the end of descriptor `h`'s input buffer.
pub open spec fn with_byte(v: IoView, h: int, byte: u8) -> IoView {
    IoView { inputs: v.inputs.update(h, v.inputs[h].push(byte)), ..v }
}

/// Descriptor `h` is a UART that may be read with exactly one read task
/// waiting, whose process is in the table.
pub open spec fn single_reader(v: IoView, h: int, procs: Map<i32, ProcessControlBlock>) -> bool {
    &&& v.kinds[h] matches FileKind::Uart { can_read: true, .. }
    &&& v.reads[h].len() == 1
    &&& procs.contains_key(v.reads[h][0].base_spec().pid_spec())
}

/// The one read task waiting on `h` was retried: the attempt did what
/// `read_attempt_post` says, leaving the task as `t1`, and the queue then holds
/// `t1` if it still blocks and nothing if it completed.
pub open spec fn retried_once(
    before: IoView,
    after: IoView,
    h: int,
    notify: bool,
    t1: ReadTask,
    procs0: Map<i32, ProcessControlBlock>,
    procs1: Map<i32, ProcessControlBlock>,
    r: Option<u32>,
) -> bool {
    &&& read_attempt_post(
        before,
        IoView { reads: before.reads, ..after },
        h,
        notify,
        before.reads[h][0],
        t1,
        procs0,
        procs1,
        r,
    )
    &&& after.reads == before.reads.update(
        h,
        if r is None {
            seq![t1]
        } else {
            Seq::empty()
        },
    )
}

/// Descriptor `h` is a UART that may be read with exactly one read task
/// waiting, whose process is in the table, and the input buffer holds every
/// byte the task still needs.
pub open spec fn single_reader_served(v: IoView, h: int, procs: Map<i32, ProcessControlBlock>) -> bool {
    &&& v.kinds[h] matches FileKind::Uart { can_read: true, .. }
    &&& v.reads[h].len() == 1
    &&& procs.contains_key(v.reads[h][0].base_spec().pid_spec())
    &&& v.reads[h][0].base_spec().length_spec() - v.reads[h][0].base_spec().completed_spec()
        <= v.inputs[h].len()
}

/// A byte arriving at UART descriptor `h` completes its one waiting read task:
/// there is room for the byte, and with it the input holds every byte the task
/// still needs.
pub open spec fn interrupt_completes(v: IoView, h: int, procs: Map<i32, ProcessControlBlock>) -> bool {
    &&& v.kinds[h] matches FileKind::Uart { can_read: true, .. }
    &&& v.reads[h].len() == 1
    &&& procs.contains_key(v.reads[h][0].base_spec().pid_spec())
    &&& v.inputs[h].len() < KEYBOARD_BUFFER
    &&& v.reads[h][0].base_spec().length_spec() - v.reads[h][0].base_spec().completed_spec()
        <= v.inputs[h].len() + 1
}

/// A write task's attempt on descriptor `h`. A task whose process is gone is
/// over and changes nothing. On a descriptor that cannot be written, the
/// process gets `-1`. On a UART every remaining byte goes to the device and the
/// task completes. On a pipe write end whose write wakes nobody, as many bytes
/// as fit go into the pipe; the task completes, handing the process its length,
/// when all did, and else blocks the process.
pub open spec fn write_attempt_post(
    before: IoView,
    after: IoView,
    h: int,
    notify: bool,
    t0: WriteTask,
    t1: WriteTask,
    procs0: Map<i32, ProcessControlBlock>,
    procs1: Map<i32, ProcessControlBlock>,
    r: Option<u32>,
) -> bool {
    let b = t0.base_spec();
    let pid = b.pid_spec();
    let data = t0.source_spec().skip(b.completed_spec() as int);
    &&& !procs0.contains_key(pid) ==> {
        &&& after == before
        &&& procs1 == procs0
        &&& r == Some(b.completed_spec() as u32)
    }
    &&& procs0.contains_key(pid) && !can_write(before.kinds[h]) ==> {
        &&& after == before
        &&& r == Some(ERROR_RESULT)
        &&& table_updated(procs0, procs1, pid, unblocked_view(procs0[pid]@, ERROR_RESULT))
    }
    &&& procs0.contains_key(pid) ==> match before.kinds[h] {
        FileKind::Uart { device, can_write, .. } => can_write ==> {
            &&& after == IoView {
                devices: before.devices.update(device as int, before.devices[device as int] + data),
                ..before
            }
            &&& t1.base_spec().completed_spec() == b.length_spec()
            &&& r == Some(b.length_spec() as u32)
            &&& table_updated(
                procs0,
                procs1,
                pid,
                unblocked_view(procs0[pid]@, b.length_spec() as u32),
            )
        },
        FileKind::PipeWrite { pipe } => write_quiet(before, pipe as int, notify) ==> {
            let buf = before.buffers[pipe as int];
            let n = filled(data.len() as int, PIPE_BUFFER as int, buf.len() as int);
            &&& after == IoView {
                buffers: before.buffers.update(pipe as int, buf + data.take(n)),
                ..before
            }
            &&& t1.base_spec().completed_spec() == b.completed_spec() + n
            &&& n < data.len() ==> r is None && table_updated(
                procs0,
                procs1,
                pid,
                blocked_view(procs0[pid]@),
            )
            &&& n >= data.len() ==> r == Some(b.length_spec() as u32) && table_updated(
                procs0,
                procs1,
                pid,
                unblocked_view(procs0[pid]@, b.length_spec() as u32),
            )
        },
        FileKind::PipeRead { .. } => true,
    }
}

/// A notification level: 1 for an operation that may wake the other end of a
/// pipe, 0 for one that may not.
pub open spec fn level(notify: bool) -> int {
    if notify {
        1
    } else {
        0
    }
}

/// What every descriptor operation keeps.
pub open spec fn io_frame(
    before: IoView,
    after: IoView,
    procs0: Map<i32, ProcessControlBlock>,
    procs1: Map<i32, ProcessControlBlock>,
) -> bool {
    &&& io_wf(after)
    &&& same_shape(after, before)
    &&& table_wf(procs1)
    &&& procs1.dom() == procs0.dom()
}

impl IoManager {
    fn pipe_read(
        &mut self,
        pipe: usize,
        max: usize,
        into: &mut Vec<u8>,
        procs: &mut IdTable<ProcessControlBlock>,
        notify: bool,
    ) -> (r: IOResult)
        requires
            io_wf(old(self)@),
            pipe < old(self)@.buffers.len(),
            table_wf(old(procs)@),
        ensures
            io_frame(old(self)@, final(self)@, old(procs)@, final(procs)@),
            r.bytes <= max,
            r.blocked <==> r.bytes < max,
            final(into)@.len() == old(into)@.len() + r.bytes,
            final(into)@.subrange(0, old(into)@.len() as int) == old(into)@,
            read_quiet(old(self)@, pipe as int, notify) ==> {
                &&& pipe_read_post(
                    old(self)@,
                    final(self)@,
                    pipe as int,
                    max as int,
                    old(into)@,
                    final(into)@,
                    r,
                )
                &&& final(procs)@ == old(procs)@
            },
        decreases level(notify), 1int,
    {
        let ghost v0 = self@;
        let ghost buf0 = v0.buffers[pipe as int];
        let ghost quiet = read_quiet(v0, pipe as int, notify);
        let w = self.pipes[pipe].write_end;
        assert(w == v0.ends[pipe as int].1);
        let mut idx: usize = 0;
        assert(buf0.skip(0) =~= buf0);
        assert(v0.buffers.update(pipe as int, buf0) =~= v0.buffers);
        while idx < max
            invariant
                idx <= max,
                v0 == old(self)@,
                io_wf(self@),
                same_shape(self@, v0),
                pipe < v0.buffers.len(),
                buf0 == v0.buffers[pipe as int],
                w == v0.ends[pipe as int].1,
                table_wf(procs@),
                procs@.dom() == old(procs)@.dom(),
                quiet == read_quiet(v0, pipe as int, notify),
                into@.len() == old(into)@.len() + idx,
                into@.subrange(0, old(into)@.len() as int) == old(into)@,
                quiet ==> {
                    &&& idx <= buf0.len()
                    &&& self@ == IoView {
                        buffers: v0.buffers.update(pipe as int, buf0.skip(idx as int)),
                        ..v0
                    }
                    &&& into@ == old(into)@ + buf0.take(idx as int)
                    &&& procs@ == old(procs)@
                },
            decreases max - idx,
        {
            let ghost s0 = *self;
            assert(self.pipes@[pipe as int].buffer@ == self@.buffers[pipe as int]);
            if self.pipes[pipe].buffer.len() == 0 {
                return IOResult { bytes: idx, blocked: true };
            }
            let b = self.pipes[pipe].buffer.pop_front().unwrap();
            proof {
                lemma_pipe_updated(s0, *self, pipe as int);
                lemma_io_wf_buffers(s0@, pipe as int, self.pipes@[pipe as int].buffer@);
                if quiet {
                    assert(buf0.skip(idx as int).drop_first() =~= buf0.skip(idx + 1));
                    assert(buf0.take(idx + 1) =~= buf0.take(idx as int).push(b));
                    assert(v0.buffers.update(pipe as int, buf0.skip(idx as int)).update(
                        pipe as int,
                        buf0.skip(idx + 1),
                    ) =~= v0.buffers.update(pipe as int, buf0.skip(idx + 1)));
                }
            }
            into.push(b);
            idx = idx + 1;
            if notify {
                self.notify_writers_at(w, procs, false);
            }
        }
        IOResult { bytes: idx, blocked: false }
    }

    fn pipe_write(
        &mut self,
        pipe: usize,
        data: &Vec<u8>,
        start: usize,
        procs: &mut IdTable<ProcessControlBlock>,
        notify: bool,
    ) -> (r: IOResult)
        requires
            io_wf(old(self)@),
            pipe < old(self)@.buffers.len(),
            start <= data@.len(),
            table_wf(old(procs)@),
        ensures
            io_frame(old(self)@, final(self)@, old(procs)@, final(procs)@),
            r.bytes <= data@.len() - start,
            r.blocked <==> r.bytes < data@.len() - start,
            write_quiet(old(self)@, pipe as int, notify) ==> {
                &&& pipe_write_post(old(self)@, final(self)@, pipe as int, data@.skip(start as int), r)
                &&& final(procs)@ == old(procs)@
            },
        decreases level(notify), 1int,
    {
        let ghost v0 = self@;
        let ghost buf0 = v0.buffers[pipe as int];
        let ghost quiet = write_quiet(v0, pipe as int, notify);
        let rd = self.pipes[pipe].read_end;
        assert(rd == v0.ends[pipe as int].0);
        let mut idx: usize = start;
        assert(buf0 + data@.subrange(start as int, start as int) =~= buf0);
        assert(v0.buffers.update(pipe as int, buf0) =~= v0.buffers);
        while idx < data.len()
            invariant
                start <= idx <= data@.len(),
                v0 == old(self)@,
                io_wf(self@),
                same_shape(self@, v0),
                pipe < v0.buffers.len(),
                buf0 == v0.buffers[pipe as int],
                rd == v0.ends[pipe as int].0,
                table_wf(procs@),
                procs@.dom() == old(procs)@.dom(),
                quiet == write_quiet(v0, pipe as int, notify),
                quiet ==> {
                    &&& buf0.len() + (idx - start) <= PIPE_BUFFER
                    &&& self@ == IoView {
                        buffers: v0.buffers.update(
                            pipe as int,
                            buf0 + data@.subrange(start as int, idx as int),
                        ),
                        ..v0
                    }
                    &&& procs@ == old(procs)@
                },
            decreases data@.len() - idx,
        {
            let ghost s0 = *self;
            assert(self.pipes@[pipe as int].buffer@ == self@.buffers[pipe as int]);
            if self.pipes[pipe].buffer.len() < PIPE_BUFFER {
                self.pipes[pipe].buffer.push_back(data[idx]);
                proof {
                    lemma_pipe_updated(s0, *self, pipe as int);
                    lemma_io_wf_buffers(s0@, pipe as int, self.pipes@[pipe as int].buffer@);
                    if quiet {
                        assert(buf0 + data@.subrange(start as int, idx + 1) =~= (buf0 + data@.subrange(
                            start as int,
                            idx as int,
                        )).push(data@[idx as int]));
                        assert(v0.buffers.update(
                            pipe as int,
                            buf0 + data@.subrange(start as int, idx as int),
                        ).update(pipe as int, buf0 + data@.subrange(start as int, idx + 1))
                            =~= v0.buffers.update(
                            pipe as int,
                            buf0 + data@.subrange(start as int, idx + 1),
                        ));
                    }
                }
                idx = idx + 1;
                if notify {
                    self.notify_readers_at(rd, procs, false);
                }
            } else {
                proof {
                    if quiet {
                        assert(data@.skip(start as int).take(idx - start) =~= data@.subrange(
                            start as int,
                            idx as int,
                        ));
                    }
                }
                return IOResult { bytes: idx - start, blocked: true };
            }
        }
        proof {
            if quiet {
                assert(data@.skip(start as int).take(idx - start) =~= data@.subrange(
                    start as int,
                    idx as int,
                ));
            }
        }
        IOResult { bytes: idx - start, blocked: false }
    }

    fn read_file(
        &mut self,
        h: usize,
        max: usize,
        into: &mut Vec<u8>,
        procs: &mut IdTable<ProcessControlBlock>,
        notify: bool,
    ) -> (r: Result<IOResult, FileError>)
        requires
            io_wf(old(self)@),
            h < old(self)@.kinds.len(),
            table_wf(old(procs)@),
        ensures
            io_frame(old(self)@, final(self)@, old(procs)@, final(procs)@),
            read_post(old(self)@, final(self)@, h as int, max as int, notify, old(into)@, final(into)@, r),
            r matches Ok(io) ==> io.bytes <= max,
            r matches Ok(io) ==> moved(old(into)@, final(into)@, io, max as int),
            !(old(self)@.kinds[h as int] is PipeRead) ==> final(procs)@ == old(procs)@,
            old(self)@.kinds[h as int] matches FileKind::PipeRead { pipe } && read_quiet(
                old(self)@,
                pipe as int,
                notify,
            ) ==> final(procs)@ == old(procs)@,
        decreases level(notify), 2int,
    {
        assert(self.files@[h as int].kind == self@.kinds[h as int]);
        assert(kind_wf(self@, self@.kinds[h as int]));
        match self.files[h].kind {
            FileKind::Uart { device, can_read, can_write } => {
                if !can_read {
                    Err(FileError::UnsupportedOperation)
                } else {
                    let ghost into0 = into@;
                    let io = self.uart_read(h, max, into);
                    proof {
                        let n = drained(max as int, old(self)@.inputs[h as int].len() as int);
                        assert(into@.subrange(0, into0.len() as int) =~= into0);
                    }
                    Ok(io)
                }
            },
            FileKind::PipeRead { pipe } => Ok(self.pipe_read(pipe, max, into, procs, notify)),
            FileKind::PipeWrite { pipe } => Err(FileError::UnsupportedOperation),
        }
    }

    fn write_file(
        &mut self,
        h: usize,
        data: &Vec<u8>,
        start: usize,
        procs: &mut IdTable<ProcessControlBlock>,
        notify: bool,
    ) -> (r: Result<IOResult, FileError>)
        requires
            io_wf(old(self)@),
            h < old(self)@.kinds.len(),
            start <= data@.len(),
            table_wf(old(procs)@),
        ensures
            io_frame(old(self)@, final(self)@, old(procs)@, final(procs)@),
            write_post(old(self)@, final(self)@, h as int, data@.skip(start as int), notify, r),
            r matches Ok(io) ==> io.bytes <= data@.len() - start,
            r matches Ok(io) ==> (io.blocked <==> io.bytes < data@.len() - start),
            !(old(self)@.kinds[h as int] is PipeWrite) ==> final(procs)@ == old(procs)@,
            old(self)@.kinds[h as int] matches FileKind::PipeWrite { pipe } && write_quiet(
                old(self)@,
                pipe as int,
                notify,
            ) ==> final(procs)@ == old(procs)@,
        decreases level(notify), 2int,
    {
        assert(self.files@[h as int].kind == self@.kinds[h as int]);
        assert(kind_wf(self@, self@.kinds[h as int]));
        match self.files[h].kind {
            FileKind::Uart { device, can_read, can_write } => {
                if !can_write {
                    Err(FileError::UnsupportedOperation)
                } else {
                    let n = data.len();
                    let io = self.uart_write(device, data, start);
                    assert(data@.skip(start as int).len() == n - start);
                    assert(io.bytes == data@.len() - start && !io.blocked);
                    Ok(io)
                }
            },
            FileKind::PipeWrite { pipe } => Ok(self.pipe_write(pipe, data, start, procs, notify)),
            FileKind::PipeRead { pipe } => Err(FileError::UnsupportedOperation),
        }
    }

    fn attempt_read_at(
        &mut self,
        h: usize,
        task: &mut ReadTask,
        procs: &mut IdTable<ProcessControlBlock>,
        notify: bool,
    ) -> (r: Option<u32>)
        requires
            io_wf(old(self)@),
            h < old(self)@.kinds.len(),
            table_wf(old(procs)@),
            old(task).wf(),
        ensures
            io_frame(old(self)@, final(self)@, old(procs)@, final(procs)@),
            final(task).wf(),
            final(task).destination_spec() == old(task).destination_spec(),
            final(task).base_spec().pid_spec() == old(task).base_spec().pid_spec(),
            final(task).base_spec().length_spec() == old(task).base_spec().length_spec(),
            read_attempt_post(
                old(self)@,
                final(self)@,
                h as int,
                notify,
                *old(task),
                *final(task),
                old(procs)@,
                final(procs)@,
                r,
            ),
        decreases level(notify), 3int,
    {
        let pid = task.base().pid();
        if !procs.contains_key(pid) {
            return Some(task.base().completed() as u32);
        }
        let want = task.base().remaining();
        let mut buf: Vec<u8> = Vec::new();
        let ghost v0 = self@;
        let res = self.read_file(h, want, &mut buf, procs, notify);
        let ghost v1 = self@;
        match res {
            Ok(io) => {
                if io.bytes > 0 {
                    let address = task.next_address();
                    self.user_writes.push(UserWrite { pid, address, bytes: buf });
                    assert(self@.user_writes.drop_last() =~= v1.user_writes);
                }
            },
            Err(_) => {},
        }
        let ghost p0 = procs@;
        let r = task.attempt(procs, res);
        proof {
            old(task).base_spec().lemma_attempt_keeps_table(task.base_spec(), p0, procs@, res, r);
            if exact_read(v0, h as int, notify) {
                let src = read_source(v0, h as int);
                let n = drained(want as int, src.len() as int);
                assert(buf@ =~= Seq::<u8>::empty() + src.take(n));
            }
        }
        r
    }

    fn attempt_write_at(
        &mut self,
        h: usize,
        task: &mut WriteTask,
        procs: &mut IdTable<ProcessControlBlock>,
        notify: bool,
    ) -> (r: Option<u32>)
        requires
            io_wf(old(self)@),
            h < old(self)@.kinds.len(),
            table_wf(old(procs)@),
            old(task).wf(),
        ensures
            io_frame(old(self)@, final(self)@, old(procs)@, final(procs)@),
            final(task).wf(),
            final(task).base_spec().pid_spec() == old(task).base_spec().pid_spec(),
            write_attempt_post(
                old(self)@,
                final(self)@,
                h as int,
                notify,
                *old(task),
                *final(task),
                old(procs)@,
                final(procs)@,
                r,
            ),
        decreases level(notify), 3int,
    {
        let pid = task.base().pid();
        if !procs.contains_key(pid) {
            return Some(task.base().completed() as u32);
        }
        let start = task.base().completed();
        let res = self.write_file(h, task.source(), start, procs, notify);
        let ghost p0 = procs@;
        let ghost t0 = *task;
        let r = task.attempt(procs, res);
        proof {
            t0.base_spec().lemma_attempt_keeps_table(task.base_spec(), p0, procs@, res, r);
        }
        r
    }

    /// Retries each read task waiting on descriptor `h`, oldest first; one that
    /// still blocks goes to the back of the queue.
    fn notify_readers_at(&mut self, h: usize, procs: &mut IdTable<ProcessControlBlock>, notify: bool)
        requires
            io_wf(old(self)@),
            h < old(self)@.kinds.len(),
            table_wf(old(procs)@),
        ensures
            io_frame(old(self)@, final(self)@, old(procs)@, final(procs)@),
            old(self)@.reads[h as int].len() == 0 ==> final(self)@ == old(self)@ && final(procs)@
                == old(procs)@,
            single_reader_served(old(self)@, h as int, old(procs)@) ==> {
                let t = old(self)@.reads[h as int][0].base_spec();
                &&& final(self)@.reads[h as int].len() == 0
                &&& table_updated(
                    old(procs)@,
                    final(procs)@,
                    t.pid_spec(),
                    unblocked_view(old(procs)@[t.pid_spec()]@, t.length_spec() as u32),
                )
            },
            single_reader(old(self)@, h as int, old(procs)@) ==> exists|t1: ReadTask, r: Option<u32>|
                retried_once(old(self)@, final(self)@, h as int, notify, t1, old(procs)@, final(procs)@, r),
        decreases level(notify), 4int,
    {
        assert(self.files@[h as int].pending_reads@ == self@.reads[h as int]);
        let ghost single = single_reader_served(old(self)@, h as int, old(procs)@);
        let ghost one = single_reader(old(self)@, h as int, old(procs)@);
        let ghost mut t1g: ReadTask = old(self)@.reads[h as int][0];
        let ghost mut rg: Option<u32> = None;
        let n = self.files[h].pending_reads.len();
        let mut i: usize = 0;
        while i < n
            invariant
                io_wf(self@),
                same_shape(self@, old(self)@),
                h < self@.kinds.len(),
                table_wf(procs@),
                procs@.dom() == old(procs)@.dom(),
                n == 0 ==> self@ == old(self)@ && procs@ == old(procs)@,
                n == old(self)@.reads[h as int].len(),
                i <= n,
                single == single_reader_served(old(self)@, h as int, old(procs)@),
                single && i == 0 ==> self@ == old(self)@ && procs@ == old(procs)@,
                one == single_reader(old(self)@, h as int, old(procs)@),
                one && i == 0 ==> self@ == old(self)@ && procs@ == old(procs)@,
                one && i == 1 ==> retried_once(old(self)@, self@, h as int, notify, t1g, old(procs)@, procs@, rg),
                single && i == 1 ==> {
                    let t = old(self)@.reads[h as int][0].base_spec();
                    &&& self@.reads[h as int].len() == 0
                    &&& table_updated(
                        old(procs)@,
                        procs@,
                        t.pid_spec(),
                        unblocked_view(old(procs)@[t.pid_spec()]@, t.length_spec() as u32),
                    )
                },
            decreases n - i,
        {
            assert(self.files@[h as int].pending_reads@ == self@.reads[h as int]);
            if self.files[h].pending_reads.len() > 0 {
                let ghost s0 = *self;
                let mut task = self.files[h].pending_reads.remove(0);
                proof {
                    lemma_file_updated(s0, *self, h as int);
                    assert(self.files@[h as int].input == s0.files@[h as int].input);
                    assert(s0@.inputs[h as int] == s0.files@[h as int].input@);
                    lemma_io_wf_tasks(s0@, self@, h as int);
                    assert(s0@.reads[h as int][0] == task);
                }
                let ghost mid0 = self@;
                let ghost tk0 = task;
                let ghost pr0 = procs@;
                let r = self.attempt_read_at(h, &mut task, procs, notify);
                let ghost mid1 = self@;
                proof {
                    t1g = task;
                    rg = r;
                }
                if r.is_none() {
                    let ghost s1 = *self;
                    assert(self.files@[h as int].pending_reads@ == self@.reads[h as int]);
                    self.files[h].pending_reads.push(task);
                    proof {
                        lemma_file_updated(s1, *self, h as int);
                        assert(self.files@[h as int].input == s1.files@[h as int].input);
                        assert(s1@.inputs[h as int] == s1.files@[h as int].input@);
                        assert(s1@.writes[h as int] == s1.files@[h as int].pending_writes@);
                        lemma_io_wf_tasks(s1@, self@, h as int);
                        assert(self@.inputs =~= mid1.inputs);
                        assert(self@.writes =~= mid1.writes);
                    }
                }
                proof {
                    if one && i == 0 {
                        let before = old(self)@;
                        assert(mid0.reads[h as int] =~= Seq::<ReadTask>::empty());
                        assert(mid0.inputs =~= before.inputs);
                        assert(mid0.writes =~= before.writes);
                        assert(mid0 == IoView { reads: mid0.reads, ..before });
                        assert(tk0 == before.reads[h as int][0]);
                        assert(pr0 == old(procs)@);
                        assert(IoView { reads: before.reads, ..self@ } == IoView {
                            reads: before.reads,
                            ..mid1
                        });
                        assert(read_source(mid0, h as int) == read_source(before, h as int));
                        assert forall|n: int| #[trigger] drain_source(mid0, h as int, n) == IoView {
                            reads: mid0.reads,
                            ..drain_source(before, h as int, n)
                        } by {}
                        assert(IoView { reads: before.reads, ..self@ }.reads =~= before.reads);
                        assert(read_attempt_post(mid0, mid1, h as int, notify, tk0, t1g, pr0, procs@, rg));
                        assert(self@.reads =~= before.reads.update(
                            h as int,
                            if rg is None {
                                seq![t1g]
                            } else {
                                Seq::empty()
                            },
                        ));
                        assert(read_attempt_post(
                            before,
                            IoView { reads: before.reads, ..self@ },
                            h as int,
                            notify,
                            before.reads[h as int][0],
                            t1g,
                            old(procs)@,
                            procs@,
                            rg,
                        ));
                        assert(self@.reads[h as int] =~= (if rg is None {
                            seq![t1g]
                        } else {
                            Seq::<ReadTask>::empty()
                        }));
                    }
                }
            }
            i = i + 1;
        }
    }

    /// Retries each write task waiting on descriptor `h`, oldest first; one that
    /// still blocks goes to the back of the queue.
    fn notify_writers_at(&mut self, h: usize, procs: &mut IdTable<ProcessControlBlock>, notify: bool)
        requires
            io_wf(old(self)@),
            h < old(self)@.kinds.len(),
            table_wf(old(procs)@),
        ensures
            io_frame(old(self)@, final(self)@, old(procs)@, final(procs)@),
            old(self)@.writes[h as int].len() == 0 ==> final(self)@ == old(self)@ && final(procs)@
                == old(procs)@,
        decreases level(notify), 4int,
    {
        assert(self.files@[h as int].pending_writes@ == self@.writes[h as int]);
        let n = self.files[h].pending_writes.len();
        let mut i: usize = 0;
        while i < n
            invariant
                io_wf(self@),
                same_shape(self@, old(self)@),
                h < self@.kinds.len(),
                table_wf(procs@),
                procs@.dom() == old(procs)@.dom(),
                n == 0 ==> self@ == old(self)@ && procs@ == old(procs)@,
            decreases n - i,
        {
            assert(self.files@[h as int].pending_writes@ == self@.writes[h as int]);
            if self.files[h].pending_writes.len() > 0 {
                let ghost s0 = *self;
                let mut task = self.files[h].pending_writes.remove(0);
                proof {
                    lemma_file_updated(s0, *self, h as int);
                    assert(self.files@[h as int].input == s0.files@[h as int].input);
                    assert(s0@.inputs[h as int] == s0.files@[h as int].input@);
                    lemma_io_wf_tasks(s0@, self@, h as int);
                    assert(s0@.writes[h as int][0] == task);
                }
                let r = self.attempt_write_at(h, &mut task, procs, notify);
                if r.is_none() {
                    let ghost s1 = *self;
                    assert(self.files@[h as int].pending_writes@ == self@.writes[h as int]);
                    self.files[h].pending_writes.push(task);
                    proof {
                        lemma_file_updated(s1, *self, h as int);
                        assert(self.files@[h as int].input == s1.files@[h as int].input);
                        assert(s1@.inputs[h as int] == s1.files@[h as int].input@);
                        lemma_io_wf_tasks(s1@, self@, h as int);
                    }
                }
            }
            i = i + 1;
        }
    }
}

/// Changing the task queues of one descriptor keeps the subsystem well formed
/// while every task in them is.
proof fn lemma_io_wf_tasks(v: IoView, w: IoView, h: int)
    requires
        io_wf(v),
        0 <= h < v.kinds.len(),
        w == (IoView {
            inputs: v.inputs.update(h, w.inputs[h]),
            reads: v.reads.update(h, w.reads[h]),
            writes: v.writes.update(h, w.writes[h]),
            ..v
        }),
        w.inputs[h].len() <= KEYBOARD_BUFFER,
        w.reads[h] == v.reads[h] || forall|i: int|
            0 <= i < w.reads[h].len() ==> (#[trigger] w.reads[h][i]).wf(),
        w.writes[h] == v.writes[h] || forall|i: int|
            0 <= i < w.writes[h].len() ==> (#[trigger] w.writes[h][i]).wf(),
    ensures
        io_wf(w),
{
    assert forall|k: int, i: int| 0 <= k < w.kinds.len() && 0 <= i < w.reads[k].len() implies (
    #[trigger] w.reads[k][i]).wf() by {
        if k == h && w.reads[h] == v.reads[h] {
            assert(v.reads[k][i].wf());
        }
    }
    assert forall|k: int, i: int| 0 <= k < w.kinds.len() && 0 <= i < w.writes[k].len() implies (
    #[trigger] w.writes[k][i]).wf() by {
        if k == h && w.writes[h] == v.writes[h] {
            assert(v.writes[k][i].wf());
        }
    }
    assert forall|k: int| 0 <= k < w.kinds.len() implies kind_wf(w, #[trigger] w.kinds[k]) by {
        assert(kind_wf(v, v.kinds[k]));
    }
}


impl IoManager {
    /// Reads up to `max` bytes from descriptor `h` into `into`. A pipe read wakes
    /// the writers waiting on the pipe after each byte it takes.
    pub fn read(
        &mut self,
        h: usize,
        max: usize,
        into: &mut Vec<u8>,
        procs: &mut IdTable<ProcessControlBlock>,
    ) -> (r: Result<IOResult, FileError>)
        requires
            io_wf(old(self)@),
            h < old(self)@.kinds.len(),
            table_wf(old(procs)@),
        ensures
            io_frame(old(self)@, final(self)@, old(procs)@, final(procs)@),
            read_post(old(self)@, final(self)@, h as int, max as int, true, old(into)@, final(into)@, r),
            r matches Ok(io) ==> io.bytes <= max,
            r matches Ok(io) ==> moved(old(into)@, final(into)@, io, max as int),
    {
        self.read_file(h, max, into, procs, true)
    }

    /// Writes `data` to descriptor `h`. A pipe write wakes the readers waiting on
    /// the pipe after each byte it puts in.
    pub fn write(&mut self, h: usize, data: &Vec<u8>, procs: &mut IdTable<ProcessControlBlock>) -> (r:
        Result<IOResult, FileError>)
        requires
            io_wf(old(self)@),
            h < old(self)@.kinds.len(),
            table_wf(old(procs)@),
        ensures
            io_frame(old(self)@, final(self)@, old(procs)@, final(procs)@),
            write_post(old(self)@, final(self)@, h as int, data@, true, r),
            r matches Ok(io) ==> io.bytes <= data@.len(),
            r matches Ok(io) ==> (io.blocked <==> io.bytes < data@.len()),
    {
        assert(data@.skip(0) =~= data@);
        self.write_file(h, data, 0, procs, true)
    }

    /// One attempt of a read task on descriptor `h` (see `TaskBase::attempt`);
    /// the bytes read are queued as a store into the process's memory.
    pub fn attempt_read(
        &mut self,
        h: usize,
        task: &mut ReadTask,
        procs: &mut IdTable<ProcessControlBlock>,
    ) -> (r: Option<u32>)
        requires
            io_wf(old(self)@),
            h < old(self)@.kinds.len(),
            table_wf(old(procs)@),
            old(task).wf(),
        ensures
            io_frame(old(self)@, final(self)@, old(procs)@, final(procs)@),
            final(task).wf(),
            final(task).destination_spec() == old(task).destination_spec(),
            final(task).base_spec().pid_spec() == old(task).base_spec().pid_spec(),
            final(task).base_spec().length_spec() == old(task).base_spec().length_spec(),
            read_attempt_post(
                old(self)@,
                final(self)@,
                h as int,
                true,
                *old(task),
                *final(task),
                old(procs)@,
                final(procs)@,
                r,
            ),
    {
        self.attempt_read_at(h, task, procs, true)
    }

    /// One attempt of a write task on descriptor `h` (see `TaskBase::attempt`).
    pub fn attempt_write(
        &mut self,
        h: usize,
        task: &mut WriteTask,
        procs: &mut IdTable<ProcessControlBlock>,
    ) -> (r: Option<u32>)
        requires
            io_wf(old(self)@),
            h < old(self)@.kinds.len(),
            table_wf(old(procs)@),
            old(task).wf(),
        ensures
            io_frame(old(self)@, final(self)@, old(procs)@, final(procs)@),
            final(task).wf(),
            final(task).base_spec().pid_spec() == old(task).base_spec().pid_spec(),
            write_attempt_post(
                old(self)@,
                final(self)@,
                h as int,
                true,
                *old(task),
                *final(task),
                old(procs)@,
                final(procs)@,
                r,
            ),
    {
        self.attempt_write_at(h, task, procs, true)
    }

    /// Queues a read task on descriptor `h`.
    pub fn add_pending_read(&mut self, h: usize, task: ReadTask)
        requires
            io_wf(old(self)@),
            h < old(self)@.kinds.len(),
            task.wf(),
        ensures
            io_wf(final(self)@),
            final(self)@ == (IoView {
                reads: old(self)@.reads.update(h as int, old(self)@.reads[h as int].push(task)),
                ..old(self)@
            }),
    {
        let ghost s0 = *self;
        self.files[h].pending_reads.push(task);
        proof {
            lemma_file_updated(s0, *self, h as int);
            assert(self.files@[h as int].input == s0.files@[h as int].input);
            assert(s0@.inputs[h as int] == s0.files@[h as int].input@);
            assert(s0@.reads[h as int] == s0.files@[h as int].pending_reads@);
            assert(s0@.writes[h as int] == s0.files@[h as int].pending_writes@);
            assert(s0@.inputs.update(h as int, s0@.inputs[h as int]) =~= s0@.inputs);
            assert(s0@.writes.update(h as int, s0@.writes[h as int]) =~= s0@.writes);
            lemma_io_wf_tasks(s0@, self@, h as int);
        }
    }

    /// Queues a write task on descriptor `h`.
    pub fn add_pending_write(&mut self, h: usize, task: WriteTask)
        requires
            io_wf(old(self)@),
            h < old(self)@.kinds.len(),
            task.wf(),
        ensures
            io_wf(final(self)@),
            final(self)@ == (IoView {
                writes: old(self)@.writes.update(h as int, old(self)@.writes[h as int].push(task)),
                ..old(self)@
            }),
    {
        let ghost s0 = *self;
        self.files[h].pending_writes.push(task);
        proof {
            lemma_file_updated(s0, *self, h as int);
            assert(self.files@[h as int].input == s0.files@[h as int].input);
            assert(s0@.inputs[h as int] == s0.files@[h as int].input@);
            assert(s0@.reads[h as int] == s0.files@[h as int].pending_reads@);
            assert(s0@.writes[h as int] == s0.files@[h as int].pending_writes@);
            assert(s0@.inputs.update(h as int, s0@.inputs[h as int]) =~= s0@.inputs);
            assert(s0@.reads.update(h as int, s0@.reads[h as int]) =~= s0@.reads);
            lemma_io_wf_tasks(s0@, self@, h as int);
        }
    }

    /// Retries the read tasks waiting on descriptor `h`, oldest first; those that
    /// still block go back to the end of the queue.
    pub fn notify_pending_readers(&mut self, h: usize, procs: &mut IdTable<ProcessControlBlock>)
        requires
            io_wf(old(self)@),
            h < old(self)@.kinds.len(),
            table_wf(old(procs)@),
        ensures
            io_frame(old(self)@, final(self)@, old(procs)@, final(procs)@),
            old(self)@.reads[h as int].len() == 0 ==> final(self)@ == old(self)@ && final(procs)@
                == old(procs)@,
    {
        self.notify_readers_at(h, procs, true)
    }

    /// Retries the write tasks waiting on descriptor `h`, oldest first; those
    /// that still block go back to the end of the queue.
    pub fn notify_pending_writers(&mut self, h: usize, procs: &mut IdTable<ProcessControlBlock>)
        requires
            io_wf(old(self)@),
            h < old(self)@.kinds.len(),
            table_wf(old(procs)@),
        ensures
            io_frame(old(self)@, final(self)@, old(procs)@, final(procs)@),
            old(self)@.writes[h as int].len() == 0 ==> final(self)@ == old(self)@ && final(procs)@
                == old(procs)@,
    {
        self.notify_writers_at(h, procs, true)
    }

    /// A byte received by the UART of descriptor `h`: it joins the input buffer
    /// if there is room (else it is dropped), and then the waiting readers are
    /// retried.
    pub fn on_interrupt(&mut self, h: usize, byte: u8, procs: &mut IdTable<ProcessControlBlock>)
        requires
            io_wf(old(self)@),
            h < old(self)@.kinds.len(),
            old(self)@.kinds[h as int] is Uart,
            table_wf(old(procs)@),
        ensures
            io_frame(old(self)@, final(self)@, old(procs)@, final(procs)@),
            single_reader(old(self)@, h as int, old(procs)@) && old(self)@.inputs[h as int].len()
                < KEYBOARD_BUFFER ==> exists|t1: ReadTask, r: Option<u32>|
                retried_once(
                    with_byte(old(self)@, h as int, byte),
                    final(self)@,
                    h as int,
                    true,
                    t1,
                    old(procs)@,
                    final(procs)@,
                    r,
                ),
            interrupt_completes(old(self)@, h as int, old(procs)@) ==> {
                let t = old(self)@.reads[h as int][0].base_spec();
                &&& final(self)@.reads[h as int].len() == 0
                &&& table_updated(
                    old(procs)@,
                    final(procs)@,
                    t.pid_spec(),
                    unblocked_view(old(procs)@[t.pid_spec()]@, t.length_spec() as u32),
                )
            },
            old(self)@.reads[h as int].len() == 0 ==> {
                &&& final(self)@ == IoView {
                    inputs: old(self)@.inputs.update(
                        h as int,
                        if old(self)@.inputs[h as int].len() < KEYBOARD_BUFFER {
                            old(self)@.inputs[h as int].push(byte)
                        } else {
                            old(self)@.inputs[h as int]
                        },
                    ),
                    ..old(self)@
                }
                &&& final(procs)@ == old(procs)@
            },
    {
        let ghost s0 = *self;
        assert(self.files@[h as int].input@ == self@.inputs[h as int]);
        if self.files[h].input.len() < KEYBOARD_BUFFER {
            self.files[h].input.push_back(byte);
            proof {
                lemma_file_updated(s0, *self, h as int);
                assert(s0@.reads[h as int] == s0.files@[h as int].pending_reads@);
                assert(s0@.writes[h as int] == s0.files@[h as int].pending_writes@);
                assert(s0@.reads.update(h as int, s0@.reads[h as int]) =~= s0@.reads);
                assert(s0@.writes.update(h as int, s0@.writes[h as int]) =~= s0@.writes);
                lemma_io_wf_inputs_grow(s0@, h as int, self@.inputs[h as int]);
                assert(self@.inputs =~= with_byte(s0@, h as int, byte).inputs);
                assert(self@ == with_byte(s0@, h as int, byte));
            }
            self.notify_readers_at(h, procs, true);
        } else {
            assert(s0@.inputs.update(h as int, s0@.inputs[h as int]) =~= s0@.inputs);
        }
    }

    /// Asks for `bytes` to be stored into the memory of process `pid` at
    /// `address`.
    pub fn store(&mut self, pid: i32, address: u32, bytes: Vec<u8>)
        requires
            io_wf(old(self)@),
        ensures
            io_wf(final(self)@),
            final(self)@.user_writes.len() == old(self)@.user_writes.len() + 1,
            final(self)@.user_writes.last().pid == pid,
            final(self)@.user_writes.last().address == address,
            final(self)@.user_writes.last().bytes@ == bytes@,
            final(self)@ == (IoView { user_writes: final(self)@.user_writes, ..old(self)@ }),
            final(self)@.user_writes.drop_last() == old(self)@.user_writes,
    {
        self.user_writes.push(UserWrite { pid, address, bytes });
        assert(self@.user_writes.drop_last() =~= old(self)@.user_writes);
    }

    /// A new pipe and its two ends; returns the handles of the read end and
    /// the write end.
    pub fn new_pipe(&mut self) -> (r: (usize, usize))
        requires
            io_wf(old(self)@),
            old(self)@.kinds.len() + 2 <= usize::MAX,
            old(self)@.buffers.len() + 1 < usize::MAX,
        ensures
            io_wf(final(self)@),
            r.0 == old(self)@.kinds.len(),
            r.1 == old(self)@.kinds.len() + 1,
            final(self)@ == (IoView {
                kinds: old(self)@.kinds.push(
                    FileKind::PipeRead { pipe: old(self)@.buffers.len() as usize },
                ).push(FileKind::PipeWrite { pipe: old(self)@.buffers.len() as usize }),
                inputs: old(self)@.inputs.push(Seq::empty()).push(Seq::empty()),
                reads: old(self)@.reads.push(Seq::empty()).push(Seq::empty()),
                writes: old(self)@.writes.push(Seq::empty()).push(Seq::empty()),
                buffers: old(self)@.buffers.push(Seq::empty()),
                ends: old(self)@.ends.push((r.0, r.1)),
                ..old(self)@
            }),
    {
        let ghost v0 = self@;
        let p = self.pipes.len();
        let rd = self.files.len();
        let wr = rd + 1;
        self.files.push(IoManager::descriptor(FileKind::PipeRead { pipe: p }));
        self.files.push(IoManager::descriptor(FileKind::PipeWrite { pipe: p }));
        self.pipes.push(UnnamedPipe { buffer: VecDeque::new(), read_end: rd, write_end: wr });
        let ghost v1 = IoView {
            kinds: v0.kinds.push(FileKind::PipeRead { pipe: p }).push(FileKind::PipeWrite { pipe: p }),
            inputs: v0.inputs.push(Seq::empty()).push(Seq::empty()),
            reads: v0.reads.push(Seq::empty()).push(Seq::empty()),
            writes: v0.writes.push(Seq::empty()).push(Seq::empty()),
            buffers: v0.buffers.push(Seq::empty()),
            ends: v0.ends.push((rd, wr)),
            ..v0
        };
        assert(self@.kinds =~= v1.kinds);
        assert(self@.inputs =~= v1.inputs);
        assert(self@.reads =~= v1.reads);
        assert(self@.writes =~= v1.writes);
        assert(self@.buffers =~= v1.buffers);
        assert(self@.ends =~= v1.ends);
        assert(self@.devices =~= v1.devices);
        assert forall|k: int| 0 <= k < v1.kinds.len() implies kind_wf(v1, #[trigger] v1.kinds[k]) by {
            if k < v0.kinds.len() {
                assert(kind_wf(v0, v0.kinds[k]));
            }
        }
        assert forall|k: int, i: int| 0 <= k < v1.kinds.len() && 0 <= i < v1.reads[k].len() implies (
        #[trigger] v1.reads[k][i]).wf() by {
            assert(v0.reads[k][i].wf());
        }
        assert forall|k: int, i: int| 0 <= k < v1.kinds.len() && 0 <= i < v1.writes[k].len() implies (
        #[trigger] v1.writes[k][i]).wf() by {
            assert(v0.writes[k][i].wf());
        }
        (rd, wr)
    }
}

proof fn lemma_io_wf_inputs_grow(v: IoView, h: int, input: Seq<u8>)
    requires
        io_wf(v),
        0 <= h < v.kinds.len(),
        input.len() <= KEYBOARD_BUFFER,
    ensures
        io_wf(IoView { inputs: v.inputs.update(h, input), ..v }),
{
    let w = IoView { inputs: v.inputs.update(h, input), ..v };
    assert forall|k: int| 0 <= k < w.kinds.len() implies kind_wf(w, #[trigger] w.kinds[k]) by {
        assert(kind_wf(v, v.kinds[k]));
    }
}

/// A pipe round trip: on an empty pipe, a write of at most its capacity that
/// wakes nobody takes every byte without blocking, and a read of as many bytes
/// then returns them in order and leaves the pipe empty. A write of one byte
/// more than the capacity takes exactly the capacity and reports that it
/// blocked; a read of the capacity then returns those bytes without blocking.
pub proof fn lemma_pipe_round_trip(
    v0: IoView,
    v1: IoView,
    v2: IoView,
    pipe: int,
    data: Seq<u8>,
    w: IOResult,
    max: int,
    into0: Seq<u8>,
    into1: Seq<u8>,
    r: IOResult,
)
    requires
        0 <= pipe < v0.buffers.len(),
        v0.buffers[pipe].len() == 0,
        data.len() <= PIPE_BUFFER + 1,
        max == (if data.len() <= PIPE_BUFFER { data.len() as int } else { PIPE_BUFFER as int }),
        pipe_write_post(v0, v1, pipe, data, w),
        pipe_read_post(v1, v2, pipe, max, into0, into1, r),
    ensures
        data.len() <= PIPE_BUFFER ==> {
            &&& w == IOResult { bytes: data.len() as usize, blocked: false }
            &&& r == IOResult { bytes: data.len() as usize, blocked: false }
            &&& into1 == into0 + data
        },
        data.len() == PIPE_BUFFER + 1 ==> {
            &&& w == IOResult { bytes: PIPE_BUFFER, blocked: true }
            &&& r == IOResult { bytes: PIPE_BUFFER, blocked: false }
            &&& into1 == into0 + data.take(PIPE_BUFFER as int)
        },
        v2.buffers[pipe].len() == 0,
{
    let n = filled(data.len() as int, PIPE_BUFFER as int, 0);
    assert(v1.buffers[pipe] =~= data.take(n));
    assert(v1.buffers[pipe].take(max) =~= data.take(n));
    if data.len() <= PIPE_BUFFER {
        assert(data.take(n) =~= data);
    }
}


/// The subsystem with every task of process `pid` dropped.
pub open spec fn forget_spec(v: IoView, pid: i32) -> IoView {
    IoView {
        reads: Seq::new(v.reads.len(), |h: int| v.reads[h].filter(read_of_other(pid))),
        writes: Seq::new(v.writes.len(), |h: int| v.writes[h].filter(write_of_other(pid))),
        ..v
    }
}

pub open spec fn read_of_other(pid: i32) -> spec_fn(ReadTask) -> bool {
    |t: ReadTask| t.base_spec().pid_spec() != pid
}

pub open spec fn write_of_other(pid: i32) -> spec_fn(WriteTask) -> bool {
    |t: WriteTask| t.base_spec().pid_spec() != pid
}

fn drop_reads_of(q: &mut Vec<ReadTask>, pid: i32)
    ensures
        final(q)@ == old(q)@.filter(read_of_other(pid)),
{
    let ghost s0 = q@;
    let mut kept: Vec<ReadTask> = Vec::new();
    let mut rest: Vec<ReadTask> = Vec::new();
    std::mem::swap(&mut rest, q);
    let ghost mut i: int = 0;
    assert(s0.take(0) =~= Seq::<ReadTask>::empty());
    proof {
        reveal(Seq::filter);
    }
    while rest.len() > 0
        invariant
            0 <= i <= s0.len(),
            rest@ == s0.skip(i),
            kept@ == s0.take(i).filter(read_of_other(pid)),
        decreases rest@.len(),
    {
        let t = rest.remove(0);
        proof {
            reveal(Seq::filter);
            assert(t == s0[i]);
            assert(s0.take(i + 1).drop_last() =~= s0.take(i));
            assert(s0.take(i + 1).last() == t);
            assert(s0.skip(i).subrange(1, s0.skip(i).len() as int) =~= s0.skip(i + 1));
        }
        if t.base().pid() != pid {
            kept.push(t);
        }
        proof {
            i = i + 1;
        }
    }
    assert(s0.take(i) =~= s0);
    *q = kept;
}

fn drop_writes_of(q: &mut Vec<WriteTask>, pid: i32)
    ensures
        final(q)@ == old(q)@.filter(write_of_other(pid)),
{
    let ghost s0 = q@;
    let mut kept: Vec<WriteTask> = Vec::new();
    let mut rest: Vec<WriteTask> = Vec::new();
    std::mem::swap(&mut rest, q);
    let ghost mut i: int = 0;
    assert(s0.take(0) =~= Seq::<WriteTask>::empty());
    proof {
        reveal(Seq::filter);
    }
    while rest.len() > 0
        invariant
            0 <= i <= s0.len(),
            rest@ == s0.skip(i),
            kept@ == s0.take(i).filter(write_of_other(pid)),
        decreases rest@.len(),
    {
        let t = rest.remove(0);
        proof {
            reveal(Seq::filter);
            assert(t == s0[i]);
            assert(s0.take(i + 1).drop_last() =~= s0.take(i));
            assert(s0.take(i + 1).last() == t);
            assert(s0.skip(i).subrange(1, s0.skip(i).len() as int) =~= s0.skip(i + 1));
        }
        if t.base().pid() != pid {
            kept.push(t);
        }
        proof {
            i = i + 1;
        }
    }
    assert(s0.take(i) =~= s0);
    *q = kept;
}

impl FileDescriptor {
    fn forget(&mut self, pid: i32)
        ensures
            final(self).kind == old(self).kind,
            final(self).input == old(self).input,
            final(self).pending_reads@ == old(self).pending_reads@.filter(read_of_other(pid)),
            final(self).pending_writes@ == old(self).pending_writes@.filter(write_of_other(pid)),
    {
        drop_reads_of(&mut self.pending_reads, pid);
        drop_writes_of(&mut self.pending_writes, pid);
    }
}

impl IoManager {
    /// Drops every task of process `pid` from every descriptor, as the process
    /// is gone: no later transfer touches its memory or its table entry.
    pub fn forget_process(&mut self, pid: i32)
        requires
            io_wf(old(self)@),
        ensures
            io_wf(final(self)@),
            final(self)@ == forget_spec(old(self)@, pid),
    {
        let ghost v0 = self@;
        let n = self.files.len();
        let mut h: usize = 0;
        assert(Seq::new(
            v0.reads.len(),
            |k: int| if k < 0 { v0.reads[k].filter(read_of_other(pid)) } else { v0.reads[k] },
        ) =~= v0.reads);
        assert(Seq::new(
            v0.writes.len(),
            |k: int| if k < 0 { v0.writes[k].filter(write_of_other(pid)) } else { v0.writes[k] },
        ) =~= v0.writes);
        while h < n
            invariant
                n == v0.kinds.len(),
                v0 == old(self)@,
                io_wf(v0),
                h <= n,
                self@ == (IoView {
                    reads: Seq::new(
                        v0.reads.len(),
                        |k: int| if k < h { v0.reads[k].filter(read_of_other(pid)) } else { v0.reads[k] },
                    ),
                    writes: Seq::new(
                        v0.writes.len(),
                        |k: int| if k < h { v0.writes[k].filter(write_of_other(pid)) } else { v0.writes[k] },
                    ),
                    ..v0
                }),
            decreases n - h,
        {
            let ghost s0 = *self;
            self.files[h].forget(pid);
            proof {
                lemma_file_updated(s0, *self, h as int);
                assert(self.files@[h as int].input == s0.files@[h as int].input);
                assert(s0@.inputs[h as int] == s0.files@[h as int].input@);
                assert(s0@.inputs.update(h as int, s0@.inputs[h as int]) =~= s0@.inputs);
                let nr = Seq::new(
                    v0.reads.len(),
                    |k: int| if k < h + 1 { v0.reads[k].filter(read_of_other(pid)) } else { v0.reads[k] },
                );
                let nw = Seq::new(
                    v0.writes.len(),
                    |k: int| if k < h + 1 { v0.writes[k].filter(write_of_other(pid)) } else { v0.writes[k] },
                );
                assert(s0@.reads[h as int] == s0.files@[h as int].pending_reads@);
                assert(s0@.writes[h as int] == s0.files@[h as int].pending_writes@);
                assert(s0@.reads[h as int] == v0.reads[h as int]);
                assert(s0@.writes[h as int] == v0.writes[h as int]);
                assert forall|k: int| 0 <= k < nr.len() implies self@.reads[k] == nr[k] by {
                    if k != h {
                        assert(self@.reads[k] == s0@.reads[k]);
                    }
                }
                assert forall|k: int| 0 <= k < nw.len() implies self@.writes[k] == nw[k] by {
                    if k != h {
                        assert(self@.writes[k] == s0@.writes[k]);
                    }
                }
                assert(self@.reads =~= nr);
                assert(self@.writes =~= nw);
            }
            h = h + 1;
        }
        proof {
            assert(self@.reads =~= Seq::new(
                v0.reads.len(),
                |h: int| v0.reads[h].filter(read_of_other(pid)),
            ));
            assert(self@.writes =~= Seq::new(
                v0.writes.len(),
                |h: int| v0.writes[h].filter(write_of_other(pid)),
            ));
            let w = self@;
            assert forall|k: int| 0 <= k < w.kinds.len() implies kind_wf(w, #[trigger] w.kinds[k]) by {
                assert(kind_wf(v0, v0.kinds[k]));
            }
            assert forall|k: int, i: int| 0 <= k < w.kinds.len() && 0 <= i < w.reads[k].len() implies (
            #[trigger] w.reads[k][i]).wf() by {
                let t = w.reads[k][i];
                assert(w.reads[k].contains(t));
                v0.reads[k].lemma_filter_contains_rev(read_of_other(pid), t);
                let j = choose|j: int| 0 <= j < v0.reads[k].len() && v0.reads[k][j] == t;
                assert(v0.reads[k][j].wf());
            }
            assert forall|k: int, i: int| 0 <= k < w.kinds.len() && 0 <= i < w.writes[k].len() implies (
            #[trigger] w.writes[k][i]).wf() by {
                let t = w.writes[k][i];
                assert(w.writes[k].contains(t));
                v0.writes[k].lemma_filter_contains_rev(write_of_other(pid), t);
                let j = choose|j: int| 0 <= j < v0.writes[k].len() && v0.writes[k][j] == t;
                assert(v0.writes[k][j].wf());
            }
        }
    }
}

} // verus!
