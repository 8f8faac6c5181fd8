use vstd::prelude::*;
use crate::math::{exp_q16_spec, rsqrt_spec, silu_spec, exp_approx_q16, rsqrt_approx_i32, silu_approx_i8};
use super::instruction::Instruction;
use super::assembler::encode;
use crate::debug::{LifecycleCounters, ScopedResource};

verus! {

/// Bytes of the VM's own RAM.
pub const RAM_SIZE: usize = 1024;

/// Addresses from here up reach the mapped region.
pub const MMAP_BASE: u64 = 0x8000_0000;

/// Entries of the circular trace buffer.
pub const TRACE_CAPACITY: usize = 1024;

/// One executed instruction, as the trace buffer records it.
#[derive(Debug, Clone, Copy, PartialEq, Eq)]
pub struct TraceStep {
    pub pc: u32,
    pub inst: u32,
    pub reg_change: Option<(u8, u32)>,
    pub mem_change: Option<(u16, u32)>,
}

#[derive(Debug, Clone, Copy, PartialEq, Eq)]
pub enum VmError {
    DivideByZero { pc: usize },
    StackOverflow { pc: usize },
    StackUnderflow { pc: usize },
    InvalidOpcode { pc: usize, opcode: u8 },
    MemoryAccessOutOfBounds { pc: usize, addr: usize },
    MathError { pc: usize },
    OutOfFuel { pc: usize },
}

#[derive(Debug, Clone, Copy, PartialEq, Eq)]
pub enum VmResult {
    Halted(u32),
    Yielded(u32),
    Spawn(u32, u16, u8),
    Awaiting(u32, u32, u8),
    MmapRequest(u32, u32),
}

/// The f32 operations that the VM asks its host to perform on raw bit patterns.
#[derive(Debug, Clone, Copy, PartialEq, Eq)]
pub enum FloatOp {
    Add,
    Sub,
    Mul,
    Div,
}

/// Where a checked VM address lies: an offset into the RAM or into the mapped region.
#[derive(Debug, Clone, Copy, PartialEq, Eq)]
pub enum MemRef {
    Ram(usize),
    Mapped(usize),
}

/// The outcome of one executed instruction.
#[derive(Debug, Clone, Copy, PartialEq, Eq)]
pub enum Exec {
    /// Go on with the next instruction; what to record in the trace.
    Next { reg: Option<(u8, u32)>, mem: Option<(u16, u32)> },
    Halt,
    Yield,
    /// Leave the run with this result.
    Stop(Result<VmResult, VmError>),
}

/// The handlers a program reaches, and the f32 unit: what the VM does not compute
/// itself. Each method stands for one of the VM's handler slots; a host that has no
/// handler for a slot does nothing there. The VM reaches handlers through a
/// `RecordingHost`, which records what passes each way.
pub trait HostHandlers {
    /// An abort check is installed: the host's configuration, as the VM's abort slot
    /// holds a check or none.
    spec fn abort_installed(&self) -> bool;

    /// Whether an abort check is installed (a traced run polls it after every
    /// instruction).
    fn has_abort_flag(&self) -> (r: bool)
        ensures
            r == self.abort_installed(),
    ;

    /// The installed check's answer: whether the run is to stop now.
    fn abort_requested(&mut self) -> bool;

    /// A debug hook is installed: the host's configuration, as the VM's hook slot holds
    /// a hook or none.
    spec fn hook_installed(&self) -> bool;

    /// Whether a debug hook is installed (a traced run shows it every instruction before
    /// it runs).
    fn has_debug_hook(&self) -> (r: bool)
        ensures
            r == self.hook_installed(),
    ;

    /// Shows the hook `inst`, about to run at `vm.pc`.
    fn debug_hook(&mut self, vm: &ScriptVm, inst: Instruction);

    fn print(&mut self, value: u32);

    fn syscall(&mut self, a: u32, b: u32, c: u32);

    fn hardware_call(&mut self, vm: &mut ScriptVm, a: usize, b: usize, c: usize);

    fn ui_call(&mut self, a: usize, b: usize, c: usize);

    fn neural_call(&mut self, vm: &mut ScriptVm, a: usize, b: usize, c: usize);

    /// The bits of `lhs op rhs` in f32, both operands given by their bits.
    fn float_binary(&mut self, op: FloatOp, lhs: u32, rhs: u32) -> u32;

    /// Whether `lhs < rhs` in f32, both operands given by their bits.
    fn float_less(&mut self, lhs: u32, rhs: u32) -> bool;
}

/// A host's handlers together with the record of everything that passes between them and
/// the VM, in order: the calls and what they are handed, the instructions shown to the
/// debug hook, the abort check's answers, the f32 results and comparisons, and the state
/// in which a hardware or neural handler leaves the VM.
pub struct RecordingHost<H: HostHandlers> {
    pub handlers: H,
    pub record: Ghost<Seq<HostEvent>>,
}

impl<H: HostHandlers> RecordingHost<H> {
    /// What has passed so far.
    pub open spec fn events(&self) -> Seq<HostEvent> {
        self.record@
    }

    pub open spec fn abort_installed(&self) -> bool {
        self.handlers.abort_installed()
    }

    pub open spec fn hook_installed(&self) -> bool {
        self.handlers.hook_installed()
    }

    /// `handlers`, with nothing recorded yet.
    pub fn new(handlers: H) -> (r: Self)
        ensures
            r.handlers == handlers,
            r.events() == Seq::<HostEvent>::empty(),
    {
        RecordingHost { handlers, record: Ghost(Seq::empty()) }
    }

    pub fn has_abort_flag(&self) -> (r: bool)
        ensures
            r == self.abort_installed(),
    {
        self.handlers.has_abort_flag()
    }

    pub fn has_debug_hook(&self) -> (r: bool)
        ensures
            r == self.hook_installed(),
    {
        self.handlers.has_debug_hook()
    }

    /// Polls the abort check and records its answer.
    pub fn abort_requested(&mut self) -> (r: bool)
        ensures
            final(self).events() == old(self).events().push(HostEvent::AbortPolled(r)),
    {
        let r = self.handlers.abort_requested();
        self.record = Ghost(self.record@.push(HostEvent::AbortPolled(r)));
        r
    }

    /// Shows the debug hook `inst`, about to run at `vm.pc`, and records it.
    pub fn debug_hook(&mut self, vm: &ScriptVm, inst: Instruction)
        ensures
            final(self).events() == old(self).events().push(HostEvent::DebugHook(vm.pc, inst)),
    {
        self.handlers.debug_hook(vm, inst);
        self.record = Ghost(self.record@.push(HostEvent::DebugHook(vm.pc, inst)));
    }

    pub fn print(&mut self, value: u32)
        ensures
            final(self).events() == old(self).events().push(HostEvent::Call(HostCall::Print(value))),
    {
        self.handlers.print(value);
        self.record = Ghost(self.record@.push(HostEvent::Call(HostCall::Print(value))));
    }

    pub fn syscall(&mut self, a: u32, b: u32, c: u32)
        ensures
            final(self).events() == old(self).events().push(HostEvent::Call(HostCall::Syscall(a, b, c))),
    {
        self.handlers.syscall(a, b, c);
        self.record = Ghost(self.record@.push(HostEvent::Call(HostCall::Syscall(a, b, c))));
    }

    /// Makes the hardware call, and records it and the state the handler leaves `vm` in.
    pub fn hardware_call(&mut self, vm: &mut ScriptVm, a: usize, b: usize, c: usize)
        ensures
            final(self).events() == old(self).events().push(HostEvent::Call(HostCall::Hardware(a, b, c))).push(
                HostEvent::Left(image(*final(vm))),
            ),
    {
        self.handlers.hardware_call(vm, a, b, c);
        self.record = Ghost(self.record@.push(HostEvent::Call(HostCall::Hardware(a, b, c))).push(
            HostEvent::Left(image(*vm)),
        ));
    }

    pub fn ui_call(&mut self, a: usize, b: usize, c: usize)
        ensures
            final(self).events() == old(self).events().push(HostEvent::Call(HostCall::Ui(a, b, c))),
    {
        self.handlers.ui_call(a, b, c);
        self.record = Ghost(self.record@.push(HostEvent::Call(HostCall::Ui(a, b, c))));
    }

    /// Makes the neural call, and records it and the state the handler leaves `vm` in.
    pub fn neural_call(&mut self, vm: &mut ScriptVm, a: usize, b: usize, c: usize)
        ensures
            final(self).events() == old(self).events().push(HostEvent::Call(HostCall::Neural(a, b, c))).push(
                HostEvent::Left(image(*final(vm))),
            ),
    {
        self.handlers.neural_call(vm, a, b, c);
        self.record = Ghost(self.record@.push(HostEvent::Call(HostCall::Neural(a, b, c))).push(
            HostEvent::Left(image(*vm)),
        ));
    }

    /// The f32 result of `lhs op rhs`, recorded with its operands.
    pub fn float_binary(&mut self, op: FloatOp, lhs: u32, rhs: u32) -> (r: u32)
        ensures
            final(self).events() == old(self).events().push(HostEvent::FloatBinary(op, lhs, rhs, r)),
    {
        let r = self.handlers.float_binary(op, lhs, rhs);
        self.record = Ghost(self.record@.push(HostEvent::FloatBinary(op, lhs, rhs, r)));
        r
    }

    /// Whether `lhs < rhs` in f32, recorded with its operands.
    pub fn float_less(&mut self, lhs: u32, rhs: u32) -> (r: bool)
        ensures
            final(self).events() == old(self).events().push(HostEvent::FloatLess(lhs, rhs, r)),
    {
        let r = self.handlers.float_less(lhs, rhs);
        self.record = Ghost(self.record@.push(HostEvent::FloatLess(lhs, rhs, r)));
        r
    }
}

pub struct ScriptVm {
    pub registers: [u32; 256],
    pub pc: usize,
    pub call_stack: [usize; 64],
    pub sp: usize,
    pub memory: [u8; 1024],
    /// The mapped region, reached at addresses `MMAP_BASE..`.
    pub mmap: Vec<u8>,
    pub max_steps: Option<u32>,
    pub tracing_enabled: bool,
    pub trace_buffer: [TraceStep; 1024],
    pub trace_head: usize,
    pub trace_count: usize,
    /// What has passed between the VM and its host so far, in order (see `HostEvent`).
    pub host_log: Ghost<Seq<HostEvent>>,
}

/// A VM's state apart from its log of exchanges with its host.
pub struct VmImage {
    pub registers: [u32; 256],
    pub pc: usize,
    pub call_stack: [usize; 64],
    pub sp: usize,
    pub memory: [u8; 1024],
    pub mmap: Vec<u8>,
    pub max_steps: Option<u32>,
    pub tracing_enabled: bool,
    pub trace_buffer: [TraceStep; 1024],
    pub trace_head: usize,
    pub trace_count: usize,
}

/// The state of `vm` apart from its log.
pub open spec fn image(vm: ScriptVm) -> VmImage {
    VmImage {
        registers: vm.registers,
        pc: vm.pc,
        call_stack: vm.call_stack,
        sp: vm.sp,
        memory: vm.memory,
        mmap: vm.mmap,
        max_steps: vm.max_steps,
        tracing_enabled: vm.tracing_enabled,
        trace_buffer: vm.trace_buffer,
        trace_head: vm.trace_head,
        trace_count: vm.trace_count,
    }
}

/// One exchange of the VM with its host.
pub enum HostEvent {
    /// A Print, SysCall, HardwareCall, UiCall or NeuralCall.
    Call(HostCall),
    /// The state in which a hardware or neural handler left the VM.
    Left(VmImage),
    /// The debug hook shown the instruction at this program counter, before it runs.
    DebugHook(usize, Instruction),
    /// The abort check polled, and its answer.
    AbortPolled(bool),
    /// An f32 operation on these operand bits, and the result's bits.
    FloatBinary(FloatOp, u32, u32, u32),
    /// An f32 comparison `lhs < rhs` of these operand bits, and its answer.
    FloatLess(u32, u32, bool),
}

/// `log` after `call` is handed over, a hardware or neural handler leaving the VM as `left`.
pub open spec fn handed_over(log: Seq<HostEvent>, call: HostCall, left: VmImage) -> Seq<HostEvent> {
    if call is Hardware || call is Neural {
        log.push(HostEvent::Call(call)).push(HostEvent::Left(left))
    } else {
        after_call(log, call)
    }
}

/// `pre` with the log of `post`.
pub open spec fn with_log(pre: ScriptVm, post: ScriptVm) -> ScriptVm {
    ScriptVm { host_log: post.host_log, ..pre }
}

/// The f32 operation of the arithmetic opcodes 8 to 11.
pub open spec fn float_op(op: u8) -> FloatOp {
    if op == 8 {
        FloatOp::Add
    } else if op == 9 {
        FloatOp::Sub
    } else if op == 10 {
        FloatOp::Mul
    } else {
        FloatOp::Div
    }
}

/// The result bits of an f32 event.
pub open spec fn float_result(ev: HostEvent) -> u32 {
    match ev {
        HostEvent::FloatBinary(_, _, _, r) => r,
        _ => 0,
    }
}

/// What `grown` added to `log`, which it extends.
pub open spec fn added(log: Seq<HostEvent>, grown: Seq<HostEvent>) -> Seq<HostEvent> {
    grown.subrange(log.len() as int, grown.len() as int)
}

/// `grown` is `log` with events added at the end.
pub open spec fn extends(log: Seq<HostEvent>, grown: Seq<HostEvent>) -> bool {
    log.len() <= grown.len() && grown.subrange(0, log.len() as int) == log
}

/// The running sum of a VecDot after `i` elements, as recorded in `evs`.
pub open spec fn dot_sum(evs: Seq<HostEvent>, i: int) -> u32 {
    if i <= 0 {
        0
    } else {
        float_result(evs[2 * i - 1])
    }
}

/// Element `i` of a VecDot over the f32 words of `x` from `ox` and of `y` from `oy`, as
/// recorded in `evs`: the product of the two words, then the running sum plus it.
pub open spec fn dot_element(evs: Seq<HostEvent>, x: Seq<u8>, ox: int, y: Seq<u8>, oy: int, i: int) -> bool {
    &&& evs[2 * i] == HostEvent::FloatBinary(FloatOp::Mul, word_at(x, ox + 4 * i), word_at(y, oy + 4 * i),
        float_result(evs[2 * i]))
    &&& evs[2 * i + 1] == HostEvent::FloatBinary(FloatOp::Add, dot_sum(evs, i), float_result(evs[2 * i]),
        float_result(evs[2 * i + 1]))
}

/// `evs` records a VecDot of `n` elements: two events per element.
pub open spec fn dot_recorded(evs: Seq<HostEvent>, x: Seq<u8>, ox: int, y: Seq<u8>, oy: int, n: int) -> bool {
    &&& evs.len() == 2 * n
    &&& forall|i: int| 0 <= i < n ==> #[trigger] dot_element(evs, x, ox, y, oy, i)
}

proof fn lemma_dot_extend(
    evs: Seq<HostEvent>,
    x: Seq<u8>,
    ox: int,
    y: Seq<u8>,
    oy: int,
    n: int,
    m: HostEvent,
    ad: HostEvent,
)
    requires
        n >= 0,
        dot_recorded(evs, x, ox, y, oy, n),
        m == HostEvent::FloatBinary(FloatOp::Mul, word_at(x, ox + 4 * n), word_at(y, oy + 4 * n), float_result(m)),
        ad == HostEvent::FloatBinary(FloatOp::Add, dot_sum(evs, n), float_result(m), float_result(ad)),
    ensures
        dot_recorded(evs.push(m).push(ad), x, ox, y, oy, n + 1),
        dot_sum(evs.push(m).push(ad), n + 1) == float_result(ad),
{
    let e2 = evs.push(m).push(ad);
    assert forall|i: int| 0 <= i < n + 1 implies #[trigger] dot_element(e2, x, ox, y, oy, i) by {
        if i < n {
            assert(dot_element(evs, x, ox, y, oy, i));
            assert(e2[2 * i] == evs[2 * i]);
            assert(e2[2 * i + 1] == evs[2 * i + 1]);
            if i > 0 {
                assert(e2[2 * i - 1] == evs[2 * i - 1]);
            }
        } else {
            if i > 0 {
                assert(e2[2 * i - 1] == evs[2 * i - 1]);
            }
        }
    }
}

/// Whether two references reach the same region (both the RAM, or both the mapped region).
pub open spec fn same_region(a: MemRef, b: MemRef) -> bool {
    (a is Ram) == (b is Ram)
}

/// The bytes of the region of `r` as a VecAdd or VecMul writing through `rd` finds them at
/// element `i`: the destination words before `i` as they end up in `post`, everything else
/// as in `pre`.
pub open spec fn bytes_at(pre: ScriptVm, post: ScriptVm, rd: MemRef, r: MemRef, i: int) -> Seq<u8> {
    if same_region(r, rd) {
        Seq::new(
            region(pre, r).len(),
            |k: int|
                if offset_of(rd) <= k < offset_of(rd) + 4 * i {
                    region(post, r)[k]
                } else {
                    region(pre, r)[k]
                },
        )
    } else {
        region(pre, r)
    }
}

/// Element `i` of a VecAdd or VecMul (`op`) from `pre` to `post`, as recorded in `evs`: the
/// host's result on the two source words as they stand then, which is the destination word.
pub open spec fn lane_element(
    evs: Seq<HostEvent>,
    pre: ScriptVm,
    post: ScriptVm,
    op: FloatOp,
    rd: MemRef,
    r1: MemRef,
    r2: MemRef,
    i: int,
) -> bool {
    evs[i] == HostEvent::FloatBinary(
        op,
        word_at(bytes_at(pre, post, rd, r1, i), offset_of(r1) + 4 * i),
        word_at(bytes_at(pre, post, rd, r2, i), offset_of(r2) + 4 * i),
        word_at(region(post, rd), offset_of(rd) + 4 * i),
    )
}

/// `evs` records the `n` elements of a VecAdd or VecMul, one event each.
pub open spec fn lanes_recorded(
    evs: Seq<HostEvent>,
    pre: ScriptVm,
    post: ScriptVm,
    op: FloatOp,
    rd: MemRef,
    r1: MemRef,
    r2: MemRef,
    n: int,
) -> bool {
    &&& evs.len() == n
    &&& forall|i: int| 0 <= i < n ==> #[trigger] lane_element(evs, pre, post, op, rd, r1, r2, i)
}

/// The four bytes `put_word` writes read back as the word.
proof fn lemma_word_at_put_word(bytes: Seq<u8>, off: int, v: u32)
    requires
        0 <= off,
        off + 4 <= bytes.len(),
    ensures
        word_at(put_word(bytes, off, v), off) == v,
{
    let b = put_word(bytes, off, v);
    let x = v as int;
    vstd::arithmetic::div_mod::lemma_fundamental_div_mod(x, 256);
    vstd::arithmetic::div_mod::lemma_fundamental_div_mod(x / 256, 256);
    vstd::arithmetic::div_mod::lemma_fundamental_div_mod(x / 65536, 256);
    vstd::arithmetic::div_mod::lemma_div_denominator(x, 256, 256);
    vstd::arithmetic::div_mod::lemma_div_denominator(x, 65536, 256);
    assert(b[off] == (v % 256) as u8);
    assert(b[off + 1] == ((v / 256) % 256) as u8);
    assert(b[off + 2] == ((v / 65536) % 256) as u8);
    assert(b[off + 3] == (v / 16777216) as u8);
}

/// One more element written: element `i` of a VecAdd or VecMul, from `s` to `s2`.
proof fn lemma_lane_step(
    evs: Seq<HostEvent>,
    start: ScriptVm,
    s: ScriptVm,
    s2: ScriptVm,
    op: FloatOp,
    rd: MemRef,
    r1: MemRef,
    r2: MemRef,
    i: int,
    v1: u32,
    v2: u32,
    v: u32,
)
    requires
        0 <= i,
        lanes_recorded(evs, start, s, op, rd, r1, r2, i),
        0 <= offset_of(rd),
        offset_of(rd) + 4 * i + 4 <= region(s, rd).len(),
        0 <= offset_of(r1),
        offset_of(r1) + 4 * i + 4 <= region(s, r1).len(),
        0 <= offset_of(r2),
        offset_of(r2) + 4 * i + 4 <= region(s, r2).len(),
        region(s, rd).len() == region(start, rd).len(),
        forall|k: int|
            0 <= k < region(start, rd).len() && !(offset_of(rd) <= k < offset_of(rd) + 4 * i)
                ==> region(s, rd)[k] == region(start, rd)[k],
        !same_region(r1, rd) ==> region(s, r1) == region(start, r1),
        !same_region(r2, rd) ==> region(s, r2) == region(start, r2),
        same_region(r1, rd) ==> region(s, r1) == region(s, rd) && region(start, r1) == region(start, rd),
        same_region(r2, rd) ==> region(s, r2) == region(s, rd) && region(start, r2) == region(start, rd),
        region(s2, rd) == put_word(region(s, rd), offset_of(rd) + 4 * i, v),
        !same_region(r1, rd) ==> region(s2, r1) == region(s, r1),
        !same_region(r2, rd) ==> region(s2, r2) == region(s, r2),
        same_region(r1, rd) ==> region(s2, r1) == region(s2, rd),
        same_region(r2, rd) ==> region(s2, r2) == region(s2, rd),
        v1 == word_at(region(s, r1), offset_of(r1) + 4 * i),
        v2 == word_at(region(s, r2), offset_of(r2) + 4 * i),
    ensures
        lanes_recorded(evs.push(HostEvent::FloatBinary(op, v1, v2, v)), start, s2, op, rd, r1, r2, i + 1),
        forall|k: int|
            0 <= k < region(start, rd).len() && !(offset_of(rd) <= k < offset_of(rd) + 4 * (i + 1))
                ==> region(s2, rd)[k] == region(start, rd)[k],
{
    let od = offset_of(rd);
    let e2 = evs.push(HostEvent::FloatBinary(op, v1, v2, v));
    // Bytes before element `i`'s word stay as they were.
    assert forall|k: int| 0 <= k < od + 4 * i implies region(s2, rd)[k] == region(s, rd)[k] by {}
    assert forall|j: int, r: MemRef| 0 <= j <= i && (r == r1 || r == r2) implies #[trigger] bytes_at(start, s2, rd,
        r, j) == bytes_at(start, s, rd, r, j) by {
        if same_region(r, rd) {
            assert(bytes_at(start, s2, rd, r, j) =~= bytes_at(start, s, rd, r, j));
        }
    }
    assert forall|r: MemRef| r == r1 || r == r2 implies #[trigger] bytes_at(start, s, rd, r, i) == region(s, r) by {
        if same_region(r, rd) {
            assert(bytes_at(start, s, rd, r, i) =~= region(s, r));
        }
    }
    lemma_word_at_put_word(region(s, rd), od + 4 * i, v);
    assert forall|j: int| 0 <= j < i + 1 implies #[trigger] lane_element(e2, start, s2, op, rd, r1, r2, j) by {
        assert(bytes_at(start, s2, rd, r1, j) == bytes_at(start, s, rd, r1, j));
        assert(bytes_at(start, s2, rd, r2, j) == bytes_at(start, s, rd, r2, j));
        if j < i {
            assert(lane_element(evs, start, s, op, rd, r1, r2, j));
            assert(e2[j] == evs[j]);
            assert(word_at(region(s2, rd), od + 4 * j) == word_at(region(s, rd), od + 4 * j));
        } else {
            assert(bytes_at(start, s, rd, r1, i) == region(s, r1));
            assert(bytes_at(start, s, rd, r2, i) == region(s, r2));
        }
    }
}

proof fn lemma_added_push(log: Seq<HostEvent>, grown: Seq<HostEvent>, ev: HostEvent)
    requires
        extends(log, grown),
    ensures
        extends(log, grown.push(ev)),
        added(log, grown.push(ev)) == added(log, grown).push(ev),
{
    assert(grown.push(ev).subrange(0, log.len() as int) =~= grown.subrange(0, log.len() as int));
    assert(added(log, grown.push(ev)) =~= added(log, grown).push(ev));
}

/// `vm` with `ev` added to what it has handed its host.
pub open spec fn with_event(vm: ScriptVm, ev: HostEvent) -> ScriptVm {
    ScriptVm { host_log: Ghost(vm.host_log@.push(ev)), ..vm }
}

/// `log` after `call` is handed over: a call that is `Nothing` hands nothing.
pub open spec fn after_call(log: Seq<HostEvent>, call: HostCall) -> Seq<HostEvent> {
    if call is Nothing {
        log
    } else {
        log.push(HostEvent::Call(call))
    }
}

/// The host's record went from `h0` to `h1` by exactly the events the VM's log gained
/// going from `l0` to `l1`, in the same order.
pub open spec fn handed(h0: Seq<HostEvent>, l0: Seq<HostEvent>, h1: Seq<HostEvent>, l1: Seq<HostEvent>) -> bool {
    &&& l0.len() <= l1.len()
    &&& l1.subrange(0, l0.len() as int) == l0
    &&& h1 == h0 + l1.subrange(l0.len() as int, l1.len() as int)
}

proof fn lemma_handed_same(h: Seq<HostEvent>, l: Seq<HostEvent>)
    ensures
        handed(h, l, h, l),
{
    assert(l.subrange(0, l.len() as int) =~= l);
    assert(h + l.subrange(l.len() as int, l.len() as int) =~= h);
}

proof fn lemma_handed_push(h0: Seq<HostEvent>, l0: Seq<HostEvent>, h1: Seq<HostEvent>, l1: Seq<HostEvent>, ev: HostEvent)
    requires
        handed(h0, l0, h1, l1),
    ensures
        handed(h0, l0, h1.push(ev), l1.push(ev)),
{
    assert(l1.push(ev).subrange(0, l0.len() as int) =~= l1.subrange(0, l0.len() as int));
    assert(h0 + l1.push(ev).subrange(l0.len() as int, l1.len() + 1 as int) =~= (h0 + l1.subrange(l0.len() as int,
        l1.len() as int)).push(ev));
}

proof fn lemma_handed_trans(
    h0: Seq<HostEvent>,
    l0: Seq<HostEvent>,
    h1: Seq<HostEvent>,
    l1: Seq<HostEvent>,
    h2: Seq<HostEvent>,
    l2: Seq<HostEvent>,
)
    requires
        handed(h0, l0, h1, l1),
        handed(h1, l1, h2, l2),
    ensures
        handed(h0, l0, h2, l2),
{
    assert(l2.subrange(0, l0.len() as int) =~= l1.subrange(0, l0.len() as int)) by {
        assert forall|i: int| 0 <= i < l0.len() implies l2.subrange(0, l0.len() as int)[i] == l1.subrange(0,
            l0.len() as int)[i] by {
            assert(l2.subrange(0, l1.len() as int)[i] == l1[i]);
        }
    }
    assert(l2.subrange(l0.len() as int, l2.len() as int) =~= l1.subrange(l0.len() as int, l1.len() as int)
        + l2.subrange(l1.len() as int, l2.len() as int)) by {
        assert forall|i: int| 0 <= i < l1.len() - l0.len() implies l2.subrange(l0.len() as int, l2.len() as int)[i]
            == l1.subrange(l0.len() as int, l1.len() as int)[i] by {
            assert(l2.subrange(0, l1.len() as int)[l0.len() + i] == l1[l0.len() + i]);
        }
    }
    assert(h2 =~= h0 + l2.subrange(l0.len() as int, l2.len() as int));
}

// ---------------------------------------------------------------------------
// The model of one instruction.

pub open spec fn reg(vm: ScriptVm, i: int) -> u32 {
    vm.registers@[i]
}

/// Every field but the registers is the same.
pub open spec fn same_but_registers(pre: ScriptVm, post: ScriptVm) -> bool {
    &&& post.pc == pre.pc
    &&& post.call_stack@ == pre.call_stack@
    &&& post.sp == pre.sp
    &&& post.memory@ == pre.memory@
    &&& post.mmap@ == pre.mmap@
    &&& post.max_steps == pre.max_steps
    &&& post.tracing_enabled == pre.tracing_enabled
    &&& post.trace_buffer@ == pre.trace_buffer@
    &&& post.trace_head == pre.trace_head
    &&& post.trace_count == pre.trace_count
    &&& post.host_log@ == pre.host_log@
}

pub open spec fn same_state(pre: ScriptVm, post: ScriptVm) -> bool {
    post.registers@ == pre.registers@ && same_but_registers(pre, post)
}

/// `post` is `pre` with register `i` set to `v`.
pub open spec fn writes_reg(pre: ScriptVm, post: ScriptVm, i: int, v: u32) -> bool {
    post.registers@ == pre.registers@.update(i, v) && same_but_registers(pre, post)
}

/// `post` is `pre` with only the program counter set to `pc`.
pub open spec fn jumps(pre: ScriptVm, post: ScriptVm, pc: int) -> bool {
    &&& post.pc == pc
    &&& post.registers@ == pre.registers@
    &&& post.call_stack@ == pre.call_stack@
    &&& post.sp == pre.sp
    &&& post.memory@ == pre.memory@
    &&& post.mmap@ == pre.mmap@
    &&& post.max_steps == pre.max_steps
    &&& post.tracing_enabled == pre.tracing_enabled
    &&& post.trace_buffer@ == pre.trace_buffer@
    &&& post.trace_head == pre.trace_head
    &&& post.trace_count == pre.trace_count
    &&& post.host_log@ == pre.host_log@
}

/// Where `len` bytes at `addr` lie, if they lie in the RAM or in the mapped region.
pub open spec fn resolve_spec(vm: ScriptVm, addr: int, len: int) -> Option<MemRef> {
    if addr < 1024 {
        if addr + len <= 1024 {
            Some(MemRef::Ram(addr as usize))
        } else {
            None
        }
    } else if addr >= MMAP_BASE {
        if addr - MMAP_BASE + len <= vm.mmap@.len() {
            Some(MemRef::Mapped((addr - MMAP_BASE) as usize))
        } else {
            None
        }
    } else {
        None
    }
}

/// The bytes of the region a reference points into.
pub open spec fn region(vm: ScriptVm, r: MemRef) -> Seq<u8> {
    match r {
        MemRef::Ram(_) => vm.memory@,
        MemRef::Mapped(_) => vm.mmap@,
    }
}

pub open spec fn offset_of(r: MemRef) -> int {
    match r {
        MemRef::Ram(o) => o as int,
        MemRef::Mapped(o) => o as int,
    }
}

/// The little-endian word of four bytes.
pub open spec fn le_word(b0: u8, b1: u8, b2: u8, b3: u8) -> u32 {
    (b0 + 256 * b1 + 65536 * b2 + 16777216 * b3) as u32
}

pub open spec fn word_at(bytes: Seq<u8>, off: int) -> u32 {
    le_word(bytes[off], bytes[off + 1], bytes[off + 2], bytes[off + 3])
}

/// `bytes` with the little-endian bytes of `v` at `off..off + 4`.
pub open spec fn put_word(bytes: Seq<u8>, off: int, v: u32) -> Seq<u8> {
    bytes.update(off, (v % 256) as u8).update(off + 1, ((v / 256) % 256) as u8).update(
        off + 2,
        ((v / 65536) % 256) as u8,
    ).update(off + 3, (v / 16777216) as u8)
}

/// `post` is `pre` with the region of `r` replaced by `bytes`.
pub open spec fn writes_region(pre: ScriptVm, post: ScriptVm, r: MemRef, bytes: Seq<u8>) -> bool {
    &&& post.registers@ == pre.registers@
    &&& post.pc == pre.pc
    &&& post.call_stack@ == pre.call_stack@
    &&& post.sp == pre.sp
    &&& match r {
        MemRef::Ram(_) => post.memory@ == bytes && post.mmap@ == pre.mmap@,
        MemRef::Mapped(_) => post.mmap@ == bytes && post.memory@ == pre.memory@,
    }
    &&& post.max_steps == pre.max_steps
    &&& post.tracing_enabled == pre.tracing_enabled
    &&& post.trace_buffer@ == pre.trace_buffer@
    &&& post.trace_head == pre.trace_head
    &&& post.trace_count == pre.trace_count
    &&& post.host_log@ == pre.host_log@
}

/// Results of the integer operations, by opcode.
pub open spec fn alu_value(op: u8, x: u32, y: u32) -> u32 {
    if op == 3 {
        ((x + y) % 4294967296) as u32
    } else if op == 4 {
        ((x - y + 4294967296) % 4294967296) as u32
    } else if op == 5 {
        ((x * y) % 4294967296) as u32
    } else if op == 6 {
        (x / y) as u32
    } else if op == 7 {
        (x % y) as u32
    } else if op == 12 {
        x & y
    } else if op == 13 {
        x | y
    } else if op == 14 {
        x ^ y
    } else if op == 15 {
        x << (y % 32)
    } else if op == 16 {
        x >> (y % 32)
    } else if op == 17 {
        if x == y { 1 } else { 0 }
    } else {
        if x < y { 1 } else { 0 }
    }
}

/// Add and Sub wrap modulo 2^32 and undo each other: subtracting `y` then adding it back
/// gives `x`, and so does adding then subtracting; Add does not depend on the order of its
/// operands, and adding 0 changes nothing.
pub proof fn lemma_alu_add_sub(x: u32, y: u32)
    ensures
        (alu_value(4, x, y) as int + y as int) % 4294967296 == x as int,
        alu_value(3, alu_value(4, x, y), y) == x,
        alu_value(4, alu_value(3, x, y), y) == x,
        alu_value(3, x, y) == alu_value(3, y, x),
        alu_value(3, x, 0) == x,
        alu_value(4, x, 0) == x,
        alu_value(4, x, x) == 0,
        x >= y ==> alu_value(4, x, y) as int == x - y,
{
}

/// Mul wraps modulo 2^32: it does not depend on the order of its operands, multiplying by 1
/// changes nothing, by 0 gives 0, and multiplying by `y + 1` adds `x` to the product by `y`.
pub proof fn lemma_alu_mul(x: u32, y: u32)
    ensures
        alu_value(5, x, y) == alu_value(5, y, x),
        alu_value(5, x, 1) == x,
        alu_value(5, x, 0) == 0,
        y < u32::MAX ==> alu_value(5, x, (y + 1) as u32) == alu_value(3, alu_value(5, x, y), x),
        x as int * y as int <= u32::MAX ==> alu_value(5, x, y) as int == x * y,
{
    assert(x * y == y * x) by (nonlinear_arith);
    if y < u32::MAX {
        let p = x as int * y as int;
        assert(x as int * (y + 1) == p + x) by (nonlinear_arith)
            requires p == x as int * y as int;
        vstd::arithmetic::div_mod::lemma_add_mod_noop(p, x as int, 4294967296);
        vstd::arithmetic::div_mod::lemma_mod_twice(x as int, 4294967296);
    }
    if x as int * y as int <= u32::MAX {
        vstd::arithmetic::div_mod::lemma_small_mod((x * y) as nat, 4294967296);
    }
}

/// For a nonzero divisor, Div and Rem split the dividend: quotient times divisor plus
/// remainder is the dividend, and the remainder is below the divisor.
pub proof fn lemma_alu_div_rem(x: u32, y: u32)
    requires
        y != 0,
    ensures
        alu_value(6, x, y) as int * y as int + alu_value(7, x, y) as int == x as int,
        alu_value(7, x, y) < y,
{
    vstd::arithmetic::div_mod::lemma_fundamental_div_mod(x as int, y as int);
    assert((x as int / y as int) * y as int == y as int * (x as int / y as int)) by (nonlinear_arith);
}

/// Shr divides by 2^(y mod 32), rounding down; Shl multiplies by it where the product fits.
pub proof fn lemma_alu_shifts(x: u32, y: u32)
    ensures
        alu_value(16, x, y) as int == x as int / vstd::arithmetic::power2::pow2((y % 32) as nat) as int,
        x as int * vstd::arithmetic::power2::pow2((y % 32) as nat) <= u32::MAX ==> alu_value(15, x, y) as int
            == x as int * vstd::arithmetic::power2::pow2((y % 32) as nat),
{
    vstd::bits::lemma_u32_shr_is_div(x, y % 32);
    if x as int * vstd::arithmetic::power2::pow2((y % 32) as nat) <= u32::MAX {
        vstd::bits::lemma_u32_shl_is_mul(x, y % 32);
    }
}

/// Bit `i` of a 32-bit value.
pub open spec fn bit32(v: u32, i: u32) -> bool {
    (v >> i) & 1u32 == 1u32
}

proof fn lemma_bits_of_u32_ops(x: u32, y: u32, k: u32, i: u32)
    by (bit_vector)
    requires
        k < 32,
        i < 32,
    ensures
        ((x & y) >> i) & 1u32 == 1u32 <==> ((x >> i) & 1u32 == 1u32 && (y >> i) & 1u32 == 1u32),
        ((x | y) >> i) & 1u32 == 1u32 <==> ((x >> i) & 1u32 == 1u32 || (y >> i) & 1u32 == 1u32),
        ((x ^ y) >> i) & 1u32 == 1u32 <==> ((x >> i) & 1u32 == 1u32) != ((y >> i) & 1u32 == 1u32),
        ((x << k) >> i) & 1u32 == 1u32 <==> (i >= k && (x >> ((i - k) as u32)) & 1u32 == 1u32),
{
}

/// And, Or and Xor act bit by bit: bit `i` of the result is the conjunction, the
/// disjunction, or the difference of bit `i` of the operands. Shl moves bit `i - k` of `x`
/// to bit `i` (with `k` the shift, `y` mod 32) and leaves the low `k` bits clear.
pub proof fn lemma_alu_bitwise(x: u32, y: u32)
    ensures
        forall|i: u32| i < 32 ==> (#[trigger] bit32(alu_value(12, x, y), i) <==> (bit32(x, i) && bit32(y, i))),
        forall|i: u32| i < 32 ==> (#[trigger] bit32(alu_value(13, x, y), i) <==> (bit32(x, i) || bit32(y, i))),
        forall|i: u32| i < 32 ==> (#[trigger] bit32(alu_value(14, x, y), i) <==> (bit32(x, i) != bit32(y, i))),
        forall|i: u32| i < 32 ==> (#[trigger] bit32(alu_value(15, x, y), i) <==> (i >= y % 32 && bit32(
            x,
            (i - y % 32) as u32,
        ))),
{
    assert forall|i: u32| i < 32 implies (#[trigger] bit32(alu_value(12, x, y), i) <==> (bit32(x, i) && bit32(y, i))) by {
        lemma_bits_of_u32_ops(x, y, y % 32, i);
    }
    assert forall|i: u32| i < 32 implies (#[trigger] bit32(alu_value(13, x, y), i) <==> (bit32(x, i) || bit32(y, i))) by {
        lemma_bits_of_u32_ops(x, y, y % 32, i);
    }
    assert forall|i: u32| i < 32 implies (#[trigger] bit32(alu_value(14, x, y), i) <==> (bit32(x, i) != bit32(y, i))) by {
        lemma_bits_of_u32_ops(x, y, y % 32, i);
    }
    assert forall|i: u32| i < 32 implies (#[trigger] bit32(alu_value(15, x, y), i) <==> (i >= y % 32 && bit32(x,
        (i - y % 32) as u32))) by {
        lemma_bits_of_u32_ops(x, y, y % 32, i);
    }
}

/// CmpEq and CmpLt answer 1 exactly when the relation holds, 0 otherwise.
pub proof fn lemma_alu_compare(x: u32, y: u32)
    ensures
        alu_value(17, x, y) == 1 <==> x == y,
        alu_value(18, x, y) == 1 <==> x < y,
        alu_value(17, x, y) <= 1,
        alu_value(18, x, y) <= 1,
{
}

/// The opcodes the VM computes from registers into a register.
pub open spec fn is_alu(op: u8, fast: bool) -> bool {
    (3 <= op <= 7) || (12 <= op <= 18)
}

/// The f32 value zero (either sign), by its bits.
pub open spec fn is_float_zero(bits: u32) -> bool {
    bits % 2147483648 == 0
}

/// The outcome of an instruction that writes register `a` with `v`.
pub open spec fn wrote(a: int, v: u32) -> Exec {
    Exec::Next { reg: Some((a as u8, v)), mem: None }
}

pub open spec fn plain() -> Exec {
    Exec::Next { reg: None, mem: None }
}

/// What a Print, SysCall, HardwareCall, UiCall or NeuralCall hands to the host.
#[derive(Clone, Copy, Debug, PartialEq, Eq)]
pub enum HostCall {
    Print(u32),
    Syscall(u32, u32, u32),
    Hardware(usize, usize, usize),
    Ui(usize, usize, usize),
    Neural(usize, usize, usize),
    /// A UiCall with a zero first operand or a second one outside 1..=4: no call.
    Nothing,
}

/// The call the host instruction `inst` hands to the host: Print the value of `R[A]`,
/// SysCall the values of `R[A]`, `R[B]`, `R[C]`, and the others the operands A, B, C.
pub open spec fn host_call_spec(vm: ScriptVm, inst: Instruction) -> HostCall {
    let op = inst.spec_opcode();
    let a = inst.spec_a();
    let b = inst.spec_b();
    let c = inst.spec_c();
    if op == 28 {
        HostCall::Print(reg(vm, a))
    } else if op == 29 {
        HostCall::Syscall(reg(vm, a), reg(vm, b), reg(vm, c))
    } else if op == 35 {
        HostCall::Hardware(a as usize, b as usize, c as usize)
    } else if op == 36 {
        if a != 0 && 1 <= b <= 4 {
            HostCall::Ui(a as usize, b as usize, c as usize)
        } else {
            HostCall::Nothing
        }
    } else {
        HostCall::Neural(a as usize, b as usize, c as usize)
    }
}

/// The semantics of one instruction. `pre` is the state with the program
/// counter already past the instruction; `steps` counts it. What the host
/// computes (f32 results and comparisons, the state a hardware or neural handler
/// leaves) is taken from the events the step adds to the log.
pub open spec fn exec_spec(
    pre: ScriptVm,
    post: ScriptVm,
    inst: Instruction,
    fast: bool,
    steps: u32,
    e: Exec,
) -> bool {
    let op = inst.spec_opcode();
    let a = inst.spec_a();
    let b = inst.spec_b();
    let c = inst.spec_c();
    let imm = inst.spec_imm16();
    let here = (pre.pc - 1) as usize;
    let rb = reg(pre, b);
    let rc = reg(pre, c);
    if op == 0 {
        same_state(pre, post) && e == Exec::Halt
    } else if op == 1 {
        writes_reg(pre, post, a, b as u32) && e == wrote(a, b as u32)
    } else if op == 2 {
        writes_reg(pre, post, a, imm as u32) && e == wrote(a, imm as u32)
    } else if is_alu(op, fast) {
        if (op == 6 || op == 7) && rc == 0 {
            same_state(pre, post) && e == Exec::Stop(Err(VmError::DivideByZero { pc: here }))
        } else {
            writes_reg(pre, post, a, alu_value(op, rb, rc)) && e == wrote(a, alu_value(op, rb, rc))
        }
    } else if 8 <= op <= 11 {
        if op == 11 && is_float_zero(rc) {
            same_state(pre, post) && e == Exec::Stop(Err(VmError::DivideByZero { pc: here }))
        } else {
            let v = reg(post, a);
            &&& post.host_log@ == pre.host_log@.push(HostEvent::FloatBinary(float_op(op), rb, rc, v))
            &&& writes_reg(with_log(pre, post), post, a, v)
            &&& e == wrote(a, v)
        }
    } else if op == 19 {
        jumps(pre, post, imm) && e == plain()
    } else if op == 20 {
        jumps(pre, post, if reg(pre, a) == 0 { imm } else { pre.pc as int })
            && e == plain()
    } else if 21 <= op <= 23 {
        let ra = reg(pre, a);
        let taken = if op == 21 { ra == rb } else if op == 22 { ra < rb } else { ra > rb };
        jumps(pre, post, if taken { c } else { pre.pc as int }) && e == plain()
    } else if op == 24 || op == 25 {
        let ra = reg(pre, a);
        &&& post.host_log@.len() == pre.host_log@.len() + 1
        &&& post.host_log@.drop_last() == pre.host_log@
        &&& match post.host_log@.last() {
            HostEvent::FloatLess(x, y, ans) => {
                &&& (if op == 24 { x == ra && y == rb } else { x == rb && y == ra })
                &&& jumps(with_log(pre, post), post, if ans { c } else { pre.pc as int })
            },
            _ => false,
        }
        &&& e == plain()
    } else if op == 26 {
        if pre.sp < 64 {
            &&& post.call_stack@ == pre.call_stack@.update(pre.sp as int, pre.pc)
            &&& post.sp == pre.sp + 1
            &&& post.pc == imm
            &&& post.registers@ == pre.registers@
            &&& post.memory@ == pre.memory@
            &&& post.mmap@ == pre.mmap@
            &&& post.max_steps == pre.max_steps
            &&& post.tracing_enabled == pre.tracing_enabled
            &&& post.trace_buffer@ == pre.trace_buffer@
            &&& post.trace_head == pre.trace_head
            &&& post.trace_count == pre.trace_count
            &&& post.host_log@ == pre.host_log@
            &&& e == plain()
        } else {
            same_state(pre, post) && e == Exec::Stop(Err(VmError::StackOverflow { pc: here }))
        }
    } else if op == 27 {
        if pre.sp == 0 {
            same_state(pre, post) && e == Exec::Stop(Err(VmError::StackUnderflow { pc: here }))
        } else if pre.sp > 64 {
            same_state(pre, post) && e == Exec::Stop(Err(VmError::StackOverflow { pc: here }))
        } else {
            &&& post.sp == pre.sp - 1
            &&& post.pc == pre.call_stack@[pre.sp - 1]
            &&& post.call_stack@ == pre.call_stack@
            &&& post.registers@ == pre.registers@
            &&& post.memory@ == pre.memory@
            &&& post.mmap@ == pre.mmap@
            &&& post.max_steps == pre.max_steps
            &&& post.tracing_enabled == pre.tracing_enabled
            &&& post.trace_buffer@ == pre.trace_buffer@
            &&& post.trace_head == pre.trace_head
            &&& post.trace_count == pre.trace_count
            &&& post.host_log@ == pre.host_log@
            &&& e == plain()
        }
    } else if op == 28 || op == 29 || op == 36 {
        post == (ScriptVm { host_log: Ghost(after_call(pre.host_log@, host_call_spec(pre, inst))), ..pre })
            && e == plain()
    } else if op == 35 || op == 37 {
        post.host_log@ == pre.host_log@.push(HostEvent::Call(host_call_spec(pre, inst))).push(HostEvent::Left(image(post)))
            && e == plain()
    } else if op == 30 || op == 31 {
        let addr = (rb + rc) % 4294967296;
        match resolve_spec(pre, addr, 4) {
            None => same_state(pre, post) && e == Exec::Stop(
                Err(VmError::MemoryAccessOutOfBounds { pc: here, addr: addr as usize }),
            ),
            Some(r) => if op == 30 {
                let v = word_at(region(pre, r), offset_of(r));
                writes_reg(pre, post, a, v) && e == wrote(a, v)
            } else {
                let v = reg(pre, a);
                writes_region(pre, post, r, put_word(region(pre, r), offset_of(r), v)) && e
                    == Exec::Next { reg: None, mem: Some(((addr % 65536) as u16, v)) }
            },
        }
    } else if op == 32 {
        match exp_q16_spec((rb as i32) as int) {
            None => same_state(pre, post) && e == Exec::Stop(Err(VmError::MathError { pc: here })),
            Some(v) => writes_reg(pre, post, a, v as u32) && e == wrote(a, v as u32),
        }
    } else if op == 33 {
        match rsqrt_spec(rb as nat) {
            None => same_state(pre, post) && e == Exec::Stop(Err(VmError::MathError { pc: here })),
            Some(v) => writes_reg(pre, post, a, v) && e == wrote(a, v),
        }
    } else if op == 34 {
        match silu_spec((((rb % 256) as u8) as i8) as int) {
            None => same_state(pre, post) && e == Exec::Stop(Err(VmError::MathError { pc: here })),
            Some(v) => writes_reg(pre, post, a, (v as u8) as u32) && e == wrote(a, (v as u8) as u32),
        }
    } else if op == 38 {
        same_state(pre, post) && e == Exec::Yield
    } else if 39 <= op <= 41 {
        vector_spec(pre, post, inst, e)
    } else if op == 42 {
        same_state(pre, post) && e == Exec::Stop(Ok(VmResult::Spawn(steps, imm as u16, a as u8)))
    } else if op == 43 {
        same_state(pre, post) && e == Exec::Stop(Ok(VmResult::Awaiting(steps, rb, a as u8)))
    } else if op == 44 {
        same_state(pre, post) && e == Exec::Stop(Ok(VmResult::MmapRequest(steps, rb)))
    } else {
        same_state(pre, post) && e == Exec::Stop(
            Err(VmError::InvalidOpcode { pc: here, opcode: op }),
        )
    }
}

/// The vector instructions: `R[0]` f32 elements, element by element in order. VecAdd and
/// VecMul write each result the host returns over the destination's word, the sources read
/// as the earlier elements left them; VecDot writes into register A the running sum of the
/// host's products and sums.
pub open spec fn vector_spec(pre: ScriptVm, post: ScriptVm, inst: Instruction, e: Exec) -> bool {
    let op = inst.spec_opcode();
    let a = inst.spec_a();
    let len = reg(pre, 0) as int;
    let dest = reg(pre, a) as int;
    let src1 = reg(pre, inst.spec_b()) as int;
    let src2 = reg(pre, inst.spec_c()) as int;
    let here = (pre.pc - 1) as usize;
    let oob = |addr: int| Exec::Stop(Err(VmError::MemoryAccessOutOfBounds { pc: here, addr: addr as usize }));
    if op != 41 && resolve_spec(pre, dest, 4 * len) is None {
        same_state(pre, post) && e == oob(dest)
    } else if resolve_spec(pre, src1, 4 * len) is None {
        same_state(pre, post) && e == oob(src1)
    } else if resolve_spec(pre, src2, 4 * len) is None {
        same_state(pre, post) && e == oob(src2)
    } else if op == 41 {
        let r1 = resolve_spec(pre, src1, 4 * len)->0;
        let r2 = resolve_spec(pre, src2, 4 * len)->0;
        let evs = added(pre.host_log@, post.host_log@);
        &&& extends(pre.host_log@, post.host_log@)
        &&& dot_recorded(evs, region(pre, r1), offset_of(r1), region(pre, r2), offset_of(r2), len)
        &&& writes_reg(with_log(pre, post), post, a, dot_sum(evs, len))
        &&& e == wrote(a, dot_sum(evs, len))
    } else {
        let r = resolve_spec(pre, dest, 4 * len)->0;
        let r1 = resolve_spec(pre, src1, 4 * len)->0;
        let r2 = resolve_spec(pre, src2, 4 * len)->0;
        let fop = if op == 39 { FloatOp::Add } else { FloatOp::Mul };
        let old_bytes = region(pre, r);
        let new_bytes = region(post, r);
        &&& extends(pre.host_log@, post.host_log@)
        &&& lanes_recorded(added(pre.host_log@, post.host_log@), pre, post, fop, r, r1, r2, len)
        &&& new_bytes.len() == old_bytes.len()
        &&& forall|k: int|
            0 <= k < old_bytes.len() && !(offset_of(r) <= k < offset_of(r) + 4 * len)
                ==> new_bytes[k] == old_bytes[k]
        &&& writes_region(with_log(pre, post), post, r, new_bytes)
        &&& e == Exec::Next { reg: None, mem: Some(((dest % 65536) as u16, len as u32)) }
    }
}


/// `post` is `pre` after `step` is recorded, if tracing is on.
pub open spec fn logged(pre: ScriptVm, post: ScriptVm, step: TraceStep) -> bool {
    if pre.tracing_enabled {
        &&& post.trace_buffer@ == pre.trace_buffer@.update(pre.trace_head as int % 1024, step)
        &&& post.trace_head == (pre.trace_head % 1024 + 1) % 1024
        &&& post.trace_count == if pre.trace_count < 1024 {
            pre.trace_count + 1
        } else {
            pre.trace_count as int
        }
        &&& post.registers@ == pre.registers@
        &&& post.pc == pre.pc
        &&& post.call_stack@ == pre.call_stack@
        &&& post.sp == pre.sp
        &&& post.memory@ == pre.memory@
        &&& post.mmap@ == pre.mmap@
        &&& post.max_steps == pre.max_steps
        &&& post.tracing_enabled == pre.tracing_enabled
        &&& post.host_log@ == pre.host_log@
    } else {
        same_state(pre, post)
    }
}

/// The step budget is used up: `steps` reached the limit (or `u32::MAX` without one).
pub open spec fn fuel_spent(limit: Option<u32>, steps: int) -> bool {
    match limit {
        Some(l) => steps >= l,
        None => steps >= u32::MAX,
    }
}

pub open spec fn with_pc(vm: ScriptVm, pc: int) -> ScriptVm {
    ScriptVm { pc: pc as usize, ..vm }
}

/// How an executed instruction ends its tick: what is recorded, and whether the run goes on.
pub open spec fn finish(
    mid: ScriptVm,
    post: ScriptVm,
    e: Exec,
    fast: bool,
    pc: usize,
    inst: Instruction,
    n: int,
    out: Option<Result<VmResult, VmError>>,
) -> bool {
    match e {
        Exec::Halt => same_state(mid, post) && out == Some(Ok::<VmResult, VmError>(VmResult::Halted(n as u32))),
        Exec::Yield => (if fast {
            same_state(mid, post)
        } else {
            logged(mid, post, TraceStep { pc: pc as u32, inst: inst.0, reg_change: None, mem_change: None })
        }) && out == Some(Ok::<VmResult, VmError>(VmResult::Yielded(n as u32))),
        Exec::Stop(r) => same_state(mid, post) && out == Some(r),
        Exec::Next { reg, mem } => (if fast {
            same_state(mid, post)
        } else {
            logged(mid, post, TraceStep { pc: pc as u32, inst: inst.0, reg_change: reg, mem_change: mem })
        }) && out == None::<Result<VmResult, VmError>>,
    }
}

/// The instruction at the program counter runs, and its tick ends as `finish` says.
pub open spec fn executes(
    pre: ScriptVm,
    post: ScriptVm,
    code: Seq<Instruction>,
    fast: bool,
    steps: int,
    out: Option<Result<VmResult, VmError>>,
) -> bool {
    let inst = code[pre.pc as int];
    exists|mid: ScriptVm, e: Exec|
        #[trigger] exec_spec(with_pc(pre, pre.pc + 1), mid, inst, fast, (steps + 1) as u32, e)
            && finish(mid, post, e, fast, pre.pc, inst, steps + 1, out)
}

/// A traced tick once the abort check, if any, has let the run go on: the budget check,
/// then, where a debug hook is installed, the hook shown the instruction, then the
/// instruction.
pub open spec fn slow_tick(
    pre: ScriptVm,
    post: ScriptVm,
    code: Seq<Instruction>,
    hook: bool,
    steps: int,
    out: Option<Result<VmResult, VmError>>,
) -> bool {
    if fuel_spent(pre.max_steps, steps) {
        same_state(pre, post) && out == Some(Err::<VmResult, VmError>(VmError::OutOfFuel { pc: pre.pc }))
    } else if hook {
        executes(with_event(pre, HostEvent::DebugHook(pre.pc, code[pre.pc as int])), post, code, false, steps, out)
    } else {
        executes(pre, post, code, false, steps, out)
    }
}

/// A traced tick in which the abort check answered `ans`: `true` stops the run with
/// `Halted`, `false` lets it go on.
pub open spec fn abort_polled(
    pre: ScriptVm,
    post: ScriptVm,
    code: Seq<Instruction>,
    hook: bool,
    steps: int,
    out: Option<Result<VmResult, VmError>>,
    ans: bool,
) -> bool {
    let p1 = with_event(pre, HostEvent::AbortPolled(ans));
    if ans {
        same_state(p1, post) && out == Some(Ok::<VmResult, VmError>(VmResult::Halted(steps as u32)))
    } else {
        slow_tick(p1, post, code, hook, steps, out)
    }
}

/// One tick of a run, after `steps` instructions: the checks before an
/// instruction, then the instruction. `out` is `None` when the run goes on.
/// The fast mode polls the budget every 256 steps. The traced mode, once an
/// instruction has run and where the host has an abort check installed
/// (`abort`), polls the check and stops on `true`; it then checks the budget
/// before every instruction and shows each instruction to the debug hook, where
/// one is installed (`hook`).
pub open spec fn tick_spec(
    pre: ScriptVm,
    post: ScriptVm,
    code: Seq<Instruction>,
    fast: bool,
    abort: bool,
    hook: bool,
    steps: int,
    out: Option<Result<VmResult, VmError>>,
) -> bool {
    let halted = same_state(pre, post) && out == Some(
        Ok::<VmResult, VmError>(VmResult::Halted(steps as u32)),
    );
    let starved = same_state(pre, post) && out == Some(
        Err::<VmResult, VmError>(VmError::OutOfFuel { pc: pre.pc }),
    );
    if fast {
        if (steps % 256 == 0 && fuel_spent(pre.max_steps, steps)) || steps >= u32::MAX {
            starved
        } else if pre.pc >= code.len() {
            halted
        } else {
            executes(pre, post, code, fast, steps, out)
        }
    } else {
        if pre.pc >= code.len() {
            halted
        } else if abort && steps > 0 {
            exists|ans: bool| #[trigger] abort_polled(pre, post, code, hook, steps, out, ans)
        } else {
            slow_tick(pre, post, code, hook, steps, out)
        }
    }
}

/// `states` is a run: each tick goes on to the next state, and the last one ends with `r`.
pub open spec fn is_run(
    states: Seq<ScriptVm>,
    code: Seq<Instruction>,
    fast: bool,
    abort: bool,
    hook: bool,
    r: Result<VmResult, VmError>,
) -> bool {
    &&& states.len() >= 2
    &&& forall|i: int|
        0 <= i < states.len() - 2 ==> #[trigger] tick_spec(states[i], states[i + 1], code, fast, abort, hook, i, None)
    &&& tick_spec(states[states.len() - 2], states[states.len() - 1], code, fast, abort, hook, states.len() - 2, Some(r))
}

/// Running `code` in the given mode takes `pre` to `post` with result `r`.
/// A run starts with an empty call stack.
pub open spec fn run_spec(
    pre: ScriptVm,
    post: ScriptVm,
    code: Seq<Instruction>,
    fast: bool,
    abort: bool,
    hook: bool,
    r: Result<VmResult, VmError>,
) -> bool {
    exists|states: Seq<ScriptVm>|
        #[trigger] is_run(states, code, fast, abort, hook, r) && states[0] == (ScriptVm { sp: 0, ..pre })
            && states.last() == post
}

/// The conditional jumps branch exactly when the matching comparison instruction answers 1:
/// JmpIfEq when CmpEq of `R[A]`, `R[B]` does, JmpIfLt when CmpLt of `R[A]`, `R[B]` does, and
/// JmpIfGt when CmpLt of `R[B]`, `R[A]` does; the jump goes to C, otherwise on to the next
/// instruction, and nothing but the program counter changes.
pub proof fn lemma_branches_follow_comparisons(
    pre: ScriptVm,
    post: ScriptVm,
    inst: Instruction,
    fast: bool,
    steps: u32,
    e: Exec,
)
    requires
        21 <= inst.spec_opcode() <= 23,
        exec_spec(pre, post, inst, fast, steps, e),
    ensures
        ({
            let ra = reg(pre, inst.spec_a());
            let rb = reg(pre, inst.spec_b());
            let op = inst.spec_opcode();
            let answer = if op == 21 {
                alu_value(17, ra, rb)
            } else if op == 22 {
                alu_value(18, ra, rb)
            } else {
                alu_value(18, rb, ra)
            };
            post.pc == (if answer == 1 { inst.spec_c() } else { pre.pc as int })
        }),
        post.registers@ == pre.registers@,
        post.memory@ == pre.memory@,
        post.mmap@ == pre.mmap@,
        post.host_log@ == pre.host_log@,
        e == plain(),
{
}

proof fn lemma_run_ends(
    states: Seq<ScriptVm>,
    code: Seq<Instruction>,
    fast: bool,
    abort: bool,
    hook: bool,
    post: ScriptVm,
    r: Result<VmResult, VmError>,
)
    requires
        states.len() >= 1,
        forall|i: int|
            0 <= i < states.len() - 1 ==> #[trigger] tick_spec(states[i], states[i + 1], code, fast, abort, hook, i, None),
        tick_spec(states.last(), post, code, fast, abort, hook, states.len() - 1, Some(r)),
    ensures
        is_run(states.push(post), code, fast, abort, hook, r),
        states.push(post)[0] == states[0],
        states.push(post).last() == post,
{
    let s2 = states.push(post);
    assert forall|i: int| 0 <= i < s2.len() - 2 implies #[trigger] tick_spec(s2[i], s2[i + 1], code, fast, abort, hook, i, None) by {
        assert(s2[i] == states[i]);
        assert(s2[i + 1] == states[i + 1]);
    }
    assert(s2[s2.len() - 2] == states.last());
}

/// The fields of the instruction `encode` packs from an opcode and three operand bytes.
proof fn lemma_encode_fields(op: int, a: int, b: int, c: int)
    requires
        0 <= op < 256,
        0 <= a < 256,
        0 <= b < 256,
        0 <= c < 256,
    ensures
        encode(op, a, b, c).spec_opcode() == op,
        encode(op, a, b, c).spec_a() == a,
        encode(op, a, b, c).spec_imm16() == b + 256 * c,
{
    let x = op + a * 256 + b * 65536 + c * 16777216;
    assert(0 <= x < 0x1_0000_0000) by (nonlinear_arith)
        requires 0 <= op < 256, 0 <= a < 256, 0 <= b < 256, 0 <= c < 256, x == op + a * 256 + b * 65536 + c * 16777216;
    let i = encode(op, a, b, c);
    assert(i.0 as int == x);
    crate::bignum::lemmas::lemma_div_mod_unique(x, 256, a + 256 * b + 65536 * c, op);
    crate::bignum::lemmas::lemma_div_mod_unique(a + 256 * b + 65536 * c, 256, b + 256 * c, a);
    assert(x / 256 / 256 == x / 65536) by {
        vstd::arithmetic::div_mod::lemma_div_denominator(x, 256, 256);
    }
}

/// The first tick of a run whose first instruction is LoadImm16 `a`, `v`, from the start
/// with the budget not spent and no abort check polled: the run goes on, past it, with `v`
/// in register `a`.
proof fn lemma_first_tick_loads(
    s0: ScriptVm,
    s1: ScriptVm,
    code: Seq<Instruction>,
    fast: bool,
    abort: bool,
    hook: bool,
    out: Option<Result<VmResult, VmError>>,
    a: int,
    v: int,
)
    requires
        tick_spec(s0, s1, code, fast, abort, hook, 0, out),
        s0.pc == 0,
        code.len() == 2,
        !fuel_spent(s0.max_steps, 0),
        code[0].spec_opcode() == 2,
        code[0].spec_a() == a,
        code[0].spec_imm16() == v,
        0 <= v < 65536,
    ensures
        out is None,
        s1.pc == 1,
        s1.registers@ == s0.registers@.update(a, v as u32),
        s1.max_steps == s0.max_steps,
{
    let p = if !fast && hook {
        with_event(s0, HostEvent::DebugHook(s0.pc, code[0]))
    } else {
        s0
    };
    assert(executes(p, s1, code, fast, 0, out));
    let (mid, e) = choose|mid: ScriptVm, e: Exec|
        #[trigger] exec_spec(with_pc(p, p.pc + 1), mid, code[0], fast, 1, e) && finish(mid, s1, e, fast, p.pc, code[0],
            1, out);
    assert(exec_spec(with_pc(p, p.pc + 1), mid, code[0], fast, 1, e));
    assert(e == wrote(a, v as u32));
}

/// A tick at the second instruction, a Halt: the run ends with `Halted(2)`, the registers
/// kept.
proof fn lemma_second_tick_halts(
    s1: ScriptVm,
    s2: ScriptVm,
    code: Seq<Instruction>,
    fast: bool,
    abort: bool,
    hook: bool,
    out: Option<Result<VmResult, VmError>>,
)
    requires
        tick_spec(s1, s2, code, fast, abort, hook, 1, out),
        s1.pc == 1,
        code.len() == 2,
        !fuel_spent(s1.max_steps, 1),
        fast || !abort,
        code[1].spec_opcode() == 0,
    ensures
        out == Some(Ok::<VmResult, VmError>(VmResult::Halted(2))),
        s2.registers@ == s1.registers@,
{
    let p = if !fast && hook {
        with_event(s1, HostEvent::DebugHook(s1.pc, code[1]))
    } else {
        s1
    };
    assert(executes(p, s2, code, fast, 1, out));
    let (mid, e) = choose|mid: ScriptVm, e: Exec|
        #[trigger] exec_spec(with_pc(p, p.pc + 1), mid, code[1], fast, 2, e) && finish(mid, s2, e, fast, p.pc, code[1],
            2, out);
    assert(exec_spec(with_pc(p, p.pc + 1), mid, code[1], fast, 2, e));
}

/// LoadImm16 `a`, `val` then Halt, run from the start with a budget of at least two steps
/// and no abort check polled, halts after two steps with `val` in register `a`.
pub proof fn lemma_load_imm16_then_halt(
    pre: ScriptVm,
    post: ScriptVm,
    a: u8,
    val: u16,
    fast: bool,
    abort: bool,
    hook: bool,
    r: Result<VmResult, VmError>,
)
    requires
        pre.pc == 0,
        pre.max_steps is None || pre.max_steps->0 >= 2,
        fast || !abort,
        run_spec(pre, post, seq![encode(2, a as int, val as int % 256, val as int / 256), encode(0, 0, 0, 0)], fast,
            abort, hook, r),
    ensures
        r == Ok::<VmResult, VmError>(VmResult::Halted(2)),
        post.registers@[a as int] == val as u32,
{
    let code = seq![encode(2, a as int, val as int % 256, val as int / 256), encode(0, 0, 0, 0)];
    lemma_encode_fields(2, a as int, val as int % 256, val as int / 256);
    lemma_encode_fields(0, 0, 0, 0);
    assert(val as int % 256 + 256 * (val as int / 256) == val as int);
    let states = choose|states: Seq<ScriptVm>|
        #[trigger] is_run(states, code, fast, abort, hook, r) && states[0] == (ScriptVm { sp: 0, ..pre })
            && states.last() == post;
    let n = states.len();
    let i0 = 0int;
    if n == 2 {
        lemma_first_tick_loads(states[0], states[1], code, fast, abort, hook, Some(r), a as int, val as int);
    } else {
        assert(tick_spec(states[i0], states[i0 + 1], code, fast, abort, hook, i0, None));
        lemma_first_tick_loads(states[0], states[1], code, fast, abort, hook, None, a as int, val as int);
        let i1 = 1int;
        if n == 3 {
            lemma_second_tick_halts(states[1], states[2], code, fast, abort, hook, Some(r));
        } else {
            assert(tick_spec(states[i1], states[i1 + 1], code, fast, abort, hook, i1, None));
            lemma_second_tick_halts(states[1], states[2], code, fast, abort, hook, None);
        }
        assert(states[0].registers@.len() == 256);
    }
}

impl ScriptVm {
    /// Where `len` bytes at `addr` lie, if anywhere.
    fn resolve(&self, addr: u64, len: u64) -> (r: Option<MemRef>)
        ensures
            r == resolve_spec(*self, addr as int, len as int),
    {
        if addr < 1024 {
            if len <= 1024 - addr {
                Some(MemRef::Ram(addr as usize))
            } else {
                None
            }
        } else if addr >= MMAP_BASE {
            let offset: u64 = addr - MMAP_BASE;
            if offset <= self.mmap.len() as u64 && len <= self.mmap.len() as u64 - offset {
                Some(MemRef::Mapped(offset as usize))
            } else {
                None
            }
        } else {
            None
        }
    }

    fn read_byte(&self, r: MemRef, k: usize) -> (v: u8)
        requires
            offset_of(r) + k < region(*self, r).len(),
        ensures
            v == region(*self, r)[offset_of(r) + k],
    {
        match r {
            MemRef::Ram(o) => self.memory[o + k],
            MemRef::Mapped(o) => {
                let n = self.mmap.len();
                self.mmap[o + k]
            },
        }
    }

    fn write_byte(&mut self, r: MemRef, k: usize, v: u8)
        requires
            offset_of(r) + k < region(*old(self), r).len(),
        ensures
            writes_region(*old(self), *final(self), r, region(*old(self), r).update(offset_of(r) + k, v)),
    {
        match r {
            MemRef::Ram(o) => {
                self.memory[o + k] = v;
            },
            MemRef::Mapped(o) => {
                let n = self.mmap.len();
                self.mmap[o + k] = v;
            },
        }
    }

    /// The little-endian word at `r + k`.
    fn read_word(&self, r: MemRef, k: usize) -> (v: u32)
        requires
            offset_of(r) + k + 4 <= region(*self, r).len(),
            region(*self, r).len() <= usize::MAX,
        ensures
            v == word_at(region(*self, r), offset_of(r) + k),
    {
        let b0 = self.read_byte(r, k) as u32;
        let b1 = self.read_byte(r, k + 1) as u32;
        let b2 = self.read_byte(r, k + 2) as u32;
        let b3 = self.read_byte(r, k + 3) as u32;
        b0 + b1 * 256 + b2 * 65536 + b3 * 16777216
    }

    /// Stores `v` little-endian at `r + k`.
    fn write_word(&mut self, r: MemRef, k: usize, v: u32)
        requires
            offset_of(r) + k + 4 <= region(*old(self), r).len(),
            region(*old(self), r).len() <= usize::MAX,
        ensures
            writes_region(
                *old(self),
                *final(self),
                r,
                put_word(region(*old(self), r), offset_of(r) + k, v),
            ),
    {
        self.write_byte(r, k, (v % 256) as u8);
        self.write_byte(r, k + 1, ((v / 256) % 256) as u8);
        self.write_byte(r, k + 2, ((v / 65536) % 256) as u8);
        self.write_byte(r, k + 3, (v / 16777216) as u8);
    }

    /// The integer operations, the immediate loads and the invalid opcodes.
    fn exec_alu(&mut self, inst: Instruction, fast: bool, steps: u32) -> (e: Exec)
        requires
            old(self).pc >= 1,
            ({
                let op = inst.spec_opcode();
                op <= 7 || (12 <= op <= 18) || op >= 45
            }),
        ensures
            exec_spec(*old(self), *final(self), inst, fast, steps, e),
    {
        let op = inst.opcode();
        let a = inst.a();
        let here = self.pc - 1;
        if op == 0 {
            return Exec::Halt;
        }
        if op == 1 {
            let v = inst.b() as u32;
            self.registers[a] = v;
            return Exec::Next { reg: Some((a as u8, v)), mem: None };
        }
        if op == 2 {
            let v = inst.imm16() as u32;
            self.registers[a] = v;
            return Exec::Next { reg: Some((a as u8, v)), mem: None };
        }
        if op >= 45 {
            return Exec::Stop(Err(VmError::InvalidOpcode { pc: here, opcode: op }));
        }
        let x = self.registers[inst.b()];
        let y = self.registers[inst.c()];
        let v: u32 = if op == 3 {
            x.wrapping_add(y)
        } else if op == 4 {
            x.wrapping_sub(y)
        } else if op == 5 {
            x.wrapping_mul(y)
        } else if op == 6 || op == 7 {
            if y == 0 {
                return Exec::Stop(Err(VmError::DivideByZero { pc: here }));
            }
            if op == 6 {
                x / y
            } else {
                x % y
            }
        } else if op == 12 {
            x & y
        } else if op == 13 {
            x | y
        } else if op == 14 {
            x ^ y
        } else if op == 15 {
            x << (y % 32)
        } else if op == 16 {
            x >> (y % 32)
        } else if op == 17 {
            if x == y {
                1
            } else {
                0
            }
        } else {
            if x < y {
                1
            } else {
                0
            }
        };
        self.registers[a] = v;
        Exec::Next { reg: Some((a as u8, v)), mem: None }
    }

    /// Jumps, calls and returns.
    fn exec_branch(&mut self, inst: Instruction, fast: bool, steps: u32) -> (e: Exec)
        requires
            old(self).pc >= 1,
            19 <= inst.spec_opcode() <= 27,
            inst.spec_opcode() != 24,
            inst.spec_opcode() != 25,
        ensures
            exec_spec(*old(self), *final(self), inst, fast, steps, e),
    {
        let op = inst.opcode();
        let here = self.pc - 1;
        if op == 19 {
            self.pc = inst.imm16() as usize;
        } else if op == 20 {
            if self.registers[inst.a()] == 0 {
                self.pc = inst.imm16() as usize;
            }
        } else if op <= 23 {
            let ra = self.registers[inst.a()];
            let rb = self.registers[inst.b()];
            let taken = if op == 21 {
                ra == rb
            } else if op == 22 {
                ra < rb
            } else {
                ra > rb
            };
            if taken {
                self.pc = inst.c();
            }
        } else if op == 26 {
            if self.sp < 64 {
                self.call_stack[self.sp] = self.pc;
                self.sp = self.sp + 1;
                self.pc = inst.imm16() as usize;
            } else {
                return Exec::Stop(Err(VmError::StackOverflow { pc: here }));
            }
        } else {
            if self.sp == 0 {
                return Exec::Stop(Err(VmError::StackUnderflow { pc: here }));
            }
            if self.sp > 64 {
                return Exec::Stop(Err(VmError::StackOverflow { pc: here }));
            }
            self.sp = self.sp - 1;
            self.pc = self.call_stack[self.sp];
        }
        Exec::Next { reg: None, mem: None }
    }

    /// Load and Store of a little-endian word at `R[B] + R[C]`.
    fn exec_memory(&mut self, inst: Instruction, fast: bool, steps: u32) -> (e: Exec)
        requires
            old(self).pc >= 1,
            inst.spec_opcode() == 30 || inst.spec_opcode() == 31,
        ensures
            exec_spec(*old(self), *final(self), inst, fast, steps, e),
    {
        let op = inst.opcode();
        let a = inst.a();
        let here = self.pc - 1;
        let addr: u32 = self.registers[inst.b()].wrapping_add(self.registers[inst.c()]);
        let n = self.mmap.len();
        match self.resolve(addr as u64, 4) {
            None => Exec::Stop(
                Err(VmError::MemoryAccessOutOfBounds { pc: here, addr: addr as usize }),
            ),
            Some(r) => {
                if op == 30 {
                    let v = self.read_word(r, 0);
                    self.registers[a] = v;
                    Exec::Next { reg: Some((a as u8, v)), mem: None }
                } else {
                    let v = self.registers[a];
                    self.write_word(r, 0, v);
                    Exec::Next { reg: None, mem: Some(((addr % 65536) as u16, v)) }
                }
            },
        }
    }

    /// Exp, Rsqrt and Silu through the fixed-point approximations.
    fn exec_math(&mut self, inst: Instruction, fast: bool, steps: u32) -> (e: Exec)
        requires
            old(self).pc >= 1,
            32 <= inst.spec_opcode() <= 34,
        ensures
            exec_spec(*old(self), *final(self), inst, fast, steps, e),
    {
        let op = inst.opcode();
        let a = inst.a();
        let here = self.pc - 1;
        let rb = self.registers[inst.b()];
        let res: Option<u32> = if op == 32 {
            match exp_approx_q16(rb as i32) {
                Some(v) => Some(v as u32),
                None => None,
            }
        } else if op == 33 {
            rsqrt_approx_i32(rb)
        } else {
            match silu_approx_i8(((rb % 256) as u8) as i8) {
                Some(v) => Some((v as u8) as u32),
                None => None,
            }
        };
        match res {
            Some(v) => {
                self.registers[a] = v;
                Exec::Next { reg: Some((a as u8, v)), mem: None }
            },
            None => Exec::Stop(Err(VmError::MathError { pc: here })),
        }
    }

    /// The f32 arithmetic and branches, computed by the host.
    fn exec_float<H: HostHandlers>(&mut self, inst: Instruction, fast: bool, steps: u32, host: &mut RecordingHost<H>) -> (e: Exec)
        requires
            old(self).pc >= 1,
            (8 <= inst.spec_opcode() <= 11) || inst.spec_opcode() == 24 || inst.spec_opcode() == 25,
        ensures
            exec_spec(*old(self), *final(self), inst, fast, steps, e),
            handed(old(host).events(), old(self).host_log@, final(host).events(), final(self).host_log@),
    {
        let op = inst.opcode();
        let a = inst.a();
        let here = self.pc - 1;
        proof {
            lemma_handed_same(host.events(), self.host_log@);
        }
        if op == 24 || op == 25 {
            let ra = self.registers[a];
            let rb = self.registers[inst.b()];
            let (x, y) = if op == 24 {
                (ra, rb)
            } else {
                (rb, ra)
            };
            let taken = host.float_less(x, y);
            self.host_log = Ghost(self.host_log@.push(HostEvent::FloatLess(x, y, taken)));
            proof {
                lemma_handed_push(old(host).events(), old(self).host_log@, old(host).events(), old(self).host_log@,
                    HostEvent::FloatLess(x, y, taken));
                assert(self.host_log@.drop_last() =~= old(self).host_log@);
            }
            if taken {
                self.pc = inst.c();
            }
            return Exec::Next { reg: None, mem: None };
        }
        let rb = self.registers[inst.b()];
        let rc = self.registers[inst.c()];
        let fop = if op == 8 {
            FloatOp::Add
        } else if op == 9 {
            FloatOp::Sub
        } else if op == 10 {
            FloatOp::Mul
        } else {
            if rc % 2147483648 == 0 {
                return Exec::Stop(Err(VmError::DivideByZero { pc: here }));
            }
            FloatOp::Div
        };
        let v = host.float_binary(fop, rb, rc);
        self.host_log = Ghost(self.host_log@.push(HostEvent::FloatBinary(fop, rb, rc, v)));
        proof {
            lemma_handed_push(old(host).events(), old(self).host_log@, old(host).events(), old(self).host_log@,
                HostEvent::FloatBinary(fop, rb, rc, v));
        }
        self.registers[a] = v;
        Exec::Next { reg: Some((a as u8, v)), mem: None }
    }

    /// The call that the host instruction `inst` hands to the host.
    pub fn host_call(&self, inst: Instruction) -> (r: HostCall)
        requires
            ({
                let op = inst.spec_opcode();
                op == 28 || op == 29 || (35 <= op <= 37)
            }),
        ensures
            r == host_call_spec(*self, inst),
    {
        let op = inst.opcode();
        let a = inst.a();
        let b = inst.b();
        let c = inst.c();
        if op == 28 {
            HostCall::Print(self.registers[a])
        } else if op == 29 {
            HostCall::Syscall(self.registers[a], self.registers[b], self.registers[c])
        } else if op == 35 {
            HostCall::Hardware(a, b, c)
        } else if op == 36 {
            if a != 0 && 1 <= b && b <= 4 {
                HostCall::Ui(a, b, c)
            } else {
                HostCall::Nothing
            }
        } else {
            HostCall::Neural(a, b, c)
        }
    }

    /// Makes `call` on the host, unless it is `Nothing`, and adds it to the log, followed,
    /// for a hardware or neural call, by the state in which the handler left the VM: that
    /// state is the VM's afterwards. Only such a call, which the host gets the VM for, can
    /// change the VM otherwise.
    pub fn hand_to_host<H: HostHandlers>(&mut self, call: HostCall, host: &mut RecordingHost<H>)
        ensures
            final(self).host_log@ == handed_over(old(self).host_log@, call, image(*final(self))),
            final(host).events() == handed_over(old(host).events(), call, image(*final(self))),
            !(call is Hardware || call is Neural) ==> *final(self) == (ScriptVm {
                host_log: Ghost(after_call(old(self).host_log@, call)),
                ..*old(self)
            }),
    {
        let ghost log0 = self.host_log@;
        match call {
            HostCall::Print(v) => host.print(v),
            HostCall::Syscall(x, y, z) => host.syscall(x, y, z),
            HostCall::Hardware(a, b, c) => host.hardware_call(self, a, b, c),
            HostCall::Ui(a, b, c) => host.ui_call(a, b, c),
            HostCall::Neural(a, b, c) => host.neural_call(self, a, b, c),
            HostCall::Nothing => {},
        }
        self.host_log = Ghost(handed_over(log0, call, image(*self)));
    }

    /// Print, SysCall, HardwareCall, UiCall and NeuralCall: the call `host_call` computes,
    /// handed to the host by `hand_to_host`.
    fn exec_host<H: HostHandlers>(&mut self, inst: Instruction, fast: bool, steps: u32, host: &mut RecordingHost<H>) -> (e: Exec)
        requires
            old(self).pc >= 1,
            ({
                let op = inst.spec_opcode();
                op == 28 || op == 29 || (35 <= op <= 37)
            }),
        ensures
            exec_spec(*old(self), *final(self), inst, fast, steps, e),
            final(host).events() == handed_over(old(host).events(), host_call_spec(*old(self), inst), image(*final(self))),
    {
        let call = self.host_call(inst);
        self.hand_to_host(call, host);
        Exec::Next { reg: None, mem: None }
    }

    /// VecAdd, VecMul and VecDot over `R[0]` f32 elements, element by element
    /// in order, each product and sum computed by the host.
    fn exec_vector<H: HostHandlers>(&mut self, inst: Instruction, fast: bool, steps: u32, host: &mut RecordingHost<H>) -> (e: Exec)
        requires
            old(self).pc >= 1,
            39 <= inst.spec_opcode() <= 41,
        ensures
            exec_spec(*old(self), *final(self), inst, fast, steps, e),
            handed(old(host).events(), old(self).host_log@, final(host).events(), final(self).host_log@),
    {
        proof {
            lemma_handed_same(host.events(), self.host_log@);
            assert(self.host_log@.subrange(0, self.host_log@.len() as int) =~= self.host_log@);
            assert(added(self.host_log@, self.host_log@) =~= Seq::<HostEvent>::empty());
        }
        let op = inst.opcode();
        let a = inst.a();
        let here = self.pc - 1;
        let len: u32 = self.registers[0];
        let bytes: u64 = len as u64 * 4;
        let dest: u32 = self.registers[a];
        let src1: u32 = self.registers[inst.b()];
        let src2: u32 = self.registers[inst.c()];
        let n = self.mmap.len();
        let rd: Option<MemRef> = if op == 41 {
            None
        } else {
            match self.resolve(dest as u64, bytes) {
                Some(r) => Some(r),
                None => {
                    return Exec::Stop(
                        Err(VmError::MemoryAccessOutOfBounds { pc: here, addr: dest as usize }),
                    );
                },
            }
        };
        let r1 = match self.resolve(src1 as u64, bytes) {
            Some(r) => r,
            None => {
                return Exec::Stop(
                    Err(VmError::MemoryAccessOutOfBounds { pc: here, addr: src1 as usize }),
                );
            },
        };
        let r2 = match self.resolve(src2 as u64, bytes) {
            Some(r) => r,
            None => {
                return Exec::Stop(
                    Err(VmError::MemoryAccessOutOfBounds { pc: here, addr: src2 as usize }),
                );
            },
        };
        let count: usize = len as usize;
        if op == 41 {
            let mut sum: u32 = 0;
            let mut i: usize = 0;
            while i < count
                invariant
                    i <= count,
                    count == len,
                    offset_of(r1) + 4 * count <= region(*self, r1).len(),
                    offset_of(r2) + 4 * count <= region(*self, r2).len(),
                    region(*self, r1).len() <= usize::MAX,
                    region(*self, r2).len() <= usize::MAX,
                    *self == with_log(*old(self), *self),
                    handed(old(host).events(), old(self).host_log@, host.events(), self.host_log@),
                    extends(old(self).host_log@, self.host_log@),
                    dot_recorded(added(old(self).host_log@, self.host_log@), region(*self, r1), offset_of(r1),
                        region(*self, r2), offset_of(r2), i as int),
                    sum == dot_sum(added(old(self).host_log@, self.host_log@), i as int),
                decreases count - i,
            {
                let v1 = self.read_word(r1, 4 * i);
                let v2 = self.read_word(r2, 4 * i);
                let ghost h0 = host.events();
                let ghost l0 = self.host_log@;
                let p = host.float_binary(FloatOp::Mul, v1, v2);
                self.host_log = Ghost(self.host_log@.push(HostEvent::FloatBinary(FloatOp::Mul, v1, v2, p)));
                proof {
                    lemma_handed_push(old(host).events(), old(self).host_log@, h0, l0,
                        HostEvent::FloatBinary(FloatOp::Mul, v1, v2, p));
                    lemma_added_push(old(self).host_log@, l0, HostEvent::FloatBinary(FloatOp::Mul, v1, v2, p));
                }
                let ghost h1 = host.events();
                let ghost l1 = self.host_log@;
                let s2 = host.float_binary(FloatOp::Add, sum, p);
                self.host_log = Ghost(self.host_log@.push(HostEvent::FloatBinary(FloatOp::Add, sum, p, s2)));
                proof {
                    lemma_handed_push(old(host).events(), old(self).host_log@, h1, l1,
                        HostEvent::FloatBinary(FloatOp::Add, sum, p, s2));
                    lemma_added_push(old(self).host_log@, l1, HostEvent::FloatBinary(FloatOp::Add, sum, p, s2));
                    lemma_dot_extend(added(old(self).host_log@, l0), region(*self, r1), offset_of(r1), region(*self, r2),
                        offset_of(r2), i as int, HostEvent::FloatBinary(FloatOp::Mul, v1, v2, p),
                        HostEvent::FloatBinary(FloatOp::Add, sum, p, s2));
                }
                sum = s2;
                i = i + 1;
            }
            self.registers[a] = sum;
            return Exec::Next { reg: Some((a as u8, sum)), mem: None };
        }
        let rd = match rd {
            Some(r) => r,
            None => {
                return Exec::Stop(Err(VmError::MathError { pc: here }));
            },
        };
        let fop = if op == 39 {
            FloatOp::Add
        } else {
            FloatOp::Mul
        };
        let ghost start = *self;
        let mut i: usize = 0;
        while i < count
            invariant
                i <= count,
                count == len,
                resolve_spec(start, dest as int, 4 * len) == Some(rd),
                offset_of(rd) + 4 * count <= region(*self, rd).len(),
                offset_of(r1) + 4 * count <= region(*self, r1).len(),
                offset_of(r2) + 4 * count <= region(*self, r2).len(),
                region(*self, r1).len() <= usize::MAX,
                region(*self, r2).len() <= usize::MAX,
                region(*self, rd).len() <= usize::MAX,
                region(*self, rd).len() == region(start, rd).len(),
                self.memory@.len() == start.memory@.len(),
                self.mmap@.len() == start.mmap@.len(),
                forall|k: int|
                    0 <= k < region(start, rd).len() && !(offset_of(rd) <= k < offset_of(rd) + 4 * i)
                        ==> region(*self, rd)[k] == region(start, rd)[k],
                writes_region(with_log(start, *self), *self, rd, region(*self, rd)),
                start == *old(self),
                resolve_spec(start, src1 as int, 4 * len) == Some(r1),
                resolve_spec(start, src2 as int, 4 * len) == Some(r2),
                fop == (if op == 39 { FloatOp::Add } else { FloatOp::Mul }),
                handed(old(host).events(), old(self).host_log@, host.events(), self.host_log@),
                extends(start.host_log@, self.host_log@),
                lanes_recorded(added(start.host_log@, self.host_log@), start, *self, fop, rd, r1, r2, i as int),
            decreases count - i,
        {
            let ghost s0 = *self;
            let v1 = self.read_word(r1, 4 * i);
            let v2 = self.read_word(r2, 4 * i);
            let ghost h0 = host.events();
            let ghost l0 = self.host_log@;
            let v = host.float_binary(fop, v1, v2);
            self.host_log = Ghost(self.host_log@.push(HostEvent::FloatBinary(fop, v1, v2, v)));
            proof {
                lemma_handed_push(old(host).events(), old(self).host_log@, h0, l0, HostEvent::FloatBinary(fop, v1, v2, v));
                lemma_added_push(start.host_log@, l0, HostEvent::FloatBinary(fop, v1, v2, v));
            }
            self.write_word(rd, 4 * i, v);
            proof {
                lemma_lane_step(added(start.host_log@, l0), start, s0, *self, fop, rd, r1, r2, i as int, v1, v2, v);
            }
            i = i + 1;
        }
        Exec::Next { reg: None, mem: Some(((dest % 65536) as u16, len)) }
    }

    /// Runs one instruction. The program counter must already be past it.
    pub fn execute<H: HostHandlers>(&mut self, inst: Instruction, fast: bool, steps: u32, host: &mut RecordingHost<H>) -> (e: Exec)
        requires
            old(self).pc >= 1,
        ensures
            exec_spec(*old(self), *final(self), inst, fast, steps, e),
            handed(old(host).events(), old(self).host_log@, final(host).events(), final(self).host_log@),
    {
        let op = inst.opcode();
        proof {
            lemma_handed_same(host.events(), self.host_log@);
        }
        if op <= 7 || (12 <= op && op <= 18) || op >= 45 {
            self.exec_alu(inst, fast, steps)
        } else if op <= 11 || op == 24 || op == 25 {
            self.exec_float(inst, fast, steps, host)
        } else if op <= 27 {
            self.exec_branch(inst, fast, steps)
        } else if op == 28 || op == 29 || (35 <= op && op <= 37) {
            let ghost call = host_call_spec(*self, inst);
            let e = self.exec_host(inst, fast, steps, host);
            proof {
                let h0 = old(host).events();
                let l0 = old(self).host_log@;
                if !(call is Nothing) {
                    lemma_handed_push(h0, l0, h0, l0, HostEvent::Call(call));
                }
                if call is Hardware || call is Neural {
                    lemma_handed_push(h0, l0, h0.push(HostEvent::Call(call)), l0.push(HostEvent::Call(call)),
                        HostEvent::Left(image(*self)));
                }
            }
            e
        } else if op <= 31 {
            self.exec_memory(inst, fast, steps)
        } else if op <= 34 {
            self.exec_math(inst, fast, steps)
        } else if op == 38 {
            Exec::Yield
        } else if op <= 41 {
            self.exec_vector(inst, fast, steps, host)
        } else if op == 42 {
            Exec::Stop(Ok(VmResult::Spawn(steps, inst.imm16(), inst.a() as u8)))
        } else if op == 43 {
            Exec::Stop(Ok(VmResult::Awaiting(steps, self.registers[inst.b()], inst.a() as u8)))
        } else {
            Exec::Stop(Ok(VmResult::MmapRequest(steps, self.registers[inst.b()])))
        }
    }

    /// Records a step in the circular trace buffer, if tracing is on.
    fn log_trace(&mut self, pc: u32, inst: u32, reg_change: Option<(u8, u32)>, mem_change: Option<(u16, u32)>)
        ensures
            logged(
                *old(self),
                *final(self),
                TraceStep { pc, inst, reg_change, mem_change },
            ),
    {
        if self.tracing_enabled {
            let step = TraceStep { pc, inst, reg_change, mem_change };
            let head = self.trace_head % 1024;
            self.trace_buffer[head] = step;
            self.trace_head = (head + 1) % 1024;
            if self.trace_count < 1024 {
                self.trace_count = self.trace_count + 1;
            }
        }
    }

    /// Runs `code` from the current program counter until it halts, yields,
    /// asks the host for something, fails, or runs out of steps. The host's record grows
    /// by exactly the events the VM's log gains: the run hands the host nothing else.
    fn run_mode<H: HostHandlers>(&mut self, code: &[Instruction], fast: bool, host: &mut RecordingHost<H>) -> (r: Result<VmResult, VmError>)
        ensures
            run_spec(*old(self), *final(self), code@, fast, old(host).abort_installed(), old(host).hook_installed(), r),
            handed(old(host).events(), old(self).host_log@, final(host).events(), final(self).host_log@),
    {
        let ghost ab = host.abort_installed();
        let ghost hk = host.hook_installed();
        let abort_on = if fast {
            false
        } else {
            host.has_abort_flag()
        };
        let hook_on = if fast {
            false
        } else {
            host.has_debug_hook()
        };
        self.sp = 0;
        proof {
            lemma_handed_same(old(host).events(), old(self).host_log@);
        }
        let ghost s0 = *self;
        assert(s0 == (ScriptVm { sp: 0, ..*old(self) }));
        let ghost mut states: Seq<ScriptVm> = seq![*self];
        let mut steps: u32 = 0;
        loop
            invariant
                states.len() == steps + 1,
                ab == old(host).abort_installed(),
                hk == old(host).hook_installed(),
                !fast ==> abort_on == ab,
                !fast ==> hook_on == hk,
                fast ==> !hook_on && !abort_on,
                states[0] == s0,
                s0 == (ScriptVm { sp: 0, ..*old(self) }),
                states.last() == *self,
                forall|i: int|
                    0 <= i < states.len() - 1 ==> #[trigger] tick_spec(states[i], states[i + 1], code@, fast, ab, hk, i, None),
                handed(old(host).events(), old(self).host_log@, host.events(), self.host_log@),
            decreases u32::MAX - steps,
        {
            let ghost pre = *self;
            let pc = self.pc;
            let limit: u32 = match self.max_steps {
                Some(l) => l,
                None => u32::MAX,
            };
            if fast {
                if (steps % 256 == 0 && steps >= limit) || steps == u32::MAX {
                    let r = Err(VmError::OutOfFuel { pc });
                    proof {
                        lemma_run_ends(states, code@, fast, ab, hk, *self, r);
                        assert(is_run(states.push(*self), code@, fast, ab, hk, r));
                    }
                    return r;
                }
                if pc >= code.len() {
                    let r = Ok(VmResult::Halted(steps));
                    proof {
                        lemma_run_ends(states, code@, fast, ab, hk, *self, r);
                        assert(is_run(states.push(*self), code@, fast, ab, hk, r));
                    }
                    return r;
                }
            } else {
                if pc >= code.len() {
                    let r = Ok(VmResult::Halted(steps));
                    proof {
                        lemma_run_ends(states, code@, fast, ab, hk, *self, r);
                        assert(is_run(states.push(*self), code@, fast, ab, hk, r));
                    }
                    return r;
                }
                if abort_on && steps > 0 {
                    let ghost h_before = host.events();
                    let ans = host.abort_requested();
                    let ghost log0 = self.host_log@;
                    self.host_log = Ghost(log0.push(HostEvent::AbortPolled(ans)));
                    proof {
                        lemma_handed_push(old(host).events(), old(self).host_log@, h_before, log0, HostEvent::AbortPolled(ans));
                    }
                    assert(*self == with_event(pre, HostEvent::AbortPolled(ans)));
                    if ans {
                        let r = Ok(VmResult::Halted(steps));
                        proof {
                            assert(abort_polled(pre, *self, code@, hk, steps as int, Some(r), ans));
                            lemma_run_ends(states, code@, fast, ab, hk, *self, r);
                            assert(is_run(states.push(*self), code@, fast, ab, hk, r));
                        }
                        return r;
                    }
                }
            }
            let ghost p1 = *self;
            assert((!fast && ab && steps > 0) ==> p1 == with_event(pre, HostEvent::AbortPolled(false)));
            assert(!(!fast && ab && steps > 0) ==> p1 == pre);
            if !fast && steps >= limit {
                let r = Err(VmError::OutOfFuel { pc });
                proof {
                    assert(slow_tick(p1, *self, code@, hk, steps as int, Some(r)));
                    if ab && steps > 0 {
                        assert(abort_polled(pre, *self, code@, hk, steps as int, Some(r), false));
                    }
                    lemma_run_ends(states, code@, fast, ab, hk, *self, r);
                    assert(is_run(states.push(*self), code@, fast, ab, hk, r));
                }
                return r;
            }
            let inst = code[pc];
            if hook_on {
                let ghost h_before = host.events();
                host.debug_hook(self, inst);
                let ghost log1 = self.host_log@;
                self.host_log = Ghost(log1.push(HostEvent::DebugHook(pc, inst)));
                proof {
                    lemma_handed_push(old(host).events(), old(self).host_log@, h_before, log1, HostEvent::DebugHook(pc, inst));
                }
            }
            let ghost p2 = *self;
            assert(hook_on ==> p2 == with_event(p1, HostEvent::DebugHook(p1.pc, code@[p1.pc as int])));
            assert(!hook_on ==> p2 == p1);
            self.pc = pc + 1;
            steps = steps + 1;
            assert(*self == with_pc(p2, p2.pc + 1));
            let ghost h_before = host.events();
            let ghost l_before = self.host_log@;
            let e = self.execute(inst, fast, steps, host);
            let ghost mid = *self;
            proof {
                lemma_handed_trans(old(host).events(), old(self).host_log@, h_before, l_before, host.events(), self.host_log@);
            }
            let out: Option<Result<VmResult, VmError>> = match e {
                Exec::Halt => Some(Ok(VmResult::Halted(steps))),
                Exec::Yield => {
                    if !fast {
                        self.log_trace(pc as u32, inst.0, None, None);
                    }
                    Some(Ok(VmResult::Yielded(steps)))
                },
                Exec::Stop(r) => Some(r),
                Exec::Next { reg, mem } => {
                    if !fast {
                        self.log_trace(pc as u32, inst.0, reg, mem);
                    }
                    None
                },
            };
            proof {
                assert(finish(mid, *self, e, fast, pc, inst, steps as int, out));
                assert(executes(p2, *self, code@, fast, (steps - 1) as int, out));
                if !fast {
                    assert(slow_tick(p1, *self, code@, hk, (steps - 1) as int, out));
                    if ab && steps - 1 > 0 {
                        assert(abort_polled(pre, *self, code@, hk, (steps - 1) as int, out, false));
                    }
                }
                assert(tick_spec(pre, *self, code@, fast, ab, hk, (steps - 1) as int, out));
            }
            match out {
                Some(r) => {
                    proof {
                        lemma_run_ends(states, code@, fast, ab, hk, *self, r);
                        assert(is_run(states.push(*self), code@, fast, ab, hk, r));
                    }
                    return r;
                },
                None => {
                    proof {
                        let s2 = states.push(*self);
                        assert forall|i: int| 0 <= i < s2.len() - 1 implies #[trigger] tick_spec(s2[i], s2[i + 1], code@, fast, ab, hk, i, None) by {
                            if i < states.len() - 1 {
                                assert(s2[i] == states[i]);
                                assert(s2[i + 1] == states[i + 1]);
                            } else {
                                assert(s2[i] == pre);
                            }
                        }
                        states = s2;
                    }
                },
            }
        }
    }

    /// Runs `code` in the fast mode: no abort checks, no debug hook, no
    /// trace, and the step budget polled every 256 instructions.
    pub fn run_fast<H: HostHandlers>(&mut self, code: &[Instruction], host: &mut RecordingHost<H>) -> (r: Result<VmResult, VmError>)
        ensures
            run_spec(*old(self), *final(self), code@, true, old(host).abort_installed(), old(host).hook_installed(), r),
            handed(old(host).events(), old(self).host_log@, final(host).events(), final(self).host_log@),
    {
        self.run_mode(code, true, host)
    }

    /// Runs `code` checking the host's abort flag and calling its debug hook
    /// before every instruction, and recording the trace.
    fn run_slow<H: HostHandlers>(&mut self, code: &[Instruction], host: &mut RecordingHost<H>) -> (r: Result<VmResult, VmError>)
        ensures
            run_spec(*old(self), *final(self), code@, false, old(host).abort_installed(), old(host).hook_installed(), r),
            handed(old(host).events(), old(self).host_log@, final(host).events(), final(self).host_log@),
    {
        self.run_mode(code, false, host)
    }

    /// Runs the VM from its program counter (kept, so that a yielded program
    /// resumes) with an empty call stack. The fast mode serves a host with
    /// neither an abort flag nor a debug hook while tracing is off.
    pub fn run<H: HostHandlers>(&mut self, code: &[Instruction], host: &mut RecordingHost<H>) -> (r: Result<VmResult, VmError>)
        ensures
            if old(self).tracing_enabled || old(host).abort_installed() || old(host).hook_installed() {
                run_spec(*old(self), *final(self), code@, false, old(host).abort_installed(), old(host).hook_installed(), r)
            } else {
                run_spec(*old(self), *final(self), code@, true, false, false, r)
            },
            handed(old(host).events(), old(self).host_log@, final(host).events(), final(self).host_log@),
    {
        if !host.has_debug_hook() && !host.has_abort_flag() && !self.tracing_enabled {
            self.run_fast(code, host)
        } else {
            self.run_slow(code, host)
        }
    }

    /// A VM with zeroed registers, RAM and call stack, an empty mapped
    /// region, a budget of 10000 steps and tracing off.
    pub fn new() -> (vm: Self)
        ensures
            vm.is_fresh(),
    {
        ScriptVm {
            registers: [0u32; 256],
            pc: 0,
            call_stack: [0usize; 64],
            sp: 0,
            memory: [0u8; 1024],
            mmap: Vec::new(),
            max_steps: Some(10000),
            tracing_enabled: false,
            trace_buffer: [TraceStep { pc: 0, inst: 0, reg_change: None, mem_change: None }; 1024],
            trace_head: 0,
            trace_count: 0,
            host_log: Ghost(Seq::empty()),
        }
    }

    /// A fresh VM that counts itself as a live resource (and thread) in `counters` for
    /// as long as the returned tracker is not released.
    pub fn new_tracked(counters: &mut LifecycleCounters) -> (r: (Self, ScopedResource))
        ensures
            r.0.is_fresh(),
            final(counters).resources() == old(counters).resources().wrapping_add(1),
            final(counters).threads() == old(counters).threads().wrapping_add(1),
    {
        let tracker = ScopedResource::new(counters);
        (ScriptVm::new(), tracker)
    }

    pub open spec fn is_fresh(self) -> bool {
        &&& forall|i: int| 0 <= i < 256 ==> #[trigger] self.registers@[i] == 0
        &&& self.pc == 0
        &&& forall|i: int| 0 <= i < 64 ==> #[trigger] self.call_stack@[i] == 0
        &&& self.sp == 0
        &&& forall|i: int| 0 <= i < 1024 ==> #[trigger] self.memory@[i] == 0
        &&& self.mmap@.len() == 0
        &&& self.max_steps == Some(10000u32)
        &&& !self.tracing_enabled
        &&& forall|i: int|
            0 <= i < 1024 ==> #[trigger] self.trace_buffer@[i] == (TraceStep {
                pc: 0,
                inst: 0,
                reg_change: None,
                mem_change: None,
            })
        &&& self.trace_head == 0
        &&& self.trace_count == 0
        &&& self.host_log@ == Seq::<HostEvent>::empty()
    }

    /// Resets the ephemeral execution context (PC, SP, call stack, R[0..16])
    /// while memory and the persistent registers R[16..256] survive a reload
    /// of the code.
    pub fn hot_reload(&mut self)
        ensures
            final(self).pc == 0,
            final(self).sp == 0,
            forall|i: int| 0 <= i < 64 ==> #[trigger] final(self).call_stack@[i] == 0,
            forall|i: int| 0 <= i < 16 ==> #[trigger] final(self).registers@[i] == 0,
            forall|i: int| 16 <= i < 256 ==> #[trigger] final(self).registers@[i] == old(self).registers@[i],
            final(self).memory@ == old(self).memory@,
            final(self).mmap@ == old(self).mmap@,
            final(self).max_steps == old(self).max_steps,
            final(self).tracing_enabled == old(self).tracing_enabled,
            final(self).trace_buffer@ == old(self).trace_buffer@,
            final(self).trace_head == old(self).trace_head,
            final(self).trace_count == old(self).trace_count,
            final(self).host_log@ == old(self).host_log@,
    {
        self.pc = 0;
        self.sp = 0;
        self.call_stack = [0usize; 64];
        let mut i: usize = 0;
        while i < 16
            invariant
                i <= 16,
                forall|j: int| 0 <= j < i ==> #[trigger] self.registers@[j] == 0,
                forall|j: int| i <= j < 256 ==> #[trigger] self.registers@[j] == old(self).registers@[j],
                self.pc == 0,
                self.sp == 0,
                forall|j: int| 0 <= j < 64 ==> #[trigger] self.call_stack@[j] == 0,
                self.memory@ == old(self).memory@,
                self.mmap@ == old(self).mmap@,
                self.max_steps == old(self).max_steps,
                self.tracing_enabled == old(self).tracing_enabled,
                self.trace_buffer@ == old(self).trace_buffer@,
                self.trace_head == old(self).trace_head,
                self.trace_count == old(self).trace_count,
                self.host_log@ == old(self).host_log@,
            decreases 16 - i,
        {
            self.registers[i] = 0;
            i = i + 1;
        }
    }

    /// Where `len` bytes at `addr` lie: in the RAM below 1024, in the mapped
    /// region from `MMAP_BASE`; out of bounds otherwise, reported at the
    /// instruction before the program counter.
    pub fn get_ptr(&self, addr: usize, len: usize) -> (r: Result<MemRef, VmError>)
        ensures
            match r {
                Ok(m) => resolve_spec(*self, addr as int, len as int) == Some(m),
                Err(e) => resolve_spec(*self, addr as int, len as int) is None && e
                    == VmError::MemoryAccessOutOfBounds {
                    pc: if self.pc == 0 { usize::MAX } else { (self.pc - 1) as usize },
                    addr,
                },
            },
    {
        match self.resolve(addr as u64, len as u64) {
            Some(m) => Ok(m),
            None => Err(VmError::MemoryAccessOutOfBounds { pc: self.pc.wrapping_sub(1), addr }),
        }
    }

    /// The same lookup as `get_ptr`, for a write.
    pub fn get_mut_ptr(&mut self, addr: usize, len: usize) -> (r: Result<MemRef, VmError>)
        ensures
            *final(self) == *old(self),
            match r {
                Ok(m) => resolve_spec(*old(self), addr as int, len as int) == Some(m),
                Err(e) => resolve_spec(*old(self), addr as int, len as int) is None && e
                    == VmError::MemoryAccessOutOfBounds {
                    pc: if old(self).pc == 0 { usize::MAX } else { (old(self).pc - 1) as usize },
                    addr,
                },
            },
    {
        self.get_ptr(addr, len)
    }

    /// `OutOfFuel` at the program counter once `steps` reaches the step limit, if there is one.
    pub fn check_watchdog_timeout(&self, steps: u32) -> (r: Result<(), VmError>)
        ensures
            r == (match self.max_steps {
                Some(l) => if steps >= l {
                    Err(VmError::OutOfFuel { pc: self.pc })
                } else {
                    Ok(())
                },
                None => Ok(()),
            }),
    {
        if let Some(limit) = self.max_steps {
            if steps >= limit {
                return Err(VmError::OutOfFuel { pc: self.pc });
            }
        }
        Ok(())
    }

    /// A no-op kept as an anchor for step-count instrumentation.
    pub fn step_count_helper(&self) {
    }
}

impl Default for ScriptVm {
    fn default() -> (vm: Self)
        ensures
            vm.is_fresh(),
    {
        ScriptVm::new()
    }
}

} // verus!
