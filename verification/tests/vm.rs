use no_std_tool::scriptgo_vm::instruction::{Instruction, OpCode};
use no_std_tool::scriptgo_vm::vm::{FloatOp, HostCall, HostHandlers, RecordingHost, ScriptVm, VmError, VmResult};
use no_std_tool::scriptgo_vm::assembler::ScriptAssembler;

/// A host with optional abort check, a counting debug hook, and f32 arithmetic; it
/// records the calls it gets and what its hook is shown.
struct TestHost {
    abort: Option<bool>,
    hook: bool,
    hook_count: usize,
    printed: Vec<u32>,
    calls: Vec<HostCall>,
    hooked: Vec<(usize, Instruction)>,
}

impl TestHost {
    fn plain() -> Self {
        TestHost {
            abort: None,
            hook: false,
            hook_count: 0,
            printed: Vec::new(),
            calls: Vec::new(),
            hooked: Vec::new(),
        }
    }
}

impl HostHandlers for TestHost {
    fn abort_installed(&self) -> bool {
        self.abort.is_some()
    }
    fn has_abort_flag(&self) -> bool {
        self.abort.is_some()
    }
    fn abort_requested(&mut self) -> bool {
        self.abort.unwrap_or(false)
    }
    fn hook_installed(&self) -> bool {
        self.hook
    }
    fn has_debug_hook(&self) -> bool {
        self.hook
    }
    fn debug_hook(&mut self, vm: &ScriptVm, inst: Instruction) {
        self.hook_count += 1;
        self.hooked.push((vm.pc, inst));
        if inst.opcode() == OpCode::LoadImm as u8 {
            assert_eq!(inst.a(), 1);
        }
    }
    fn print(&mut self, value: u32) {
        self.printed.push(value);
        self.calls.push(HostCall::Print(value));
    }
    fn syscall(&mut self, a: u32, b: u32, c: u32) {
        self.calls.push(HostCall::Syscall(a, b, c));
    }
    fn hardware_call(&mut self, _vm: &mut ScriptVm, a: usize, b: usize, c: usize) {
        self.calls.push(HostCall::Hardware(a, b, c));
    }
    fn ui_call(&mut self, a: usize, b: usize, c: usize) {
        self.calls.push(HostCall::Ui(a, b, c));
    }
    fn neural_call(&mut self, vm: &mut ScriptVm, a: usize, b: usize, c: usize) {
        self.calls.push(HostCall::Neural(a, b, c));
        vm.registers[9] = (a + b + c) as u32;
    }
    fn float_binary(&mut self, op: FloatOp, lhs: u32, rhs: u32) -> u32 {
        let (a, b) = (f32::from_bits(lhs), f32::from_bits(rhs));
        let r = match op {
            FloatOp::Add => a + b,
            FloatOp::Sub => a - b,
            FloatOp::Mul => a * b,
            FloatOp::Div => a / b,
        };
        r.to_bits()
    }
    fn float_less(&mut self, lhs: u32, rhs: u32) -> bool {
        f32::from_bits(lhs) < f32::from_bits(rhs)
    }
}

fn div_by_zero_case() {
    let mut vm = ScriptVm::new();
    let code = [
        Instruction::new(OpCode::LoadImm as u8, 1, 10, 0),
        Instruction::new(OpCode::LoadImm as u8, 2, 0, 0),
        Instruction::new(OpCode::Div as u8, 3, 1, 2),
        Instruction::new(OpCode::Halt as u8, 0, 0, 0),
    ];
    let result = vm.run(&code, &mut RecordingHost::new(TestHost::plain()));
    assert_eq!(result, Err(VmError::DivideByZero { pc: 2 }));
}

fn stack_overflow_case() {
    let mut vm = ScriptVm::new();
    let code = [Instruction::new(OpCode::Call as u8, 0, 0, 0)];
    let result = vm.run(&code, &mut RecordingHost::new(TestHost::plain()));
    assert_eq!(result, Err(VmError::StackOverflow { pc: 0 }));
}

fn stack_underflow_case() {
    let mut vm = ScriptVm::new();
    let code = [Instruction::new(OpCode::Ret as u8, 0, 0, 0)];
    let result = vm.run(&code, &mut RecordingHost::new(TestHost::plain()));
    assert_eq!(result, Err(VmError::StackUnderflow { pc: 0 }));
}

fn invalid_opcode_case() {
    let mut vm = ScriptVm::new();
    let code = [Instruction::new(0x99, 0, 0, 0)];
    let result = vm.run(&code, &mut RecordingHost::new(TestHost::plain()));
    assert_eq!(result, Err(VmError::InvalidOpcode { pc: 0, opcode: 0x99 }));
}

fn memory_load_store_case() {
    let mut vm = ScriptVm::new();
    vm.registers[1] = 42;
    vm.registers[2] = 10;
    vm.registers[3] = 4;
    let code = [
        Instruction::new(OpCode::Store as u8, 1, 2, 3),
        Instruction::new(OpCode::Load as u8, 4, 2, 3),
        Instruction::new(OpCode::Halt as u8, 0, 0, 0),
    ];
    vm.run(&code, &mut RecordingHost::new(TestHost::plain())).unwrap();
    assert_eq!(vm.registers[4], 42);
    assert_eq!(vm.memory[14], 42);
    assert_eq!(vm.memory[15], 0);
    assert_eq!(vm.memory[16], 0);
    assert_eq!(vm.memory[17], 0);
}

fn math_approximations_case() {
    let mut vm = ScriptVm::new();
    vm.registers[1] = 0;
    vm.registers[2] = 4;
    vm.registers[3] = 2;
    let code = [
        Instruction::new(OpCode::Exp as u8, 4, 1, 0),
        Instruction::new(OpCode::Rsqrt as u8, 5, 2, 0),
        Instruction::new(OpCode::Silu as u8, 6, 3, 0),
        Instruction::new(OpCode::Halt as u8, 0, 0, 0),
    ];
    vm.run(&code, &mut RecordingHost::new(TestHost::plain())).unwrap();
    assert_eq!(vm.registers[4], 65536);
    assert_eq!(vm.registers[5], 32768);
    assert!(vm.registers[6] > 0);
}

fn out_of_fuel_case() {
    let mut vm = ScriptVm::new();
    vm.max_steps = Some(50);
    let code = [Instruction::new(OpCode::Jmp as u8, 0, 0, 0)];
    let result = vm.run(&code, &mut RecordingHost::new(TestHost::plain()));
    assert_eq!(result, Err(VmError::OutOfFuel { pc: 0 }));
}

fn trace_logging_case() {
    let mut vm = ScriptVm::new();
    vm.tracing_enabled = true;
    let code = [
        Instruction::new(OpCode::LoadImm as u8, 1, 42, 0),
        Instruction::new(OpCode::Store as u8, 1, 0, 0),
        Instruction::new(OpCode::Halt as u8, 0, 0, 0),
    ];
    vm.run(&code, &mut RecordingHost::new(TestHost::plain())).unwrap();
    assert_eq!(vm.trace_count, 2);
    let trace1 = vm.trace_buffer[0];
    assert_eq!(trace1.pc, 0);
    assert_eq!(trace1.reg_change, Some((1, 42)));
    assert_eq!(trace1.mem_change, None);
    let trace2 = vm.trace_buffer[1];
    assert_eq!(trace2.pc, 1);
    assert_eq!(trace2.reg_change, None);
    assert_eq!(trace2.mem_change, Some((0, 42)));
}

fn debug_hook_case() {
    let mut vm = ScriptVm::new();
    let mut host = RecordingHost::new(TestHost::plain());
    host.handlers.hook = true;
    let code = [
        Instruction::new(OpCode::LoadImm as u8, 1, 10, 0),
        Instruction::new(OpCode::Halt as u8, 0, 0, 0),
    ];
    vm.run(&code, &mut host).unwrap();
    assert_eq!(host.handlers.hook_count, 2);
}

fn hot_reload_case() {
    let mut vm = ScriptVm::new();
    vm.pc = 42;
    vm.sp = 5;
    vm.call_stack[0] = 99;
    vm.registers[3] = 77;
    vm.registers[20] = 88;
    vm.memory[10] = 55;
    vm.hot_reload();
    assert_eq!(vm.pc, 0);
    assert_eq!(vm.sp, 0);
    assert_eq!(vm.call_stack[0], 0);
    assert_eq!(vm.registers[3], 0);
    assert_eq!(vm.registers[20], 88);
    assert_eq!(vm.memory[10], 55);
}

#[test]
fn vm_test_div_by_zero() {
    div_by_zero_case();
}

#[test]
fn vm_test_stack_overflow() {
    stack_overflow_case();
}

#[test]
fn vm_test_stack_underflow() {
    stack_underflow_case();
}

#[test]
fn vm_test_invalid_opcode() {
    invalid_opcode_case();
}

#[test]
fn vm_test_memory_load_store() {
    memory_load_store_case();
}

#[test]
fn vm_test_math_approximations() {
    math_approximations_case();
}

#[test]
fn vm_test_out_of_fuel() {
    out_of_fuel_case();
}

#[test]
fn vm_test_trace_logging() {
    trace_logging_case();
}

#[test]
fn vm_test_debug_hook() {
    debug_hook_case();
}

#[test]
fn vm_test_hot_reload_state_preservation() {
    hot_reload_case();
}

#[test]
fn vm_tests_test_div_by_zero() {
    div_by_zero_case();
}

#[test]
fn vm_tests_test_stack_overflow() {
    stack_overflow_case();
}

#[test]
fn vm_tests_test_stack_underflow() {
    stack_underflow_case();
}

#[test]
fn vm_tests_test_invalid_opcode() {
    invalid_opcode_case();
}

#[test]
fn vm_tests_test_memory_load_store() {
    memory_load_store_case();
}

#[test]
fn vm_tests_test_math_approximations() {
    math_approximations_case();
}

fn abort_flag_case() -> Result<VmResult, VmError> {
    let mut vm = ScriptVm::new();
    vm.max_steps = None;
    let mut host = RecordingHost::new(TestHost::plain());
    host.handlers.abort = Some(true);
    // an endless loop: 0: JMP 0
    let code = [Instruction::new(OpCode::Jmp as u8, 0, 0, 0)];
    vm.run(&code, &mut host)
}

#[test]
fn vm_test_abort_flag() {
    let result = abort_flag_case();
    assert_eq!(result.unwrap(), VmResult::Halted(1));
}

#[test]
fn vm_tests_test_abort_flag() {
    let result = abort_flag_case();
    assert!(result.is_ok());
    assert_eq!(result.unwrap(), VmResult::Halted(1));
}

#[test]
fn vm_jmp_if_zero_takes_the_16_bit_target_in_both_modes() {
    let mut builder = ScriptAssembler::new();
    builder.jmp_if_zero(1, 300);
    let first = builder.build()[0];
    let mut code = vec![Instruction::new(0x99, 0, 0, 0); 301];
    code[0] = first;
    code[300] = Instruction::new(OpCode::Halt as u8, 0, 0, 0);
    let mut vm = ScriptVm::new();
    assert_eq!(vm.run_fast(&code, &mut RecordingHost::new(TestHost::plain())), Ok(VmResult::Halted(2)));
    let mut vm = ScriptVm::new();
    vm.tracing_enabled = true;
    assert_eq!(vm.run(&code, &mut RecordingHost::new(TestHost::plain())), Ok(VmResult::Halted(2)));
}

#[test]
fn vm_without_abort_check_runs_to_the_end() {
    let mut vm = ScriptVm::new();
    vm.tracing_enabled = true;
    let code = [Instruction::new(OpCode::LoadImm as u8, 1, 1, 0)];
    assert_eq!(vm.run(&code, &mut RecordingHost::new(TestHost::plain())), Ok(VmResult::Halted(1)));
    assert_eq!(vm.registers[1], 1);
}

#[test]
fn vm_tests_test_out_of_fuel() {
    out_of_fuel_case();
}

#[test]
fn vm_tests_test_trace_logging() {
    trace_logging_case();
}

#[test]
fn vm_tests_test_debug_hook() {
    debug_hook_case();
}

#[test]
fn vm_tests_test_hot_reload_state_preservation() {
    hot_reload_case();
}

#[test]
fn vm_floats_through_the_host() {
    let mut vm = ScriptVm::new();
    vm.registers[1] = 3.5f32.to_bits();
    vm.registers[2] = 1.5f32.to_bits();
    let code = [
        Instruction::new(OpCode::FAdd as u8, 3, 1, 2),
        Instruction::new(OpCode::FSub as u8, 4, 1, 2),
        Instruction::new(OpCode::FMul as u8, 5, 1, 2),
        Instruction::new(OpCode::FDiv as u8, 6, 1, 2),
        Instruction::new(OpCode::Halt as u8, 0, 0, 0),
    ];
    vm.run(&code, &mut RecordingHost::new(TestHost::plain())).unwrap();
    assert_eq!(f32::from_bits(vm.registers[3]), 5.0f32);
    assert_eq!(f32::from_bits(vm.registers[4]), 2.0f32);
    assert_eq!(f32::from_bits(vm.registers[5]), 5.25f32);
    assert_eq!(f32::from_bits(vm.registers[6]), 3.5 / 1.5);
}

#[test]
fn vm_halt_counts_steps_and_print_reaches_host() {
    let mut vm = ScriptVm::new();
    let mut host = RecordingHost::new(TestHost::plain());
    let code = [
        Instruction::new(OpCode::LoadImm as u8, 1, 7, 0),
        Instruction::new(OpCode::PrintReg as u8, 1, 0, 0),
        Instruction::new(OpCode::Halt as u8, 0, 0, 0),
    ];
    let result = vm.run(&code, &mut host);
    assert_eq!(result, Ok(VmResult::Halted(3)));
    assert_eq!(host.handlers.printed, vec![7]);
}

#[test]
fn vm_memory_out_of_bounds() {
    let mut vm = ScriptVm::new();
    vm.registers[2] = 1022;
    let code = [
        Instruction::new(OpCode::Store as u8, 1, 2, 0),
        Instruction::new(OpCode::Halt as u8, 0, 0, 0),
    ];
    let result = vm.run(&code, &mut RecordingHost::new(TestHost::plain()));
    assert!(matches!(result, Err(VmError::MemoryAccessOutOfBounds { pc: 0, .. })));
}

#[test]
fn assembler_builds_what_the_vm_runs() {
    let mut builder = ScriptAssembler::new();
    builder.load_imm(1, 6);
    builder.load_imm(2, 7);
    builder.mul(3, 1, 2);
    builder.halt();
    assert_eq!(builder.current_address(), 4);
    let code = builder.build();
    let mut vm = ScriptVm::new();
    let result = vm.run(&code, &mut RecordingHost::new(TestHost::plain()));
    assert_eq!(result, Ok(VmResult::Halted(4)));
    assert_eq!(vm.registers[3], 42);
}

#[test]
fn vm_host_calls_carry_their_operands() {
    let mut vm = ScriptVm::new();
    vm.registers[1] = 11;
    vm.registers[2] = 22;
    vm.registers[3] = 33;
    assert_eq!(vm.host_call(Instruction::new(28, 1, 0, 0)), HostCall::Print(11));
    assert_eq!(vm.host_call(Instruction::new(29, 1, 2, 3)), HostCall::Syscall(11, 22, 33));
    assert_eq!(vm.host_call(Instruction::new(35, 1, 2, 3)), HostCall::Hardware(1, 2, 3));
    assert_eq!(vm.host_call(Instruction::new(36, 1, 2, 3)), HostCall::Ui(1, 2, 3));
    assert_eq!(vm.host_call(Instruction::new(36, 0, 2, 3)), HostCall::Nothing);
    assert_eq!(vm.host_call(Instruction::new(36, 1, 5, 3)), HostCall::Nothing);
    assert_eq!(vm.host_call(Instruction::new(37, 1, 2, 3)), HostCall::Neural(1, 2, 3));
}

#[test]
fn vm_neural_call_hands_its_operands_once() {
    let mut vm = ScriptVm::new();
    let mut host = RecordingHost::new(TestHost::plain());
    let code = [Instruction::new(37, 1, 2, 3), Instruction::new(0, 0, 0, 0)];
    assert_eq!(vm.run_fast(&code, &mut host), Ok(VmResult::Halted(2)));
    assert_eq!(host.handlers.calls, vec![HostCall::Neural(1, 2, 3)]);
}

#[test]
fn vm_host_instructions_reach_the_host_in_order() {
    let mut vm = ScriptVm::new();
    vm.registers[1] = 7;
    vm.registers[2] = 8;
    vm.registers[3] = 9;
    let mut host = RecordingHost::new(TestHost::plain());
    let code = [
        Instruction::new(28, 1, 0, 0),
        Instruction::new(29, 1, 2, 3),
        Instruction::new(36, 0, 2, 3),
        Instruction::new(36, 4, 2, 3),
        Instruction::new(35, 5, 6, 7),
        Instruction::new(0, 0, 0, 0),
    ];
    assert_eq!(vm.run(&code, &mut host), Ok(VmResult::Halted(6)));
    assert_eq!(
        host.handlers.calls,
        vec![
            HostCall::Print(7),
            HostCall::Syscall(7, 8, 9),
            HostCall::Ui(4, 2, 3),
            HostCall::Hardware(5, 6, 7),
        ]
    );
}

#[test]
fn vm_debug_hook_sees_each_instruction_before_it_runs() {
    let mut vm = ScriptVm::new();
    let mut host = RecordingHost::new(TestHost::plain());
    host.handlers.hook = true;
    let code = [
        Instruction::new(OpCode::LoadImm as u8, 1, 10, 0),
        Instruction::new(OpCode::Halt as u8, 0, 0, 0),
    ];
    assert_eq!(vm.run(&code, &mut host), Ok(VmResult::Halted(2)));
    assert_eq!(host.handlers.hooked, vec![(0, code[0]), (1, code[1])]);
}

#[test]
fn vm_compares_in_a_traced_run() {
    let mut vm = ScriptVm::new();
    vm.tracing_enabled = true;
    vm.registers[1] = 5;
    vm.registers[2] = 5;
    let code = [
        Instruction::new(OpCode::CmpEq as u8, 3, 1, 2),
        Instruction::new(OpCode::CmpLt as u8, 4, 1, 2),
        Instruction::new(OpCode::Halt as u8, 0, 0, 0),
    ];
    assert_eq!(vm.run(&code, &mut RecordingHost::new(TestHost::plain())), Ok(VmResult::Halted(3)));
    assert_eq!(vm.registers[3], 1);
    assert_eq!(vm.registers[4], 0);
}

#[test]
fn vm_load_imm16_then_halt_in_both_modes() {
    let mut builder = ScriptAssembler::new();
    builder.load_imm16(7, 0xBEEF).halt();
    let code = builder.build();
    assert_eq!(code, vec![Instruction::new(2, 7, 0xEF, 0xBE), Instruction::new(0, 0, 0, 0)]);
    let mut vm = ScriptVm::new();
    assert_eq!(vm.run(&code, &mut RecordingHost::new(TestHost::plain())), Ok(VmResult::Halted(2)));
    assert_eq!(vm.registers[7], 0xBEEF);
    let mut vm = ScriptVm::new();
    vm.tracing_enabled = true;
    assert_eq!(vm.run(&code, &mut RecordingHost::new(TestHost::plain())), Ok(VmResult::Halted(2)));
    assert_eq!(vm.registers[7], 0xBEEF);
}

#[test]
fn vm_neural_handler_leaves_the_vm_as_it_set_it() {
    let mut vm = ScriptVm::new();
    let code = [Instruction::new(37, 1, 2, 3), Instruction::new(0, 0, 0, 0)];
    let mut host = RecordingHost::new(TestHost::plain());
    assert_eq!(vm.run(&code, &mut host), Ok(VmResult::Halted(2)));
    assert_eq!(vm.registers[9], 6);
}

fn float_branch_program(op: u8) -> Vec<Instruction> {
    vec![
        Instruction::new(op, 1, 2, 3),
        Instruction::new(OpCode::LoadImm as u8, 5, 1, 0),
        Instruction::new(OpCode::Halt as u8, 0, 0, 0),
        Instruction::new(OpCode::LoadImm as u8, 5, 2, 0),
        Instruction::new(OpCode::Halt as u8, 0, 0, 0),
    ]
}

#[test]
fn vm_float_branches_follow_the_hosts_comparison() {
    for (op, jumped) in [(OpCode::JmpIfFLt as u8, true), (OpCode::JmpIfFGt as u8, false)] {
        let mut vm = ScriptVm::new();
        vm.registers[1] = 1.0f32.to_bits();
        vm.registers[2] = 2.0f32.to_bits();
        let code = float_branch_program(op);
        assert_eq!(vm.run(&code, &mut RecordingHost::new(TestHost::plain())), Ok(VmResult::Halted(3)));
        assert_eq!(vm.registers[5], if jumped { 2 } else { 1 });
    }
}

fn put_f32(vm: &mut ScriptVm, addr: usize, v: f32) {
    vm.memory[addr..addr + 4].copy_from_slice(&v.to_bits().to_le_bytes());
}

fn get_f32(vm: &ScriptVm, addr: usize) -> f32 {
    f32::from_bits(u32::from_le_bytes([vm.memory[addr], vm.memory[addr + 1], vm.memory[addr + 2], vm.memory[addr + 3]]))
}

#[test]
fn vm_vec_dot_sums_the_products_in_order() {
    let mut vm = ScriptVm::new();
    put_f32(&mut vm, 0, 1.0);
    put_f32(&mut vm, 4, 2.0);
    put_f32(&mut vm, 64, 3.0);
    put_f32(&mut vm, 68, 4.0);
    vm.registers[0] = 2;
    vm.registers[1] = 0;
    vm.registers[2] = 64;
    let code = [Instruction::new(41, 3, 1, 2), Instruction::new(0, 0, 0, 0)];
    assert_eq!(vm.run(&code, &mut RecordingHost::new(TestHost::plain())), Ok(VmResult::Halted(2)));
    assert_eq!(f32::from_bits(vm.registers[3]), 11.0);
}

#[test]
fn vm_vec_add_reads_sources_as_earlier_elements_left_them() {
    // the destination starts one word past the first source: element 1 reads what
    // element 0 wrote
    let mut vm = ScriptVm::new();
    put_f32(&mut vm, 0, 1.0);
    put_f32(&mut vm, 4, 2.0);
    put_f32(&mut vm, 8, 3.0);
    put_f32(&mut vm, 64, 10.0);
    put_f32(&mut vm, 68, 20.0);
    vm.registers[0] = 2;
    vm.registers[1] = 4;
    vm.registers[2] = 0;
    vm.registers[3] = 64;
    let code = [Instruction::new(39, 1, 2, 3), Instruction::new(0, 0, 0, 0)];
    assert_eq!(vm.run(&code, &mut RecordingHost::new(TestHost::plain())), Ok(VmResult::Halted(2)));
    assert_eq!(get_f32(&vm, 0), 1.0);
    assert_eq!(get_f32(&vm, 4), 11.0);
    assert_eq!(get_f32(&vm, 8), 31.0);
}
