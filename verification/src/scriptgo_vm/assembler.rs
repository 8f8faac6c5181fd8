use vstd::prelude::*;
use super::instruction::{Instruction, OpCode, opcode_byte};

verus! {

/// The instruction with opcode `op` and operands `a`, `b`, `c`.
pub open spec fn encode(op: int, a: int, b: int, c: int) -> Instruction {
    Instruction((op + a * 256 + b * 65536 + c * 16777216) as u32)
}

/// The instruction with opcode `op` and operand bytes `a`, `b`, `c`.
pub open spec fn encode_bytes(op: u8, a: u8, b: u8, c: u8) -> Instruction {
    encode(op as int, a as int, b as int, c as int)
}

/// Builds a program instruction by instruction.
pub struct ScriptAssembler {
    instructions: Vec<Instruction>,
}

impl View for ScriptAssembler {
    type V = Seq<Instruction>;

    closed spec fn view(&self) -> Seq<Instruction> {
        self.instructions@
    }
}

impl ScriptAssembler {
    pub fn new() -> (r: Self)
        ensures
            r@ == Seq::<Instruction>::empty(),
    {
        ScriptAssembler { instructions: Vec::new() }
    }

    /// The index the next emitted instruction will have.
    pub fn current_address(&self) -> (r: usize)
        ensures
            r == self@.len(),
    {
        self.instructions.len()
    }

    /// Replaces the instruction at `index`; an index past the end changes nothing.
    pub fn set_instruction(&mut self, index: usize, inst: Instruction)
        ensures
            final(self)@ == if index < old(self)@.len() {
                old(self)@.update(index as int, inst)
            } else {
                old(self)@
            },
    {
        if index < self.instructions.len() {
            self.instructions[index] = inst;
        }
    }

    pub fn get_instruction(&self, index: usize) -> (r: Option<Instruction>)
        ensures
            r == if index < self@.len() {
                Some(self@[index as int])
            } else {
                None
            },
    {
        if index < self.instructions.len() {
            Some(self.instructions[index])
        } else {
            None
        }
    }

    /// The program built so far.
    pub fn build(self) -> (r: Vec<Instruction>)
        ensures
            r@ == self@,
    {
        self.instructions
    }

    /// Emits a raw instruction.
    pub fn emit(&mut self, inst: Instruction) -> (r: &mut Self)
        ensures
            (*r)@ == old(self)@.push(inst),
            final(self)@ == final(r)@,
    {
        self.instructions.push(inst);
        self
    }

    /// R[A] = B
    pub fn load_imm(&mut self, a: u8, b: u8) -> (r: &mut Self)
        ensures
            (*r)@ == old(self)@.push(encode(1, a as int, b as int, 0)),
            final(self)@ == final(r)@,
    {
        let inst = Instruction::new(OpCode::LoadImm.byte(), a, b, 0);
        self.emit(inst)
    }

    /// R[A] = imm16(B, C), the value split into its low byte B and high byte C
    pub fn load_imm16(&mut self, a: u8, val: u16) -> (r: &mut Self)
        ensures
            (*r)@ == old(self)@.push(encode(2, a as int, val as int % 256, val as int / 256)),
            final(self)@ == final(r)@,
    {
        let lo: u8 = (val % 256) as u8;
        let hi: u8 = (val / 256) as u8;
        let inst = Instruction::new(OpCode::LoadImm16.byte(), a, lo, hi);
        self.emit(inst)
    }

    /// R[A] = R[B] + R[C]
    pub fn add(&mut self, a: u8, b: u8, c: u8) -> (r: &mut Self)
        ensures
            (*r)@ == old(self)@.push(encode(3, a as int, b as int, c as int)),
            final(self)@ == final(r)@,
    {
        let inst = Instruction::new(OpCode::Add.byte(), a, b, c);
        self.emit(inst)
    }

    /// R[A] = R[B] - R[C]
    pub fn sub(&mut self, a: u8, b: u8, c: u8) -> (r: &mut Self)
        ensures
            (*r)@ == old(self)@.push(encode(4, a as int, b as int, c as int)),
            final(self)@ == final(r)@,
    {
        let inst = Instruction::new(OpCode::Sub.byte(), a, b, c);
        self.emit(inst)
    }

    /// R[A] = R[B] * R[C]
    pub fn mul(&mut self, a: u8, b: u8, c: u8) -> (r: &mut Self)
        ensures
            (*r)@ == old(self)@.push(encode(5, a as int, b as int, c as int)),
            final(self)@ == final(r)@,
    {
        let inst = Instruction::new(OpCode::Mul.byte(), a, b, c);
        self.emit(inst)
    }

    /// R[A] = R[B] / R[C]
    pub fn div(&mut self, a: u8, b: u8, c: u8) -> (r: &mut Self)
        ensures
            (*r)@ == old(self)@.push(encode(6, a as int, b as int, c as int)),
            final(self)@ == final(r)@,
    {
        let inst = Instruction::new(OpCode::Div.byte(), a, b, c);
        self.emit(inst)
    }

    /// R[A] = R[B] + R[C] as f32
    pub fn fadd(&mut self, a: u8, b: u8, c: u8) -> (r: &mut Self)
        ensures
            (*r)@ == old(self)@.push(encode(8, a as int, b as int, c as int)),
            final(self)@ == final(r)@,
    {
        let inst = Instruction::new(OpCode::FAdd.byte(), a, b, c);
        self.emit(inst)
    }

    /// R[A] = R[B] - R[C] as f32
    pub fn fsub(&mut self, a: u8, b: u8, c: u8) -> (r: &mut Self)
        ensures
            (*r)@ == old(self)@.push(encode(9, a as int, b as int, c as int)),
            final(self)@ == final(r)@,
    {
        let inst = Instruction::new(OpCode::FSub.byte(), a, b, c);
        self.emit(inst)
    }

    /// R[A] = R[B] * R[C] as f32
    pub fn fmul(&mut self, a: u8, b: u8, c: u8) -> (r: &mut Self)
        ensures
            (*r)@ == old(self)@.push(encode(10, a as int, b as int, c as int)),
            final(self)@ == final(r)@,
    {
        let inst = Instruction::new(OpCode::FMul.byte(), a, b, c);
        self.emit(inst)
    }

    /// R[A] = R[B] / R[C] as f32
    pub fn fdiv(&mut self, a: u8, b: u8, c: u8) -> (r: &mut Self)
        ensures
            (*r)@ == old(self)@.push(encode(11, a as int, b as int, c as int)),
            final(self)@ == final(r)@,
    {
        let inst = Instruction::new(OpCode::FDiv.byte(), a, b, c);
        self.emit(inst)
    }

    /// R[A] = (R[B] == R[C]) as u32
    pub fn cmp_eq(&mut self, a: u8, b: u8, c: u8) -> (r: &mut Self)
        ensures
            (*r)@ == old(self)@.push(encode_bytes(17, a, b, c)),
            final(self)@ == final(r)@,
    {
        let inst = Instruction::new(OpCode::CmpEq.byte(), a, b, c);
        self.emit(inst)
    }

    /// PC = target
    pub fn jmp(&mut self, target: u16) -> (r: &mut Self)
        ensures
            (*r)@ == old(self)@.push(encode(19, 0, target as int % 256, target as int / 256)),
            final(self)@ == final(r)@,
    {
        let lo: u8 = (target % 256) as u8;
        let hi: u8 = (target / 256) as u8;
        let inst = Instruction::new(OpCode::Jmp.byte(), 0, lo, hi);
        self.emit(inst)
    }

    /// If R[A] == 0, PC = target
    pub fn jmp_if_zero(&mut self, a: u8, target: u16) -> (r: &mut Self)
        ensures
            (*r)@ == old(self)@.push(encode(20, a as int, target as int % 256, target as int / 256)),
            final(self)@ == final(r)@,
    {
        let lo: u8 = (target % 256) as u8;
        let hi: u8 = (target / 256) as u8;
        let inst = Instruction::new(OpCode::JmpIfZero.byte(), a, lo, hi);
        self.emit(inst)
    }

    /// If R[A] > R[B] as f32, PC = target (its low byte)
    pub fn jmp_if_fgt(&mut self, a: u8, b: u8, target: u16) -> (r: &mut Self)
        ensures
            (*r)@ == old(self)@.push(encode(25, a as int, b as int, target as int % 256)),
            final(self)@ == final(r)@,
    {
        let t: u8 = (target % 256) as u8;
        let inst = Instruction::new(OpCode::JmpIfFGt.byte(), a, b, t);
        self.emit(inst)
    }

    /// If R[A] < R[B], PC = target
    pub fn jmp_if_lt(&mut self, a: u8, b: u8, target: u8) -> (r: &mut Self)
        ensures
            (*r)@ == old(self)@.push(encode(22, a as int, b as int, target as int)),
            final(self)@ == final(r)@,
    {
        let inst = Instruction::new(OpCode::JmpIfLt.byte(), a, b, target);
        self.emit(inst)
    }

    /// If R[A] > R[B], PC = target
    pub fn jmp_if_gt(&mut self, a: u8, b: u8, target: u8) -> (r: &mut Self)
        ensures
            (*r)@ == old(self)@.push(encode(23, a as int, b as int, target as int)),
            final(self)@ == final(r)@,
    {
        let inst = Instruction::new(OpCode::JmpIfGt.byte(), a, b, target);
        self.emit(inst)
    }

    /// If R[A] == R[B], PC = target
    pub fn jmp_if_eq(&mut self, a: u8, b: u8, target: u8) -> (r: &mut Self)
        ensures
            (*r)@ == old(self)@.push(encode(21, a as int, b as int, target as int)),
            final(self)@ == final(r)@,
    {
        let inst = Instruction::new(OpCode::JmpIfEq.byte(), a, b, target);
        self.emit(inst)
    }

    /// System call: print R[A]
    pub fn print_reg(&mut self, a: u8) -> (r: &mut Self)
        ensures
            (*r)@ == old(self)@.push(encode(28, a as int, 0, 0)),
            final(self)@ == final(r)@,
    {
        let inst = Instruction::new(OpCode::PrintReg.byte(), a, 0, 0);
        self.emit(inst)
    }

    /// Stops the program
    pub fn halt(&mut self) -> (r: &mut Self)
        ensures
            (*r)@ == old(self)@.push(encode(0, 0, 0, 0)),
            final(self)@ == final(r)@,
    {
        let inst = Instruction::new(OpCode::Halt.byte(), 0, 0, 0);
        self.emit(inst)
    }
}

impl Default for ScriptAssembler {
    fn default() -> (r: Self)
        ensures
            r@ == Seq::<Instruction>::empty(),
    {
        ScriptAssembler::new()
    }
}

} // verus!
