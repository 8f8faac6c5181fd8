use vstd::prelude::*;

verus! {

/// The operations understood by the script VM; an instruction's low byte is
/// the position of its operation in this list (`Halt` is 0, `Mmap` is 44).
#[derive(Debug, Clone, Copy, PartialEq, Eq)]
pub enum OpCode {
    Halt,
    LoadImm,
    LoadImm16,
    Add,
    Sub,
    Mul,
    Div,
    Mod,
    FAdd,
    FSub,
    FMul,
    FDiv,
    And,
    Or,
    Xor,
    Shl,
    Shr,
    CmpEq,
    CmpLt,
    Jmp,
    JmpIfZero,
    JmpIfEq,
    JmpIfLt,
    JmpIfGt,
    JmpIfFLt,
    JmpIfFGt,
    Call,
    Ret,
    PrintReg,
    SysCall,
    Load,
    Store,
    Exp,
    Rsqrt,
    Silu,
    HardwareCall,
    UiCall,
    NeuralCall,
    Yield,
    VecAdd,
    VecMul,
    VecDot,
    Spawn,
    Await,
    Mmap,
}

/// The byte that encodes each operation.
pub open spec fn opcode_byte(op: OpCode) -> u8 {
    match op {
        OpCode::Halt => 0,
        OpCode::LoadImm => 1,
        OpCode::LoadImm16 => 2,
        OpCode::Add => 3,
        OpCode::Sub => 4,
        OpCode::Mul => 5,
        OpCode::Div => 6,
        OpCode::Mod => 7,
        OpCode::FAdd => 8,
        OpCode::FSub => 9,
        OpCode::FMul => 10,
        OpCode::FDiv => 11,
        OpCode::And => 12,
        OpCode::Or => 13,
        OpCode::Xor => 14,
        OpCode::Shl => 15,
        OpCode::Shr => 16,
        OpCode::CmpEq => 17,
        OpCode::CmpLt => 18,
        OpCode::Jmp => 19,
        OpCode::JmpIfZero => 20,
        OpCode::JmpIfEq => 21,
        OpCode::JmpIfLt => 22,
        OpCode::JmpIfGt => 23,
        OpCode::JmpIfFLt => 24,
        OpCode::JmpIfFGt => 25,
        OpCode::Call => 26,
        OpCode::Ret => 27,
        OpCode::PrintReg => 28,
        OpCode::SysCall => 29,
        OpCode::Load => 30,
        OpCode::Store => 31,
        OpCode::Exp => 32,
        OpCode::Rsqrt => 33,
        OpCode::Silu => 34,
        OpCode::HardwareCall => 35,
        OpCode::UiCall => 36,
        OpCode::NeuralCall => 37,
        OpCode::Yield => 38,
        OpCode::VecAdd => 39,
        OpCode::VecMul => 40,
        OpCode::VecDot => 41,
        OpCode::Spawn => 42,
        OpCode::Await => 43,
        OpCode::Mmap => 44,
    }
}

impl OpCode {
    /// The byte that encodes this operation in an instruction.
    pub fn byte(self) -> (r: u8)
        ensures
            r == opcode_byte(self),
    {
        match self {
            OpCode::Halt => 0,
            OpCode::LoadImm => 1,
            OpCode::LoadImm16 => 2,
            OpCode::Add => 3,
            OpCode::Sub => 4,
            OpCode::Mul => 5,
            OpCode::Div => 6,
            OpCode::Mod => 7,
            OpCode::FAdd => 8,
            OpCode::FSub => 9,
            OpCode::FMul => 10,
            OpCode::FDiv => 11,
            OpCode::And => 12,
            OpCode::Or => 13,
            OpCode::Xor => 14,
            OpCode::Shl => 15,
            OpCode::Shr => 16,
            OpCode::CmpEq => 17,
            OpCode::CmpLt => 18,
            OpCode::Jmp => 19,
            OpCode::JmpIfZero => 20,
            OpCode::JmpIfEq => 21,
            OpCode::JmpIfLt => 22,
            OpCode::JmpIfGt => 23,
            OpCode::JmpIfFLt => 24,
            OpCode::JmpIfFGt => 25,
            OpCode::Call => 26,
            OpCode::Ret => 27,
            OpCode::PrintReg => 28,
            OpCode::SysCall => 29,
            OpCode::Load => 30,
            OpCode::Store => 31,
            OpCode::Exp => 32,
            OpCode::Rsqrt => 33,
            OpCode::Silu => 34,
            OpCode::HardwareCall => 35,
            OpCode::UiCall => 36,
            OpCode::NeuralCall => 37,
            OpCode::Yield => 38,
            OpCode::VecAdd => 39,
            OpCode::VecMul => 40,
            OpCode::VecDot => 41,
            OpCode::Spawn => 42,
            OpCode::Await => 43,
            OpCode::Mmap => 44,
        }
    }
}

/// A packed instruction: opcode in bits 0..8, operand A in 8..16,
/// operand B in 16..24, operand C in 24..32.
#[derive(Clone, Copy, Debug, PartialEq, Eq)]
pub struct Instruction(pub u32);

impl Instruction {
    pub open spec fn spec_opcode(self) -> u8 {
        (self.0 % 256) as u8
    }

    pub open spec fn spec_a(self) -> int {
        ((self.0 / 256) % 256) as int
    }

    pub open spec fn spec_b(self) -> int {
        ((self.0 / 65536) % 256) as int
    }

    pub open spec fn spec_c(self) -> int {
        (self.0 / 16777216) as int
    }

    /// Operands B and C read together as a little-endian 16-bit immediate.
    pub open spec fn spec_imm16(self) -> int {
        (self.0 / 65536) as int
    }

    /// Packs an opcode and three operand bytes.
    pub fn new(opcode: u8, a: u8, b: u8, c: u8) -> (r: Self)
        ensures
            r.0 == opcode + a * 256 + b * 65536 + c * 16777216,
            r.spec_opcode() == opcode,
            r.spec_a() == a,
            r.spec_b() == b,
            r.spec_c() == c,
    {
        let v: u32 = (opcode as u32) | ((a as u32) << 8u32) | ((b as u32) << 16u32) | ((c as u32) << 24u32);
        assert(v == opcode + a * 256 + b * 65536 + c * 16777216) by (bit_vector)
            requires
                v == (opcode as u32) | ((a as u32) << 8u32) | ((b as u32) << 16u32) | ((c as u32) << 24u32),
        ;
        Instruction(v)
    }

    /// The operation byte.
    pub fn opcode(&self) -> (r: u8)
        ensures
            r == self.spec_opcode(),
    {
        let x = self.0;
        let r: u8 = (x & 0xFF) as u8;
        assert(r == (x % 256) as u8) by (bit_vector)
            requires r == (x & 0xFF) as u8;
        r
    }

    /// Operand A.
    pub fn a(&self) -> (r: usize)
        ensures
            r == self.spec_a(),
    {
        let x = self.0;
        let v: u32 = (x >> 8u32) & 0xFF;
        assert(v == (x / 256) % 256) by (bit_vector)
            requires v == (x >> 8u32) & 0xFF;
        v as usize
    }

    /// Operand B.
    pub fn b(&self) -> (r: usize)
        ensures
            r == self.spec_b(),
    {
        let x = self.0;
        let v: u32 = (x >> 16u32) & 0xFF;
        assert(v == (x / 65536) % 256) by (bit_vector)
            requires v == (x >> 16u32) & 0xFF;
        v as usize
    }

    /// Operand C.
    pub fn c(&self) -> (r: usize)
        ensures
            r == self.spec_c(),
    {
        let x = self.0;
        let v: u32 = (x >> 24u32) & 0xFF;
        assert(v == x / 16777216) by (bit_vector)
            requires v == (x >> 24u32) & 0xFF;
        v as usize
    }

    /// Operands B and C read together as a 16-bit immediate.
    pub fn imm16(&self) -> (r: u16)
        ensures
            r == self.spec_imm16(),
    {
        let x = self.0;
        let v: u32 = (x >> 16u32) & 0xFFFF;
        assert(v == x / 65536) by (bit_vector)
            requires v == (x >> 16u32) & 0xFFFF;
        v as u16
    }
}

} // verus!
