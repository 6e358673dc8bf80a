//! The instruction set: opcode tags, their byte values, and their encoded
//! lengths.
//!
//! Every opcode maps bidirectionally to a fixed byte value in `1..=16`;
//! byte `0` and bytes above `16` decode to no opcode.  Each opcode also has a
//! fixed total encoded length: one byte for the plain opcodes, two for
//! `Exit` (opcode plus an 8-bit immediate), and five for every instruction
//! that carries a 32-bit big-endian address.

use vstd::prelude::*;

verus! {

/// One operation of the machine.
#[derive(Clone, Copy, Debug, PartialEq, Eq, Structural)]
pub enum OpCode {
    /// No operation.
    Nop,
    /// Stop execution; the following byte is the exit code.
    Exit,
    /// Register C becomes register A plus register B (8-bit wraparound).
    Add,
    /// Register C becomes register A minus register B (8-bit wraparound).
    Subtract,
    /// Register C becomes register A times register B (8-bit wraparound).
    Multiply,
    /// Load the byte at the operand address into register A.
    LoadA,
    /// Load the byte at the operand address into register B.
    LoadB,
    /// Load the byte at the operand address into register C.
    LoadC,
    /// Store register A at the operand address.
    StoreA,
    /// Store register B at the operand address.
    StoreB,
    /// Store register C at the operand address.
    StoreC,
    /// Set the program counter to the operand address.
    Jump,
    /// Jump if register A equals register B.
    Jeq,
    /// Jump if register A does not equal register B.
    Jneq,
    /// Jump if register A is greater than register B.
    Jgt,
    /// Jump if register A is less than register B.
    Jlt,
}

/// The byte value that encodes each opcode.
pub open spec fn opcode_value(op: OpCode) -> u8 {
    match op {
        OpCode::Nop => 1,
        OpCode::Exit => 2,
        OpCode::Add => 3,
        OpCode::Subtract => 4,
        OpCode::Multiply => 5,
        OpCode::LoadA => 6,
        OpCode::LoadB => 7,
        OpCode::LoadC => 8,
        OpCode::StoreA => 9,
        OpCode::StoreB => 10,
        OpCode::StoreC => 11,
        OpCode::Jump => 12,
        OpCode::Jeq => 13,
        OpCode::Jneq => 14,
        OpCode::Jgt => 15,
        OpCode::Jlt => 16,
    }
}

/// The opcode encoded by a byte, if any.
pub open spec fn opcode_of_byte(value: u8) -> Option<OpCode> {
    if value == 1 {
        Some(OpCode::Nop)
    } else if value == 2 {
        Some(OpCode::Exit)
    } else if value == 3 {
        Some(OpCode::Add)
    } else if value == 4 {
        Some(OpCode::Subtract)
    } else if value == 5 {
        Some(OpCode::Multiply)
    } else if value == 6 {
        Some(OpCode::LoadA)
    } else if value == 7 {
        Some(OpCode::LoadB)
    } else if value == 8 {
        Some(OpCode::LoadC)
    } else if value == 9 {
        Some(OpCode::StoreA)
    } else if value == 10 {
        Some(OpCode::StoreB)
    } else if value == 11 {
        Some(OpCode::StoreC)
    } else if value == 12 {
        Some(OpCode::Jump)
    } else if value == 13 {
        Some(OpCode::Jeq)
    } else if value == 14 {
        Some(OpCode::Jneq)
    } else if value == 15 {
        Some(OpCode::Jgt)
    } else if value == 16 {
        Some(OpCode::Jlt)
    } else {
        None
    }
}

/// The total encoded length of an instruction, operands included.
pub open spec fn instruction_len(op: OpCode) -> u32 {
    match op {
        OpCode::Nop => 1,
        OpCode::Exit => 2,
        OpCode::Add => 1,
        OpCode::Subtract => 1,
        OpCode::Multiply => 1,
        _ => 5,
    }
}

impl OpCode {
    /// The byte value this opcode is encoded as.
    pub fn to_byte(self) -> (r: u8)
        ensures
            r == opcode_value(self),
    {
        match self {
            OpCode::Nop => 1,
            OpCode::Exit => 2,
            OpCode::Add => 3,
            OpCode::Subtract => 4,
            OpCode::Multiply => 5,
            OpCode::LoadA => 6,
            OpCode::LoadB => 7,
            OpCode::LoadC => 8,
            OpCode::StoreA => 9,
            OpCode::StoreB => 10,
            OpCode::StoreC => 11,
            OpCode::Jump => 12,
            OpCode::Jeq => 13,
            OpCode::Jneq => 14,
            OpCode::Jgt => 15,
            OpCode::Jlt => 16,
        }
    }

    /// Decode a byte into an opcode; `None` for a byte no opcode is encoded
    /// as.
    pub fn from_byte(value: u8) -> (r: Option<OpCode>)
        ensures
            r == opcode_of_byte(value),
    {
        match value {
            1 => Some(OpCode::Nop),
            2 => Some(OpCode::Exit),
            3 => Some(OpCode::Add),
            4 => Some(OpCode::Subtract),
            5 => Some(OpCode::Multiply),
            6 => Some(OpCode::LoadA),
            7 => Some(OpCode::LoadB),
            8 => Some(OpCode::LoadC),
            9 => Some(OpCode::StoreA),
            10 => Some(OpCode::StoreB),
            11 => Some(OpCode::StoreC),
            12 => Some(OpCode::Jump),
            13 => Some(OpCode::Jeq),
            14 => Some(OpCode::Jneq),
            15 => Some(OpCode::Jgt),
            16 => Some(OpCode::Jlt),
            _ => None,
        }
    }

    /// The total encoded length of an instruction with this opcode.
    pub fn encoded_length(self) -> (r: u32)
        ensures
            r == instruction_len(self),
    {
        match self {
            OpCode::Nop => 1,
            OpCode::Exit => 2,
            OpCode::Add => 1,
            OpCode::Subtract => 1,
            OpCode::Multiply => 1,
            _ => 5,
        }
    }
}

/// Decoding inverts encoding: every opcode's byte value decodes back to that
/// opcode, and decoding succeeds on exactly the bytes `1..=16`.
pub proof fn lemma_opcode_value_roundtrip(op: OpCode, value: u8)
    ensures
        opcode_of_byte(opcode_value(op)) == Some(op),
        opcode_of_byte(value) matches Some(op2) ==> opcode_value(op2) == value,
        opcode_of_byte(value) is Some <==> 1 <= value <= 16,
{
}

} // verus!
