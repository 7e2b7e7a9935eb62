//! The instruction set and the values it works on.

use vstd::prelude::*;
use vstd::std_specs::convert::TryFromSpecImpl;

verus! {

/// A numeric constant, held as the bit pattern of an IEEE 754
/// double-precision number.
pub type Value = u64;

/// The bit that holds the sign of a [`Value`].
pub const SIGN_BIT: u64 = 0x8000_0000_0000_0000;

/// The arithmetic negation of `value`: the same number with the other sign.
pub open spec fn negated(value: Value) -> Value {
    value ^ SIGN_BIT
}

/// The arithmetic negation of `value`.
pub fn negate(value: Value) -> (result: Value)
    ensures
        result == negated(value),
{
    value ^ SIGN_BIT
}

/// Negating twice gives the value back.
pub proof fn lemma_negated_twice(value: Value)
    ensures
        negated(negated(value)) == value,
{
    assert((value ^ 0x8000_0000_0000_0000u64) ^ 0x8000_0000_0000_0000u64 == value) by (bit_vector);
}

/// The instructions of the machine. Each is encoded as one byte;
/// `LoadConstant` is followed by one operand byte.
#[derive(Clone, Copy, Debug, PartialEq, Eq, Structural)]
pub enum OpCode {
    Return,
    LoadConstant,
    Negate,
    Add,
    Subtract,
    Multiply,
    Divide,
}

/// What decoding a byte that stands for no instruction reports.
pub open spec fn invalid_opcode_message() -> Seq<char> {
    "Invalid opcode"@
}

impl OpCode {
    /// The instruction that `byte` encodes, if it encodes one.
    pub open spec fn decode(byte: u8) -> Option<OpCode> {
        if byte == 0 {
            Some(OpCode::Return)
        } else if byte == 1 {
            Some(OpCode::LoadConstant)
        } else if byte == 2 {
            Some(OpCode::Negate)
        } else if byte == 3 {
            Some(OpCode::Add)
        } else if byte == 4 {
            Some(OpCode::Subtract)
        } else if byte == 5 {
            Some(OpCode::Multiply)
        } else if byte == 6 {
            Some(OpCode::Divide)
        } else {
            None
        }
    }

    /// The byte that encodes the instruction.
    pub open spec fn encoding(self) -> u8 {
        match self {
            OpCode::Return => 0,
            OpCode::LoadConstant => 1,
            OpCode::Negate => 2,
            OpCode::Add => 3,
            OpCode::Subtract => 4,
            OpCode::Multiply => 5,
            OpCode::Divide => 6,
        }
    }

    /// The number of bytes the instruction takes, its operand included.
    pub open spec fn width(self) -> int {
        if self == OpCode::LoadConstant {
            2
        } else {
            1
        }
    }

    /// The instruction's mnemonic.
    pub open spec fn mnemonic(self) -> Seq<char> {
        match self {
            OpCode::Return => "Return"@,
            OpCode::LoadConstant => "LoadConstant"@,
            OpCode::Negate => "Negate"@,
            OpCode::Add => "Add"@,
            OpCode::Subtract => "Subtract"@,
            OpCode::Multiply => "Multiply"@,
            OpCode::Divide => "Divide"@,
        }
    }

    /// The byte that encodes the instruction.
    pub fn to_byte(self) -> (byte: u8)
        ensures
            byte == self.encoding(),
            OpCode::decode(byte) == Some(self),
    {
        match self {
            OpCode::Return => 0,
            OpCode::LoadConstant => 1,
            OpCode::Negate => 2,
            OpCode::Add => 3,
            OpCode::Subtract => 4,
            OpCode::Multiply => 5,
            OpCode::Divide => 6,
        }
    }

    /// The instruction's mnemonic.
    pub fn name(self) -> (name: &'static str)
        ensures
            name@ == self.mnemonic(),
    {
        match self {
            OpCode::Return => "Return",
            OpCode::LoadConstant => "LoadConstant",
            OpCode::Negate => "Negate",
            OpCode::Add => "Add",
            OpCode::Subtract => "Subtract",
            OpCode::Multiply => "Multiply",
            OpCode::Divide => "Divide",
        }
    }

    /// The instruction's mnemonic as an owned text.
    pub fn to_string(&self) -> (text: String)
        ensures
            text@ == self.mnemonic(),
    {
        self.name().to_owned()
    }
}

impl TryFrom<u8> for OpCode {
    type Error = &'static str;

    /// Decodes `byte`; a byte that stands for no instruction is an error.
    fn try_from(byte: u8) -> (decoded: Result<OpCode, &'static str>) {
        match byte {
            0 => Ok(OpCode::Return),
            1 => Ok(OpCode::LoadConstant),
            2 => Ok(OpCode::Negate),
            3 => Ok(OpCode::Add),
            4 => Ok(OpCode::Subtract),
            5 => Ok(OpCode::Multiply),
            6 => Ok(OpCode::Divide),
            _ => Err("Invalid opcode"),
        }
    }
}

impl TryFromSpecImpl<u8> for OpCode {
    open spec fn obeys_try_from_spec() -> bool {
        true
    }

    open spec fn try_from_spec(byte: u8) -> Result<OpCode, &'static str> {
        match OpCode::decode(byte) {
            Some(op) => Ok(op),
            None => Err("Invalid opcode"),
        }
    }
}

/// Encoding and decoding are inverse to each other, and exactly the bytes
/// from 0 to 6 encode an instruction.
pub proof fn lemma_encoding_round_trip(op: OpCode, byte: u8)
    ensures
        OpCode::decode(op.encoding()) == Some(op),
        OpCode::decode(byte) matches Some(decoded) ==> decoded.encoding() == byte,
        OpCode::decode(byte) is Some <==> byte <= 6,
{
}

} // verus!
