//! Machine words and their decoding into the fourteen instruction forms.
//!
//! A word holds the opcode in bits 28..31. Opcodes 0..12 name three
//! registers in the low bits; opcode 13 names one register in bits 25..27
//! and carries a 25-bit immediate value.

use vstd::prelude::*;

verus! {

/// One 32-bit machine word holding an encoded instruction.
#[derive(Clone, Copy, Debug)]
pub struct Instruction(u32);

/// Opcode field of a word: bits 28..31.
pub open spec fn op_of(w: u32) -> u32 {
    w >> 28
}

/// Register field `a` of a three-register word: bits 6..8.
pub open spec fn a_of(w: u32) -> usize {
    ((w >> 6) & 7) as usize
}

/// Register field `b` of a three-register word: bits 3..5.
pub open spec fn b_of(w: u32) -> usize {
    ((w >> 3) & 7) as usize
}

/// Register field `c` of a three-register word: bits 0..2.
pub open spec fn c_of(w: u32) -> usize {
    (w & 7) as usize
}

/// Register field of an immediate word: bits 25..27.
pub open spec fn imm_a_of(w: u32) -> usize {
    ((w >> 25) & 7) as usize
}

/// Immediate payload of an immediate word: bits 0..24.
pub open spec fn imm_value_of(w: u32) -> u32 {
    w & 0x1ffffff
}

/// All bit fields of a word lie in their ranges.
pub proof fn lemma_field_bounds(w: u32)
    by (bit_vector)
    ensures
        w >> 28 < 16,
        (w >> 6) & 7 < 8,
        (w >> 3) & 7 < 8,
        w & 7 < 8,
        (w >> 25) & 7 < 8,
        w & 0x1ffffff < 0x2000000,
{
}

impl Instruction {
    /// The raw word.
    pub closed spec fn word(self) -> u32 {
        self.0
    }

    pub fn new(code: u32) -> (r: Self)
        ensures
            r.word() == code,
    {
        Self(code)
    }

    pub fn from_u32(code: u32) -> (r: Self)
        ensures
            r.word() == code,
    {
        Self(code)
    }

    pub fn to_u32(self) -> (r: u32)
        ensures
            r == self.word(),
    {
        self.0
    }

    pub fn opcode(self) -> (r: u32)
        ensures
            r == op_of(self.word()),
            r < 16,
    {
        proof {
            lemma_field_bounds(self.0);
        }
        self.0 >> 28
    }

    pub fn a(self) -> (r: usize)
        ensures
            r == a_of(self.word()),
            r < 8,
    {
        proof {
            lemma_field_bounds(self.0);
        }
        ((self.0 >> 6) & 7) as usize
    }

    pub fn b(self) -> (r: usize)
        ensures
            r == b_of(self.word()),
            r < 8,
    {
        proof {
            lemma_field_bounds(self.0);
        }
        ((self.0 >> 3) & 7) as usize
    }

    pub fn c(self) -> (r: usize)
        ensures
            r == c_of(self.word()),
            r < 8,
    {
        proof {
            lemma_field_bounds(self.0);
        }
        (self.0 & 7) as usize
    }

    pub fn imm_a(self) -> (r: usize)
        ensures
            r == imm_a_of(self.word()),
            r < 8,
    {
        proof {
            lemma_field_bounds(self.0);
        }
        ((self.0 >> 25) & 7) as usize
    }

    pub fn imm_value(self) -> (r: u32)
        ensures
            r == imm_value_of(self.word()),
            r < 0x2000000,
    {
        proof {
            lemma_field_bounds(self.0);
        }
        self.0 & 0x1ffffff
    }

    pub fn parse(self) -> (r: Option<ParsedInstruction>)
        ensures
            r == decode(self.word()),
    {
        ParsedInstruction::from_u32(self.0)
    }
}

/// A word decoded into its instruction form.
#[derive(Clone, Copy, Debug, PartialEq, Eq, Structural)]
pub enum ParsedInstruction {
    ConditionalMove { a: usize, b: usize, c: usize },
    ArrayIndex { a: usize, b: usize, c: usize },
    ArrayAmendment { a: usize, b: usize, c: usize },
    Addition { a: usize, b: usize, c: usize },
    Multiplication { a: usize, b: usize, c: usize },
    Division { a: usize, b: usize, c: usize },
    NotAnd { a: usize, b: usize, c: usize },
    Halt,
    Allocation { b: usize, c: usize },
    Abandonment { c: usize },
    Output { c: usize },
    Input { c: usize },
    LoadProgram { b: usize, c: usize },
    Immediate { a: usize, value: u32 },
}

/// What a word decodes to: `None` for opcodes 14 and 15.
pub open spec fn decode(w: u32) -> Option<ParsedInstruction> {
    let op = op_of(w);
    let a = a_of(w);
    let b = b_of(w);
    let c = c_of(w);
    if op == 0 {
        Some(ParsedInstruction::ConditionalMove { a, b, c })
    } else if op == 1 {
        Some(ParsedInstruction::ArrayIndex { a, b, c })
    } else if op == 2 {
        Some(ParsedInstruction::ArrayAmendment { a, b, c })
    } else if op == 3 {
        Some(ParsedInstruction::Addition { a, b, c })
    } else if op == 4 {
        Some(ParsedInstruction::Multiplication { a, b, c })
    } else if op == 5 {
        Some(ParsedInstruction::Division { a, b, c })
    } else if op == 6 {
        Some(ParsedInstruction::NotAnd { a, b, c })
    } else if op == 7 {
        Some(ParsedInstruction::Halt)
    } else if op == 8 {
        Some(ParsedInstruction::Allocation { b, c })
    } else if op == 9 {
        Some(ParsedInstruction::Abandonment { c })
    } else if op == 10 {
        Some(ParsedInstruction::Output { c })
    } else if op == 11 {
        Some(ParsedInstruction::Input { c })
    } else if op == 12 {
        Some(ParsedInstruction::LoadProgram { b, c })
    } else if op == 13 {
        Some(ParsedInstruction::Immediate { a: imm_a_of(w), value: imm_value_of(w) })
    } else {
        None
    }
}

/// The word that encodes an instruction whose fields are in range.
pub open spec fn encode(p: ParsedInstruction) -> u32 {
    match p {
        ParsedInstruction::ConditionalMove { a, b, c } => pack3(0, a, b, c),
        ParsedInstruction::ArrayIndex { a, b, c } => pack3(1, a, b, c),
        ParsedInstruction::ArrayAmendment { a, b, c } => pack3(2, a, b, c),
        ParsedInstruction::Addition { a, b, c } => pack3(3, a, b, c),
        ParsedInstruction::Multiplication { a, b, c } => pack3(4, a, b, c),
        ParsedInstruction::Division { a, b, c } => pack3(5, a, b, c),
        ParsedInstruction::NotAnd { a, b, c } => pack3(6, a, b, c),
        ParsedInstruction::Halt => 7u32 << 28,
        ParsedInstruction::Allocation { b, c } => pack3(8, 0, b, c),
        ParsedInstruction::Abandonment { c } => pack3(9, 0, 0, c),
        ParsedInstruction::Output { c } => pack3(10, 0, 0, c),
        ParsedInstruction::Input { c } => pack3(11, 0, 0, c),
        ParsedInstruction::LoadProgram { b, c } => pack3(12, 0, b, c),
        ParsedInstruction::Immediate { a, value } => (13u32 << 28) | ((a as u32) << 25) | value,
    }
}

/// The word with opcode `op` and register fields `a`, `b`, `c`.
pub open spec fn pack3(op: u32, a: usize, b: usize, c: usize) -> u32 {
    (op << 28) | ((a as u32) << 6) | ((b as u32) << 3) | (c as u32)
}

impl ParsedInstruction {
    /// The register fields lie below 8 and an immediate below 2^25.
    pub open spec fn wf(self) -> bool {
        match self {
            ParsedInstruction::ConditionalMove { a, b, c } => a < 8 && b < 8 && c < 8,
            ParsedInstruction::ArrayIndex { a, b, c } => a < 8 && b < 8 && c < 8,
            ParsedInstruction::ArrayAmendment { a, b, c } => a < 8 && b < 8 && c < 8,
            ParsedInstruction::Addition { a, b, c } => a < 8 && b < 8 && c < 8,
            ParsedInstruction::Multiplication { a, b, c } => a < 8 && b < 8 && c < 8,
            ParsedInstruction::Division { a, b, c } => a < 8 && b < 8 && c < 8,
            ParsedInstruction::NotAnd { a, b, c } => a < 8 && b < 8 && c < 8,
            ParsedInstruction::Halt => true,
            ParsedInstruction::Allocation { b, c } => b < 8 && c < 8,
            ParsedInstruction::Abandonment { c } => c < 8,
            ParsedInstruction::Output { c } => c < 8,
            ParsedInstruction::Input { c } => c < 8,
            ParsedInstruction::LoadProgram { b, c } => b < 8 && c < 8,
            ParsedInstruction::Immediate { a, value } => a < 8 && value < 0x2000000,
        }
    }

    pub fn from_u32(code: u32) -> (r: Option<ParsedInstruction>)
        ensures
            r == decode(code),
    {
        proof {
            lemma_field_bounds(code);
        }
        match code >> 28 {
            0 => {
                let a = ((code >> 6) & 7) as usize;
                let b = ((code >> 3) & 7) as usize;
                let c = (code & 7) as usize;
                Some(ParsedInstruction::ConditionalMove { a, b, c })
            },
            1 => {
                let a = ((code >> 6) & 7) as usize;
                let b = ((code >> 3) & 7) as usize;
                let c = (code & 7) as usize;
                Some(ParsedInstruction::ArrayIndex { a, b, c })
            },
            2 => {
                let a = ((code >> 6) & 7) as usize;
                let b = ((code >> 3) & 7) as usize;
                let c = (code & 7) as usize;
                Some(ParsedInstruction::ArrayAmendment { a, b, c })
            },
            3 => {
                let a = ((code >> 6) & 7) as usize;
                let b = ((code >> 3) & 7) as usize;
                let c = (code & 7) as usize;
                Some(ParsedInstruction::Addition { a, b, c })
            },
            4 => {
                let a = ((code >> 6) & 7) as usize;
                let b = ((code >> 3) & 7) as usize;
                let c = (code & 7) as usize;
                Some(ParsedInstruction::Multiplication { a, b, c })
            },
            5 => {
                let a = ((code >> 6) & 7) as usize;
                let b = ((code >> 3) & 7) as usize;
                let c = (code & 7) as usize;
                Some(ParsedInstruction::Division { a, b, c })
            },
            6 => {
                let a = ((code >> 6) & 7) as usize;
                let b = ((code >> 3) & 7) as usize;
                let c = (code & 7) as usize;
                Some(ParsedInstruction::NotAnd { a, b, c })
            },
            7 => Some(ParsedInstruction::Halt),
            8 => {
                let b = ((code >> 3) & 7) as usize;
                let c = (code & 7) as usize;
                Some(ParsedInstruction::Allocation { b, c })
            },
            9 => {
                let c = (code & 7) as usize;
                Some(ParsedInstruction::Abandonment { c })
            },
            10 => {
                let c = (code & 7) as usize;
                Some(ParsedInstruction::Output { c })
            },
            11 => {
                let c = (code & 7) as usize;
                Some(ParsedInstruction::Input { c })
            },
            12 => {
                let b = ((code >> 3) & 7) as usize;
                let c = (code & 7) as usize;
                Some(ParsedInstruction::LoadProgram { b, c })
            },
            13 => {
                let a = ((code >> 25) & 7) as usize;
                let value = code & 0x1ffffff;
                Some(ParsedInstruction::Immediate { a, value })
            },
            _ => None,
        }
    }

    pub fn to_u32(&self) -> (w: u32)
        requires
            self.wf(),
        ensures
            w == encode(*self),
    {
        match *self {
            ParsedInstruction::ConditionalMove { a, b, c } => pack3_exec(0, a, b, c),
            ParsedInstruction::ArrayIndex { a, b, c } => pack3_exec(1, a, b, c),
            ParsedInstruction::ArrayAmendment { a, b, c } => pack3_exec(2, a, b, c),
            ParsedInstruction::Addition { a, b, c } => pack3_exec(3, a, b, c),
            ParsedInstruction::Multiplication { a, b, c } => pack3_exec(4, a, b, c),
            ParsedInstruction::Division { a, b, c } => pack3_exec(5, a, b, c),
            ParsedInstruction::NotAnd { a, b, c } => pack3_exec(6, a, b, c),
            ParsedInstruction::Halt => 7u32 << 28,
            ParsedInstruction::Allocation { b, c } => pack3_exec(8, 0, b, c),
            ParsedInstruction::Abandonment { c } => pack3_exec(9, 0, 0, c),
            ParsedInstruction::Output { c } => pack3_exec(10, 0, 0, c),
            ParsedInstruction::Input { c } => pack3_exec(11, 0, 0, c),
            ParsedInstruction::LoadProgram { b, c } => pack3_exec(12, 0, b, c),
            ParsedInstruction::Immediate { a, value } => (13u32 << 28) | ((a as u32) << 25)
                | value,
        }
    }
}

fn pack3_exec(op: u32, a: usize, b: usize, c: usize) -> (w: u32)
    requires
        a < 8,
        b < 8,
        c < 8,
    ensures
        w == pack3(op, a, b, c),
{
    (op << 28) | ((a as u32) << 6) | ((b as u32) << 3) | (c as u32)
}

proof fn lemma_unpack3(op: u32, a: u32, b: u32, c: u32)
    by (bit_vector)
    requires
        op < 14,
        a < 8,
        b < 8,
        c < 8,
    ensures
        ((op << 28) | (a << 6) | (b << 3) | c) >> 28 == op,
        (((op << 28) | (a << 6) | (b << 3) | c) >> 6) & 7 == a,
        (((op << 28) | (a << 6) | (b << 3) | c) >> 3) & 7 == b,
        ((op << 28) | (a << 6) | (b << 3) | c) & 7 == c,
{
}

proof fn lemma_unpack_imm(a: u32, v: u32)
    by (bit_vector)
    requires
        a < 8,
        v < 0x2000000,
    ensures
        ((13u32 << 28) | (a << 25) | v) >> 28 == 13,
        (((13u32 << 28) | (a << 25) | v) >> 25) & 7 == a,
        ((13u32 << 28) | (a << 25) | v) & 0x1ffffff == v,
{
}

proof fn lemma_unpack_halt()
    by (bit_vector)
    ensures
        (7u32 << 28) >> 28 == 7,
{
}

/// Decoding inverts encoding: every well-formed instruction is recovered
/// exactly from its encoded word.
pub proof fn lemma_decode_encode(p: ParsedInstruction)
    requires
        p.wf(),
    ensures
        decode(encode(p)) == Some(p),
{
    match p {
        ParsedInstruction::ConditionalMove { a, b, c } => {
            lemma_unpack3(0, a as u32, b as u32, c as u32);
        },
        ParsedInstruction::ArrayIndex { a, b, c } => {
            lemma_unpack3(1, a as u32, b as u32, c as u32);
        },
        ParsedInstruction::ArrayAmendment { a, b, c } => {
            lemma_unpack3(2, a as u32, b as u32, c as u32);
        },
        ParsedInstruction::Addition { a, b, c } => {
            lemma_unpack3(3, a as u32, b as u32, c as u32);
        },
        ParsedInstruction::Multiplication { a, b, c } => {
            lemma_unpack3(4, a as u32, b as u32, c as u32);
        },
        ParsedInstruction::Division { a, b, c } => {
            lemma_unpack3(5, a as u32, b as u32, c as u32);
        },
        ParsedInstruction::NotAnd { a, b, c } => {
            lemma_unpack3(6, a as u32, b as u32, c as u32);
        },
        ParsedInstruction::Halt => {
            lemma_unpack_halt();
        },
        ParsedInstruction::Allocation { b, c } => {
            lemma_unpack3(8, 0, b as u32, c as u32);
        },
        ParsedInstruction::Abandonment { c } => {
            lemma_unpack3(9, 0, 0, c as u32);
        },
        ParsedInstruction::Output { c } => {
            lemma_unpack3(10, 0, 0, c as u32);
        },
        ParsedInstruction::Input { c } => {
            lemma_unpack3(11, 0, 0, c as u32);
        },
        ParsedInstruction::LoadProgram { b, c } => {
            lemma_unpack3(12, 0, b as u32, c as u32);
        },
        ParsedInstruction::Immediate { a, value } => {
            lemma_unpack_imm(a as u32, value);
        },
    }
}

/// A decoded word is well formed: its fields fit the field widths.
pub proof fn lemma_decode_wf(w: u32)
    ensures
        decode(w) is Some ==> decode(w).unwrap().wf(),
{
    lemma_field_bounds(w);
}

} // verus!
