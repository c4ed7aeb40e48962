//! Instruction text: opcodes, register names, immediates, and the decoded
//! record that fetch hands to rename.

use crate::text::{
    chars_of, decimal_u64, decimal_value, ends_with, ends_with_char, parse_decimal, split_words,
    strings_view, trim_end, trim_end_char, words,
};
use vstd::prelude::*;

verus! {

/// Number of architectural registers.
pub const ARCH_REGISTERS: usize = 32;

/// The integer operations that an execution unit performs.
#[derive(Clone, Copy, Debug, PartialEq, Eq, Structural)]
pub enum Opcode {
    Add,
    Sub,
    Mulu,
    Divu,
    Remu,
}

/// The operation that a mnemonic names. `addi` is accepted beside `add`.
pub open spec fn opcode_of(name: Seq<char>) -> Option<Opcode> {
    if name == seq!['a', 'd', 'd'] || name == seq!['a', 'd', 'd', 'i'] {
        Some(Opcode::Add)
    } else if name == seq!['s', 'u', 'b'] {
        Some(Opcode::Sub)
    } else if name == seq!['m', 'u', 'l', 'u'] {
        Some(Opcode::Mulu)
    } else if name == seq!['d', 'i', 'v', 'u'] {
        Some(Opcode::Divu)
    } else if name == seq!['r', 'e', 'm', 'u'] {
        Some(Opcode::Remu)
    } else {
        None
    }
}

/// The index `N` of the architectural register that `xN` names: the letter
/// `x`, then a decimal numeral below 32.
pub open spec fn register_index(token: Seq<char>) -> Option<nat> {
    if token.len() > 0 && token[0] == 'x' {
        match decimal_value(token.drop_first()) {
            Some(n) => if n < ARCH_REGISTERS {
                Some(n)
            } else {
                None
            },
            None => None,
        }
    } else {
        None
    }
}

/// Executable form of [`opcode_of`].
pub fn parse_opcode(name: &str) -> (r: Option<Opcode>)
    ensures
        r == opcode_of(name@),
{
    let c = chars_of(name);
    let n: usize = c.len();
    if n == 3 && c[0] == 'a' && c[1] == 'd' && c[2] == 'd' {
        assert(name@ =~= seq!['a', 'd', 'd']);
        Some(Opcode::Add)
    } else if n == 4 && c[0] == 'a' && c[1] == 'd' && c[2] == 'd' && c[3] == 'i' {
        assert(name@ =~= seq!['a', 'd', 'd', 'i']);
        Some(Opcode::Add)
    } else if n == 3 && c[0] == 's' && c[1] == 'u' && c[2] == 'b' {
        assert(name@ =~= seq!['s', 'u', 'b']);
        Some(Opcode::Sub)
    } else if n == 4 && c[0] == 'm' && c[1] == 'u' && c[2] == 'l' && c[3] == 'u' {
        assert(name@ =~= seq!['m', 'u', 'l', 'u']);
        Some(Opcode::Mulu)
    } else if n == 4 && c[0] == 'd' && c[1] == 'i' && c[2] == 'v' && c[3] == 'u' {
        assert(name@ =~= seq!['d', 'i', 'v', 'u']);
        Some(Opcode::Divu)
    } else if n == 4 && c[0] == 'r' && c[1] == 'e' && c[2] == 'm' && c[3] == 'u' {
        assert(name@ =~= seq!['r', 'e', 'm', 'u']);
        Some(Opcode::Remu)
    } else {
        assert(seq!['a', 'd', 'd'].len() == 3 && seq!['a', 'd', 'd'][0] == 'a' && seq![
            'a',
            'd',
            'd',
        ][1] == 'd' && seq!['a', 'd', 'd'][2] == 'd');
        assert(seq!['a', 'd', 'd', 'i'].len() == 4 && seq!['a', 'd', 'd', 'i'][3] == 'i');
        assert(seq!['s', 'u', 'b'].len() == 3);
        assert(seq!['m', 'u', 'l', 'u'].len() == 4);
        assert(seq!['d', 'i', 'v', 'u'].len() == 4);
        assert(seq!['r', 'e', 'm', 'u'].len() == 4);
        None
    }
}

/// Executable form of [`register_index`].
pub fn parse_register(token: &str) -> (r: Option<u32>)
    ensures
        match register_index(token@) {
            Some(n) => r == Some(n as u32),
            None => r is None,
        },
        r matches Some(n) ==> n < ARCH_REGISTERS,
{
    let n: usize = token.unicode_len();
    if n == 0 || token.get_char(0) != 'x' {
        return None;
    }
    let rest = token.substring_char(1, n);
    assert(rest@ =~= token@.drop_first());
    match parse_decimal(rest) {
        Some(v) => if v < 32 {
            Some(v as u32)
        } else {
            None
        },
        None => None,
    }
}

/// An instruction as fetch leaves it: the line's position in the program,
/// the mnemonic without its immediate marker, and the three operand texts.
#[derive(Debug, PartialEq, Eq)]
pub struct DecodedInstructionEntry {
    pub pc: u64,
    pub op: String,
    pub is_imm: bool,
    pub dest: String,
    pub src1: String,
    pub src2: String,
}

/// The contents of a [`DecodedInstructionEntry`].
pub ghost struct DecodedInstruction {
    pub pc: u64,
    pub op: Seq<char>,
    pub is_imm: bool,
    pub dest: Seq<char>,
    pub src1: Seq<char>,
    pub src2: Seq<char>,
}

impl DecodedInstruction {
    /// Rename can process the instruction: the mnemonic is known, the
    /// destination and first source name registers, and the second source
    /// is a 64-bit immediate for an immediate form and a register otherwise.
    pub open spec fn well_formed(self) -> bool {
        &&& opcode_of(self.op) is Some
        &&& register_index(self.dest) is Some
        &&& register_index(self.src1) is Some
        &&& if self.is_imm {
            decimal_u64(self.src2) is Some
        } else {
            register_index(self.src2) is Some
        }
    }
}

impl View for DecodedInstructionEntry {
    type V = DecodedInstruction;

    open spec fn view(&self) -> DecodedInstruction {
        DecodedInstruction {
            pc: self.pc,
            op: self.op@,
            is_imm: self.is_imm,
            dest: self.dest@,
            src1: self.src1@,
            src2: self.src2@,
        }
    }
}

impl Clone for DecodedInstructionEntry {
    fn clone(&self) -> (r: Self)
        ensures
            r == *self,
    {
        DecodedInstructionEntry {
            pc: self.pc,
            op: self.op.clone(),
            is_imm: self.is_imm,
            dest: self.dest.clone(),
            src1: self.src1.clone(),
            src2: self.src2.clone(),
        }
    }
}

impl DecodedInstructionEntry {
    /// Executable form of [`DecodedInstruction::well_formed`].
    pub fn is_well_formed(&self) -> (b: bool)
        ensures
            b == self@.well_formed(),
    {
        parse_opcode(self.op.as_str()).is_some() && parse_register(self.dest.as_str()).is_some()
            && parse_register(self.src1.as_str()).is_some() && if self.is_imm {
            parse_decimal(self.src2.as_str()).is_some()
        } else {
            parse_register(self.src2.as_str()).is_some()
        }
    }
}

/// The contents of a list of decoded instructions.
pub open spec fn decoded_view(v: Seq<DecodedInstructionEntry>) -> Seq<DecodedInstruction> {
    v.map_values(|d: DecodedInstructionEntry| d@)
}

/// What decoding makes of one program line at position `pc`. A line of
/// fewer than four words decodes to nothing. Otherwise the first word is the
/// mnemonic, whose trailing `i`s mark an immediate form and are dropped, and
/// the next three words are the operands, trailing commas dropped.
pub open spec fn decode(line: Seq<char>, pc: u64) -> Option<DecodedInstruction> {
    let w = words(line);
    if w.len() < 4 {
        None
    } else {
        Some(
            DecodedInstruction {
                pc,
                op: trim_end(w[0], 'i'),
                is_imm: ends_with(w[0], 'i'),
                dest: trim_end(w[1], ','),
                src1: trim_end(w[2], ','),
                src2: trim_end(w[3], ','),
            },
        )
    }
}

/// A program line that is either skipped by decoding or decodes to an
/// instruction that rename can process.
pub open spec fn line_well_formed(line: Seq<char>) -> bool {
    match decode(line, 0) {
        Some(d) => d.well_formed(),
        None => true,
    }
}

/// Every line of the program is well formed.
pub open spec fn program_well_formed(program: Seq<Seq<char>>) -> bool {
    forall|i: int| 0 <= i < program.len() ==> line_well_formed(#[trigger] program[i])
}

/// Decodes one program line; see [`decode`].
pub fn decode_line(line: &str, pc: u64) -> (r: Option<DecodedInstructionEntry>)
    ensures
        match r {
            Some(d) => decode(line@, pc) == Some(d@),
            None => decode(line@, pc) is None,
        },
{
    let parts = split_words(line);
    if parts.len() < 4 {
        return None;
    }
    assert(strings_view(parts@)[0] == parts[0]@);
    assert(strings_view(parts@)[1] == parts[1]@);
    assert(strings_view(parts@)[2] == parts[2]@);
    assert(strings_view(parts@)[3] == parts[3]@);
    let raw_op = parts[0].as_str();
    Some(
        DecodedInstructionEntry {
            pc,
            op: trim_end_char(raw_op, 'i'),
            is_imm: ends_with_char(raw_op, 'i'),
            dest: trim_end_char(parts[1].as_str(), ','),
            src1: trim_end_char(parts[2].as_str(), ','),
            src2: trim_end_char(parts[3].as_str(), ','),
        },
    )
}

/// Whether every line of `program` is well formed; see
/// [`program_well_formed`].
pub fn check_program(program: &Vec<String>) -> (b: bool)
    ensures
        b == program_well_formed(strings_view(program@)),
{
    let mut i: usize = 0;
    while i < program.len()
        invariant
            i <= program.len(),
            forall|j: int| 0 <= j < i ==> line_well_formed(#[trigger] strings_view(program@)[j]),
        decreases program.len() - i,
    {
        assert(strings_view(program@)[i as int] == program[i as int]@);
        match decode_line(program[i].as_str(), 0) {
            Some(d) => {
                if !d.is_well_formed() {
                    return false;
                }
            },
            None => {},
        }
        i += 1;
    }
    true
}

} // verus!
