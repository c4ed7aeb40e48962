//! The execution unit: a two-stage pipeline that computes one integer
//! operation and hands its result to the forwarding latch a cycle later.

use crate::entries::{IntegerQueueEntry, QueueEntry};
use crate::instruction::{opcode_of, parse_opcode, Opcode};
use vstd::prelude::*;

verus! {

/// What a unit puts on the forwarding bus: destination physical register,
/// value, program counter of the instruction, and whether it faulted.
pub type Latch = (u32, u64, u64, bool);

/// The result of `op` on unsigned 64-bit operands, and whether it faults.
/// Addition, subtraction and multiplication wrap modulo 2^64; division and
/// remainder fault exactly when the divisor is zero, and then give zero.
pub open spec fn alu_result(op: Opcode, a: u64, b: u64) -> (u64, bool) {
    match op {
        Opcode::Add => (((a + b) % 0x1_0000_0000_0000_0000) as u64, false),
        Opcode::Sub => (((a - b) % 0x1_0000_0000_0000_0000) as u64, false),
        Opcode::Mulu => (((a * b) % 0x1_0000_0000_0000_0000) as u64, false),
        Opcode::Divu => if b == 0 {
            (0, true)
        } else {
            ((a / b) as u64, false)
        },
        Opcode::Remu => if b == 0 {
            (0, true)
        } else {
            ((a % b) as u64, false)
        },
    }
}

/// Executable form of [`alu_result`].
pub fn compute(op: Opcode, a: u64, b: u64) -> (r: (u64, bool))
    ensures
        r == alu_result(op, a, b),
{
    match op {
        Opcode::Add => (a.wrapping_add(b), false),
        Opcode::Sub => (a.wrapping_sub(b), false),
        Opcode::Mulu => (a.wrapping_mul(b), false),
        Opcode::Divu => if b == 0 {
            (0, true)
        } else {
            (a / b, false)
        },
        Opcode::Remu => if b == 0 {
            (0, true)
        } else {
            (a % b, false)
        },
    }
}

/// What a unit latches for instruction `i`, whose mnemonic must be known.
pub open spec fn outcome(i: QueueEntry) -> Latch {
    let r = alu_result(opcode_of(i.op_code)->0, i.op_a_value, i.op_b_value);
    (i.dest_register, r.0, i.pc, r.1)
}

/// The contents of an [`Alu`].
pub ghost struct Unit {
    /// The result broadcast in the current cycle, if any.
    pub forwarding: Option<Latch>,
    /// The result computed in the current cycle, broadcast in the next.
    pub stage1: Option<Latch>,
    /// The instruction bound by issue, computed when the unit next steps.
    pub in_flight: Option<QueueEntry>,
}

impl Unit {
    /// A unit that holds nothing.
    pub open spec fn idle() -> Unit {
        Unit { forwarding: None, stage1: None, in_flight: None }
    }

    /// Issue may bind an instruction to the unit.
    pub open spec fn is_free(self) -> bool {
        self.in_flight is None
    }

    /// The unit can step: a bound instruction has a known mnemonic.
    pub open spec fn can_step(self) -> bool {
        self.in_flight matches Some(i) ==> opcode_of(i.op_code) is Some
    }

    /// One step of the unit: stage 1 moves to the forwarding latch, the
    /// bound instruction is computed into stage 1, and the unit is free.
    pub open spec fn step(self) -> Unit {
        Unit {
            forwarding: self.stage1,
            stage1: match self.in_flight {
                Some(i) => Some(outcome(i)),
                None => None,
            },
            in_flight: None,
        }
    }
}

/// One of the four execution units.
pub struct Alu {
    pub forwarding: Option<(u32, u64, u64, bool)>,
    pub pipeline_stage1: Option<(u32, u64, u64, bool)>,
    pub instruction_in_flight: Option<IntegerQueueEntry>,
}

impl View for Alu {
    type V = Unit;

    open spec fn view(&self) -> Unit {
        Unit {
            forwarding: self.forwarding,
            stage1: self.pipeline_stage1,
            in_flight: match self.instruction_in_flight {
                Some(i) => Some(i@),
                None => None,
            },
        }
    }
}

impl Alu {
    /// A unit that holds nothing.
    pub fn new() -> (r: Self)
        ensures
            r@ == Unit::idle(),
    {
        Self { forwarding: None, pipeline_stage1: None, instruction_in_flight: None }
    }

    /// Whether issue may bind an instruction to the unit.
    pub fn is_free(&self) -> (b: bool)
        ensures
            b == self@.is_free(),
    {
        self.instruction_in_flight.is_none()
    }

    /// Binds `instr` to the unit, in place of any instruction bound before.
    pub fn push_instr(&mut self, instr: IntegerQueueEntry)
        ensures
            final(self)@ == (Unit { in_flight: Some(instr@), ..old(self)@ }),
    {
        self.instruction_in_flight = Some(instr);
    }

    /// Steps the unit by one cycle; see [`Unit::step`].
    pub fn execute(&mut self)
        requires
            old(self)@.can_step(),
        ensures
            final(self)@ == old(self)@.step(),
    {
        self.forwarding = self.pipeline_stage1;
        self.pipeline_stage1 = None;
        let latched = match &self.instruction_in_flight {
            Some(instr) => {
                match parse_opcode(instr.op_code.as_str()) {
                    Some(op) => {
                        let r = compute(op, instr.op_a_value, instr.op_b_value);
                        Some((instr.dest_register, r.0, instr.pc, r.1))
                    },
                    None => None,
                }
            },
            None => None,
        };
        self.pipeline_stage1 = latched;
        self.instruction_in_flight = None;
    }

    /// Empties the unit.
    pub fn reset(&mut self)
        ensures
            final(self)@ == Unit::idle(),
    {
        self.forwarding = None;
        self.pipeline_stage1 = None;
        self.instruction_in_flight = None;
    }
}

} // verus!
