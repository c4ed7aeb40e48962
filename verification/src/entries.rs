//! The records that the active list and the issue queue hold.

use vstd::prelude::*;

verus! {

/// One in-flight instruction, from rename until it retires or is rolled
/// back. `old_destination` is the physical register that
/// `logical_destination` was mapped to before this instruction renamed it.
#[derive(Clone, Copy, Debug, PartialEq, Eq, Structural)]
pub struct ActiveEntry {
    pub done: bool,
    pub exception: bool,
    pub logical_destination: u32,
    pub old_destination: u32,
    pub pc: u64,
}

/// One instruction that waits in the issue queue. An operand that is not
/// ready names in its tag the physical register whose value it waits for.
#[derive(Debug, PartialEq, Eq, Hash)]
pub struct IntegerQueueEntry {
    pub dest_register: u32,
    pub op_a_is_ready: bool,
    pub op_a_reg_tag: u32,
    pub op_a_value: u64,
    pub op_b_is_ready: bool,
    pub op_b_reg_tag: u32,
    pub op_b_value: u64,
    pub op_code: String,
    pub pc: u64,
}

/// The contents of an [`IntegerQueueEntry`].
pub ghost struct QueueEntry {
    pub dest_register: u32,
    pub op_a_is_ready: bool,
    pub op_a_reg_tag: u32,
    pub op_a_value: u64,
    pub op_b_is_ready: bool,
    pub op_b_reg_tag: u32,
    pub op_b_value: u64,
    pub op_code: Seq<char>,
    pub pc: u64,
}

impl QueueEntry {
    /// Both operands have their values.
    pub open spec fn ready(self) -> bool {
        self.op_a_is_ready && self.op_b_is_ready
    }

    /// The entry after physical register `reg` was written with `value`:
    /// each operand that waited for `reg` is ready with that value and a
    /// cleared tag.
    pub open spec fn woken(self, reg: u32, value: u64) -> QueueEntry {
        let a = !self.op_a_is_ready && self.op_a_reg_tag == reg;
        let b = !self.op_b_is_ready && self.op_b_reg_tag == reg;
        QueueEntry {
            op_a_is_ready: self.op_a_is_ready || a,
            op_a_reg_tag: if a {
                0
            } else {
                self.op_a_reg_tag
            },
            op_a_value: if a {
                value
            } else {
                self.op_a_value
            },
            op_b_is_ready: self.op_b_is_ready || b,
            op_b_reg_tag: if b {
                0
            } else {
                self.op_b_reg_tag
            },
            op_b_value: if b {
                value
            } else {
                self.op_b_value
            },
            ..self
        }
    }
}

impl View for IntegerQueueEntry {
    type V = QueueEntry;

    open spec fn view(&self) -> QueueEntry {
        QueueEntry {
            dest_register: self.dest_register,
            op_a_is_ready: self.op_a_is_ready,
            op_a_reg_tag: self.op_a_reg_tag,
            op_a_value: self.op_a_value,
            op_b_is_ready: self.op_b_is_ready,
            op_b_reg_tag: self.op_b_reg_tag,
            op_b_value: self.op_b_value,
            op_code: self.op_code@,
            pc: self.pc,
        }
    }
}

impl Clone for IntegerQueueEntry {
    fn clone(&self) -> (r: Self)
        ensures
            r == *self,
    {
        IntegerQueueEntry {
            dest_register: self.dest_register,
            op_a_is_ready: self.op_a_is_ready,
            op_a_reg_tag: self.op_a_reg_tag,
            op_a_value: self.op_a_value,
            op_b_is_ready: self.op_b_is_ready,
            op_b_reg_tag: self.op_b_reg_tag,
            op_b_value: self.op_b_value,
            op_code: self.op_code.clone(),
            pc: self.pc,
        }
    }
}

/// The contents of a list of queue entries.
pub open spec fn queue_view(v: Seq<IntegerQueueEntry>) -> Seq<QueueEntry> {
    v.map_values(|e: IntegerQueueEntry| e@)
}

} // verus!
