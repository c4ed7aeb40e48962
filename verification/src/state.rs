//! The state container: every table of the pipeline, and the shape of the
//! snapshot that is logged after each cycle.

use crate::entries::{queue_view, ActiveEntry, IntegerQueueEntry, QueueEntry};
use crate::instruction::{
    decoded_view, DecodedInstruction, DecodedInstructionEntry, ARCH_REGISTERS,
};
use std::collections::VecDeque;
use vstd::prelude::*;

verus! {

/// Number of physical registers.
pub const PHYSICAL_REGISTERS: usize = 64;

/// Largest number of entries of the active list and of the issue queue.
pub const CAPACITY: usize = 32;

/// The program counter that stands for the exception handler.
pub const EXCEPTION_VECTOR: u64 = 0x10000;

/// Architectural and micro-architectural state between two cycles.
#[derive(Debug)]
pub struct SimulatorState {
    pub pc: u64,
    pub physical_register_file: Vec<u64>,
    pub decoded_pcs: Vec<DecodedInstructionEntry>,
    pub exception_pc: u64,
    pub exception: bool,
    pub register_map_table: Vec<u32>,
    pub free_list: VecDeque<u32>,
    pub busy_bit_table: Vec<bool>,
    pub active_list: VecDeque<ActiveEntry>,
    pub integer_queue: Vec<IntegerQueueEntry>,
    pub backpressure: bool,
}

/// The contents of a [`SimulatorState`].
pub ghost struct State {
    /// Position of the next program line to fetch.
    pub pc: u64,
    /// Value of each physical register.
    pub physical_register_file: Seq<u64>,
    /// Instructions fetched and not yet renamed, oldest first.
    pub decoded: Seq<DecodedInstruction>,
    /// Program counter of the instruction that last faulted.
    pub exception_pc: u64,
    /// Whether the pipeline is unwinding after a fault.
    pub exception: bool,
    /// Physical register that each architectural register is mapped to.
    pub register_map_table: Seq<u32>,
    /// Unallocated physical registers, next to allocate first.
    pub free_list: Seq<u32>,
    /// For each physical register, whether its producer has yet to write.
    pub busy_bit_table: Seq<bool>,
    /// Renamed instructions that have not retired, oldest first.
    pub active_list: Seq<ActiveEntry>,
    /// Renamed instructions that have not been issued.
    pub integer_queue: Seq<QueueEntry>,
    /// Whether rename refused the decoded group in the current cycle.
    pub backpressure: bool,
}

impl State {
    /// The state after reset: the identity mapping, the upper half of the
    /// physical registers free in ascending order, everything else empty.
    pub open spec fn reset() -> State {
        State {
            pc: 0,
            physical_register_file: Seq::new(PHYSICAL_REGISTERS as nat, |i: int| 0u64),
            decoded: Seq::empty(),
            exception_pc: 0,
            exception: false,
            register_map_table: Seq::new(ARCH_REGISTERS as nat, |i: int| i as u32),
            free_list: Seq::new(
                (PHYSICAL_REGISTERS - ARCH_REGISTERS) as nat,
                |i: int| (ARCH_REGISTERS + i) as u32,
            ),
            busy_bit_table: Seq::new(PHYSICAL_REGISTERS as nat, |i: int| false),
            active_list: Seq::empty(),
            integer_queue: Seq::empty(),
            backpressure: false,
        }
    }

    /// The program counters of the decoded instructions, which is all that
    /// a snapshot shows of them.
    pub open spec fn decoded_pcs(self) -> Seq<u64> {
        self.decoded.map_values(|d: DecodedInstruction| d.pc)
    }
}

impl View for SimulatorState {
    type V = State;

    open spec fn view(&self) -> State {
        State {
            pc: self.pc,
            physical_register_file: self.physical_register_file@,
            decoded: decoded_view(self.decoded_pcs@),
            exception_pc: self.exception_pc,
            exception: self.exception,
            register_map_table: self.register_map_table@,
            free_list: self.free_list@,
            busy_bit_table: self.busy_bit_table@,
            active_list: self.active_list@,
            integer_queue: queue_view(self.integer_queue@),
            backpressure: self.backpressure,
        }
    }
}

/// The contents of a list of snapshots.
pub open spec fn states_view(v: Seq<SimulatorState>) -> Seq<State> {
    v.map_values(|s: SimulatorState| s@)
}

/// A copy of a list of decoded instructions.
pub fn clone_decoded(v: &Vec<DecodedInstructionEntry>) -> (r: Vec<DecodedInstructionEntry>)
    ensures
        decoded_view(r@) == decoded_view(v@),
{
    let mut r: Vec<DecodedInstructionEntry> = Vec::new();
    let mut i: usize = 0;
    while i < v.len()
        invariant
            i <= v.len(),
            r.len() == i,
            forall|j: int| 0 <= j < i ==> r[j] == v[j],
        decreases v.len() - i,
    {
        r.push(v[i].clone());
        i += 1;
    }
    assert(decoded_view(r@) =~= decoded_view(v@));
    r
}

/// A copy of a list of queue entries.
pub fn clone_queue(v: &Vec<IntegerQueueEntry>) -> (r: Vec<IntegerQueueEntry>)
    ensures
        queue_view(r@) == queue_view(v@),
{
    let mut r: Vec<IntegerQueueEntry> = Vec::new();
    let mut i: usize = 0;
    while i < v.len()
        invariant
            i <= v.len(),
            r.len() == i,
            forall|j: int| 0 <= j < i ==> r[j] == v[j],
        decreases v.len() - i,
    {
        r.push(v[i].clone());
        i += 1;
    }
    assert(queue_view(r@) =~= queue_view(v@));
    r
}

/// The program counters of the decoded instructions, oldest first.
pub fn decoded_pc_values(decoded: &Vec<DecodedInstructionEntry>) -> (pcs: Vec<u64>)
    ensures
        pcs@ == decoded_view(decoded@).map_values(|d: DecodedInstruction| d.pc),
{
    let mut pcs: Vec<u64> = Vec::new();
    let mut i: usize = 0;
    while i < decoded.len()
        invariant
            i <= decoded.len(),
            pcs.len() == i,
            forall|j: int| 0 <= j < i ==> pcs[j] == decoded[j].pc,
        decreases decoded.len() - i,
    {
        pcs.push(decoded[i].pc);
        i += 1;
    }
    assert(pcs@ =~= decoded_view(decoded@).map_values(|d: DecodedInstruction| d.pc));
    pcs
}

impl Default for SimulatorState {
    /// The state after reset.
    fn default() -> (r: Self)
        ensures
            r@ == State::reset(),
    {
        let mut register_map_table: Vec<u32> = Vec::new();
        let mut free_list: VecDeque<u32> = VecDeque::new();
        let mut i: u32 = 0;
        while i < 32
            invariant
                i <= 32,
                register_map_table.len() == i,
                free_list@.len() == i,
                forall|j: int| 0 <= j < i ==> register_map_table[j] == j,
                forall|j: int| 0 <= j < i ==> free_list@[j] == 32 + j,
            decreases 32 - i,
        {
            register_map_table.push(i);
            free_list.push_back(32 + i);
            i += 1;
        }
        let r = Self {
            pc: 0,
            physical_register_file: vec![0u64; 64],
            decoded_pcs: Vec::new(),
            exception_pc: 0,
            exception: false,
            register_map_table,
            free_list,
            busy_bit_table: vec![false; 64],
            active_list: VecDeque::new(),
            integer_queue: Vec::new(),
            backpressure: false,
        };
        proof {
            let s = State::reset();
            assert(r@.physical_register_file =~= s.physical_register_file);
            assert(r@.decoded =~= s.decoded);
            assert(r@.register_map_table =~= s.register_map_table);
            assert(r@.free_list =~= s.free_list);
            assert(r@.busy_bit_table =~= s.busy_bit_table);
            assert(r@.active_list =~= s.active_list);
            assert(r@.integer_queue =~= s.integer_queue);
        }
        r
    }
}

impl Clone for SimulatorState {
    /// A snapshot of the state.
    fn clone(&self) -> (r: Self)
        ensures
            r@ == self@,
    {
        let r = Self {
            pc: self.pc,
            physical_register_file: self.physical_register_file.clone(),
            decoded_pcs: clone_decoded(&self.decoded_pcs),
            exception_pc: self.exception_pc,
            exception: self.exception,
            register_map_table: self.register_map_table.clone(),
            free_list: self.free_list.clone(),
            busy_bit_table: self.busy_bit_table.clone(),
            active_list: self.active_list.clone(),
            integer_queue: clone_queue(&self.integer_queue),
            backpressure: self.backpressure,
        };
        proof {
            assert(r@.physical_register_file =~= self@.physical_register_file);
            assert(r@.register_map_table =~= self@.register_map_table);
            assert(r@.free_list =~= self@.free_list);
            assert(r@.busy_bit_table =~= self@.busy_bit_table);
            assert(r@.active_list =~= self@.active_list);
        }
        r
    }
}

} // verus!
