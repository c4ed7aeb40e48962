//! The simulator: a program, the pipeline state, the execution units, and
//! the log of snapshots, with one function for each pipeline stage.

use crate::alu::{Alu, Unit};
use crate::entries::{ActiveEntry, IntegerQueueEntry};
use crate::instruction::{
    decode, decode_line, decoded_view, opcode_of, parse_register, program_well_formed,
    register_index, DecodedInstruction, DecodedInstructionEntry,
};
use crate::model::{
    decoded_range, forward, forward_units, has_pc, issue_units, oldest_ready, operand_state,
    position_of, rename_n, rename_one, retire, retire_count, rollback, rollback_one,
    unit_well_formed, Machine,
};
use crate::laws::commit::{lemma_commit_consistent, lemma_retire_well_formed};
use crate::laws::execute::{lemma_execute_consistent, lemma_forward_well_formed};
use crate::laws::fetch::lemma_fetch_consistent;
use crate::laws::issue::lemma_issue_consistent;
use crate::laws::rename::lemma_rename_consistent;
use crate::laws::{lemma_cycle_consistent, lemma_reset_consistent};
use crate::search::first_match;
use crate::state::{states_view, SimulatorState, State, EXCEPTION_VECTOR};
use crate::text::{decimal_u64, parse_decimal, strings_view};
use vstd::prelude::*;

verus! {

/// The contents of a list of execution units.
pub open spec fn units_view(v: Seq<Alu>) -> Seq<Unit> {
    v.map_values(|a: Alu| a@)
}

/// A program being simulated.
pub struct Simulator {
    pub program: Vec<String>,
    pub state: SimulatorState,
    pub log: Vec<SimulatorState>,
    pub alus: Vec<Alu>,
}

impl View for Simulator {
    type V = Machine;

    open spec fn view(&self) -> Machine {
        Machine {
            program: strings_view(self.program@),
            state: self.state@,
            alus: units_view(self.alus@),
        }
    }
}

impl SimulatorState {
    /// Undoes the youngest active entry; see [`rollback_one`].
    fn rollback_entry(&mut self)
        requires
            old(self).active_list@.len() > 0,
            old(self).active_list@.last().logical_destination < old(self).register_map_table@.len(),
            old(self).register_map_table@[old(
                self,
            ).active_list@.last().logical_destination as int] < old(self).busy_bit_table@.len(),
        ensures
            final(self)@ == rollback_one(old(self)@),
    {
        let entry = self.active_list.pop_back().unwrap();
        let logical: usize = entry.logical_destination as usize;
        let current: u32 = self.register_map_table[logical];
        self.register_map_table[logical] = entry.old_destination;
        self.free_list.push_back(current);
        self.busy_bit_table[current as usize] = false;
        proof {
            let s = rollback_one(old(self)@);
            assert(self@.active_list =~= s.active_list);
            assert(self@.register_map_table =~= s.register_map_table);
            assert(self@.free_list =~= s.free_list);
            assert(self@.busy_bit_table =~= s.busy_bit_table);
        }
    }

    /// Broadcasts one result; see [`forward`].
    fn forward_result(&mut self, latch: (u32, u64, u64, bool))
        requires
            latch.0 < old(self).physical_register_file@.len(),
            latch.0 < old(self).busy_bit_table@.len(),
        ensures
            final(self)@ == forward(old(self)@, latch),
    {
        let (reg, value, pc, fault) = latch;
        let ghost start = self@;
        let n: usize = self.active_list.len();
        let mut i: usize = 0;
        while i < n && self.active_list[i].pc != pc
            invariant
                i <= n,
                n == self.active_list@.len(),
                *self == *old(self),
                position_of(self.active_list@, pc) == first_match(
                    self.active_list@,
                    has_pc(pc),
                    i as int,
                ),
            decreases n - i,
        {
            i += 1;
        }
        if i < n {
            let entry: ActiveEntry = self.active_list[i];
            let _ = self.active_list.remove(i);
            self.active_list.insert(
                i,
                ActiveEntry {
                    done: true,
                    exception: fault,
                    logical_destination: entry.logical_destination,
                    old_destination: entry.old_destination,
                    pc: entry.pc,
                },
            );
        }
        assert(self.active_list@ =~= forward(start, latch).active_list);
        if !fault {
            self.physical_register_file[reg as usize] = value;
            self.busy_bit_table[reg as usize] = false;
            let m: usize = self.integer_queue.len();
            let ghost queue = self.integer_queue@;
            let mut j: usize = 0;
            while j < m
                invariant
                    j <= m,
                    m == queue.len(),
                    self.integer_queue@.len() == m,
                    self.pc == old(self).pc,
                    self.decoded_pcs == old(self).decoded_pcs,
                    self.exception_pc == old(self).exception_pc,
                    self.exception == old(self).exception,
                    self.register_map_table == old(self).register_map_table,
                    self.free_list == old(self).free_list,
                    self.backpressure == old(self).backpressure,
                    self.active_list@ == forward(start, latch).active_list,
                    self.physical_register_file@ == start.physical_register_file.update(
                        reg as int,
                        value,
                    ),
                    self.busy_bit_table@ == start.busy_bit_table.update(reg as int, false),
                    forall|k: int| 0 <= k < j ==> (#[trigger] self.integer_queue@[k])@ == queue[k]@.woken(reg, value),
                    forall|k: int| j <= k < m ==> #[trigger] self.integer_queue@[k] == queue[k],
                decreases m - j,
            {
                if !self.integer_queue[j].op_a_is_ready && self.integer_queue[j].op_a_reg_tag
                    == reg {
                    self.integer_queue[j].op_a_is_ready = true;
                    self.integer_queue[j].op_a_value = value;
                    self.integer_queue[j].op_a_reg_tag = 0;
                }
                if !self.integer_queue[j].op_b_is_ready && self.integer_queue[j].op_b_reg_tag
                    == reg {
                    self.integer_queue[j].op_b_is_ready = true;
                    self.integer_queue[j].op_b_value = value;
                    self.integer_queue[j].op_b_reg_tag = 0;
                }
                j += 1;
            }
            assert(self@.integer_queue =~= forward(start, latch).integer_queue);
        }
    }

    /// Position in the queue of the ready entry that issue takes next; see
    /// [`oldest_ready`].
    fn oldest_ready_entry(&self) -> (r: Option<usize>)
        ensures
            match r {
                Some(i) => oldest_ready(self@.integer_queue, self@.integer_queue.len() as int)
                    == Some(i as int) && i < self.integer_queue@.len(),
                None => oldest_ready(self@.integer_queue, self@.integer_queue.len() as int)
                    is None,
            },
    {
        let n: usize = self.integer_queue.len();
        let mut best: Option<usize> = None;
        let mut i: usize = 0;
        while i < n
            invariant
                i <= n,
                n == self.integer_queue@.len(),
                match best {
                    Some(b) => oldest_ready(self@.integer_queue, i as int) == Some(b as int) && b
                        < i,
                    None => oldest_ready(self@.integer_queue, i as int) is None,
                },
            decreases n - i,
        {
            let entry = &self.integer_queue[i];
            assert(self@.integer_queue[i as int] == entry@);
            if entry.op_a_is_ready && entry.op_b_is_ready {
                match best {
                    Some(b) => {
                        assert(self@.integer_queue[b as int] == self.integer_queue[b as int]@);
                        if entry.pc < self.integer_queue[b].pc {
                            best = Some(i);
                        }
                    },
                    None => {
                        best = Some(i);
                    },
                }
            }
            i += 1;
        }
        best
    }
}

impl Simulator {
    /// The snapshots logged so far, oldest first.
    pub open spec fn log_view(&self) -> Seq<State> {
        states_view(self.log@)
    }

    /// A simulator at reset, loaded with `program` and with an empty log.
    pub fn new(program: Vec<String>) -> (r: Simulator)
        requires
            program_well_formed(strings_view(program@)),
        ensures
            r@ == Machine::reset(strings_view(program@)),
            r@.well_formed(),
            r@.consistent(),
            r.log_view() == Seq::<State>::empty(),
    {
        proof {
            assert(strings_view(program@).len() == program.len());
            lemma_reset_consistent(strings_view(program@));
        }
        let mut alus: Vec<Alu> = Vec::new();
        alus.push(Alu::new());
        alus.push(Alu::new());
        alus.push(Alu::new());
        alus.push(Alu::new());
        let r = Self { program, state: SimulatorState::default(), log: Vec::new(), alus };
        proof {
            assert(r@.alus =~= Machine::reset(strings_view(program@)).alus);
            assert(r.log_view() =~= Seq::<State>::empty());
        }
        r
    }

    /// Appends a snapshot of the current state to the log.
    pub fn dump_state_into_log(&mut self)
        ensures
            final(self)@ == old(self)@,
            final(self).log_view() == old(self).log_view().push(old(self)@.state),
    {
        let snapshot = self.state.clone();
        self.log.push(snapshot);
        assert(self.log_view() =~= old(self).log_view().push(old(self)@.state));
    }

    /// Whether the simulation has ended; see [`Machine::finished`].
    pub fn done(&self) -> (b: bool)
        ensures
            b == self@.finished(),
    {
        let pipeline_empty = self.state.active_list.len() == 0 && self.state.integer_queue.len()
            == 0 && self.state.decoded_pcs.len() == 0;
        if !pipeline_empty {
            return false;
        }
        if self.state.pc == EXCEPTION_VECTOR {
            !self.state.exception
        } else {
            self.state.pc >= self.program.len() as u64
        }
    }

    /// Empties every execution unit.
    fn reset_units(&mut self)
        ensures
            final(self).program == old(self).program,
            final(self).state == old(self).state,
            final(self).log == old(self).log,
            units_view(final(self).alus@) == Seq::new(
                old(self).alus@.len(),
                |i: int| Unit::idle(),
            ),
    {
        let n: usize = self.alus.len();
        let mut i: usize = 0;
        while i < n
            invariant
                i <= n,
                n == self.alus.len(),
                self.program == old(self).program,
                self.state == old(self).state,
                self.log == old(self).log,
                forall|j: int| 0 <= j < i ==> self.alus[j]@ == Unit::idle(),
            decreases n - i,
        {
            self.alus[i].reset();
            i += 1;
        }
        assert(units_view(self.alus@) =~= Seq::new(old(self).alus@.len(), |i: int| Unit::idle()));
    }

    /// The commit stage; see [`Machine::commit`]. Returns whether the
    /// other stages are skipped in this cycle.
    pub fn commit(&mut self) -> (stall: bool)
        requires
            old(self)@.well_formed(),
        ensures
            (final(self)@, stall) == old(self)@.commit(),
            final(self)@.well_formed(),
            old(self)@.consistent() ==> final(self)@.consistent(),
            final(self).log_view() == old(self).log_view(),
    {
        proof {
            if old(self)@.consistent() {
                lemma_commit_consistent(old(self)@);
            }
        }
        let ghost start = self@;
        if self.state.exception {
            if self.state.active_list.len() == 0 {
                self.state.exception = false;
                return false;
            }
            let mut n: usize = 0;
            while n < 4 && self.state.active_list.len() > 0
                invariant
                    n <= 4,
                    self.program == old(self).program,
                    self.log == old(self).log,
                    self.alus == old(self).alus,
                    self@.well_formed(),
                    rollback(start.state, 4) == rollback(self.state@, (4 - n) as nat),
                decreases 4 - n,
            {
                let ghost before = self@;
                self.state.rollback_entry();
                proof {
                    let s = self.state@;
                    let e = before.state.active_list.last();
                    assert(before.state.active_list[before.state.active_list.len() - 1] == e);
                    assert forall|i: int| 0 <= i < s.active_list.len() implies (
                    #[trigger] s.active_list[i]).logical_destination < 32
                        && s.active_list[i].old_destination < 64 by {
                        assert(s.active_list[i] == before.state.active_list[i]);
                    }
                    assert forall|i: int| 0 <= i < s.free_list.len() implies #[trigger] s.free_list[i]
                        < 64 by {
                        if i < before.state.free_list.len() {
                            assert(s.free_list[i] == before.state.free_list[i]);
                        }
                    }
                }
                n += 1;
            }
            return true;
        }
        let mut n: usize = 0;
        let mut stopped = false;
        assert(retire(start.state, 0).active_list =~= start.state.active_list);
        assert(retire(start.state, 0).free_list =~= start.state.free_list);
        while !stopped && n < 4
            invariant
                n <= 4,
                n <= start.state.active_list.len(),
                self.program == old(self).program,
                self.log == old(self).log,
                self.alus == old(self).alus,
                start == old(self)@,
                start.well_formed(),
                !start.state.exception,
                start.consistent() ==> start.commit().0.consistent(),
                self.state@ == retire(start.state, n as int),
                retire_count(start.state.active_list, 4) == n + retire_count(
                    self.state@.active_list,
                    (4 - n) as nat,
                ),
                stopped ==> retire_count(self.state@.active_list, (4 - n) as nat) == 0 && !(n
                    < start.state.active_list.len() && start.state.active_list[n as int].done),
            decreases 4 - n + if stopped { 0int } else { 1int },
        {
            if self.state.active_list.len() == 0 {
                stopped = true;
            } else {
                let head: ActiveEntry = self.state.active_list[0];
                assert(head == start.state.active_list[n as int]);
                if !head.done {
                    stopped = true;
                } else if head.exception {
                    self.state.exception_pc = head.pc;
                    self.state.pc = EXCEPTION_VECTOR;
                    self.state.decoded_pcs.clear();
                    self.state.integer_queue.clear();
                    self.reset_units();
                    self.state.exception = true;
                    proof {
                        let m = start.commit().0;
                        assert(self@.state.decoded =~= m.state.decoded);
                        assert(self@.state.integer_queue =~= m.state.integer_queue);
                        assert(self@.alus =~= m.alus);
                        assert(self@.state == m.state);
                        assert(self@ == m);
                        lemma_retire_well_formed(start, n as int);
                    }
                    return true;
                } else {
                    let ghost before = self.state@;
                    let _ = self.state.active_list.pop_front();
                    self.state.free_list.push_back(head.old_destination);
                    proof {
                        let a = start.state.active_list;
                        assert(before.active_list.drop_first() =~= a.skip(n + 1));
                        assert(self.state@.active_list =~= a.skip(n + 1));
                        assert(a.take(n + 1).map_values(|e: ActiveEntry| e.old_destination)
                            =~= a.take(n as int).map_values(
                            |e: ActiveEntry| e.old_destination,
                        ).push(head.old_destination));
                        assert(self.state@.free_list =~= retire(start.state, n + 1).free_list);
                    }
                    n += 1;
                }
            }
        }
        proof {
            lemma_retire_well_formed(start, n as int);
        }
        false
    }

    /// What rename reads for the source operand `src`; see
    /// [`operand_state`].
    pub fn get_operand_state(&self, src: &str, is_imm: bool) -> (r: (bool, u32, u64))
        requires
            self@.well_formed(),
            if is_imm {
                decimal_u64(src@) is Some
            } else {
                register_index(src@) is Some
            },
        ensures
            r == operand_state(self@.state, src@, is_imm),
    {
        if is_imm {
            return (true, 0, parse_decimal(src).unwrap());
        }
        let arch_reg: usize = parse_register(src).unwrap() as usize;
        let phys_reg: u32 = self.state.register_map_table[arch_reg];
        assert(phys_reg == self@.state.register_map_table[arch_reg as int]);
        if self.state.busy_bit_table[phys_reg as usize] {
            (false, phys_reg, 0)
        } else {
            (true, 0, self.state.physical_register_file[phys_reg as usize])
        }
    }

    /// The rename stage; see [`Machine::rename`].
    pub fn rename_and_dispatch(&mut self)
        requires
            old(self)@.well_formed(),
        ensures
            final(self)@ == old(self)@.rename(),
            final(self)@.well_formed(),
            old(self)@.consistent() ==> final(self)@.consistent(),
            final(self).log_view() == old(self).log_view(),
    {
        proof {
            if old(self)@.consistent() {
                lemma_rename_consistent(old(self)@);
            }
        }
        let num_instr: usize = self.state.decoded_pcs.len();
        let queued: usize = self.state.integer_queue.len();
        let active: usize = self.state.active_list.len();
        let stall = queued > 32 || num_instr > 32 - queued || active > 32 || num_instr > 32
            - active || self.state.free_list.len() < num_instr;
        self.state.backpressure = stall;
        if stall || num_instr == 0 {
            return;
        }
        let ghost flagged = self.state@;
        assert(flagged == State { backpressure: stall, ..old(self)@.state });
        let mut decoded: Vec<DecodedInstructionEntry> = Vec::new();
        std::mem::swap(&mut decoded, &mut self.state.decoded_pcs);
        let mut i: usize = 0;
        proof {
            assert(decoded_view(decoded@).skip(0) =~= flagged.decoded);
            assert(self.state@.decoded =~= Seq::<DecodedInstruction>::empty());
            assert forall|j: int| 0 <= j < decoded.len() implies (
            #[trigger] decoded[j])@.well_formed() by {
                assert(old(self)@.state.decoded[j] == decoded[j]@);
            }
            assert(self@ == Machine {
                state: State { decoded: Seq::empty(), ..flagged },
                ..old(self)@
            });
        }
        while i < num_instr
            invariant
                i <= num_instr,
                num_instr == decoded.len(),
                self.program == old(self).program,
                self.log == old(self).log,
                self.alus == old(self).alus,
                decoded_view(decoded@) == flagged.decoded,
                forall|j: int| 0 <= j < decoded.len() ==> (#[trigger] decoded[j])@.well_formed(),
                self@.well_formed(),
                self.state.decoded_pcs@.len() == 0,
                self.state.free_list@.len() >= num_instr - i,
                (State { decoded: flagged.decoded.skip(i as int), ..self.state@ }) == rename_n(
                    flagged,
                    i as nat,
                ),
            decreases num_instr - i,
        {
            let ghost before = State { decoded: flagged.decoded.skip(i as int), ..self.state@ };
            let ghost d = decoded[i as int]@;
            proof {
                assert(before.decoded[0] == d);
                assert(decoded[i as int]@.well_formed());
            }
            let instr = &decoded[i];
            let (op_a_is_ready, op_a_reg_tag, op_a_value) = self.get_operand_state(
                instr.src1.as_str(),
                false,
            );
            let (op_b_is_ready, op_b_reg_tag, op_b_value) = self.get_operand_state(
                instr.src2.as_str(),
                instr.is_imm,
            );
            let arch_dest: u32 = parse_register(instr.dest.as_str()).unwrap();
            let old_phys_dest: u32 = self.state.register_map_table[arch_dest as usize];
            let new_phys_dest: u32 = self.state.free_list.pop_front().unwrap();
            self.state.register_map_table[arch_dest as usize] = new_phys_dest;
            self.state.busy_bit_table[new_phys_dest as usize] = true;
            self.state.active_list.push_back(
                ActiveEntry {
                    done: false,
                    exception: false,
                    logical_destination: arch_dest,
                    old_destination: old_phys_dest,
                    pc: instr.pc,
                },
            );
            self.state.integer_queue.push(
                IntegerQueueEntry {
                    dest_register: new_phys_dest,
                    op_a_is_ready,
                    op_a_reg_tag,
                    op_a_value,
                    op_b_is_ready,
                    op_b_reg_tag,
                    op_b_value,
                    op_code: instr.op.clone(),
                    pc: instr.pc,
                },
            );
            proof {
                let after = State { decoded: flagged.decoded.skip(i + 1), ..self.state@ };
                let want = rename_one(before);
                assert(before.free_list[0] == new_phys_dest);
                assert(after.decoded =~= want.decoded);
                assert(after.register_map_table =~= want.register_map_table);
                assert(after.free_list =~= want.free_list);
                assert(after.busy_bit_table =~= want.busy_bit_table);
                assert(after.active_list =~= want.active_list);
                assert(after.integer_queue =~= want.integer_queue);
                assert(after.physical_register_file =~= want.physical_register_file);
                assert(after == want);
                assert(self.state@.decoded =~= Seq::<DecodedInstruction>::empty());
                let s = self.state@;
                assert forall|k: int| 0 <= k < s.free_list.len() implies #[trigger] s.free_list[k]
                    < 64 by {
                    assert(s.free_list[k] == before.free_list[k + 1]);
                }
                assert forall|k: int| 0 <= k < s.active_list.len() implies (
                #[trigger] s.active_list[k]).logical_destination < 32
                    && s.active_list[k].old_destination < 64 by {
                    if k < before.active_list.len() {
                        assert(s.active_list[k] == before.active_list[k]);
                    }
                }
                assert forall|k: int| 0 <= k < s.integer_queue.len() implies (
                #[trigger] s.integer_queue[k]).dest_register < 64 && opcode_of(
                    s.integer_queue[k].op_code,
                ) is Some by {
                    if k < before.integer_queue.len() {
                        assert(s.integer_queue[k] == before.integer_queue[k]);
                    }
                }
            }
            i += 1;
        }
        proof {
            assert(flagged.decoded.skip(num_instr as int) =~= Seq::<DecodedInstruction>::empty());
            assert(self.state@.decoded =~= flagged.decoded.skip(num_instr as int));
            assert(self.state@ == State {
                decoded: flagged.decoded.skip(num_instr as int),
                ..self.state@
            });
        }
    }

    /// The fetch stage; see [`Machine::fetch`].
    pub fn fetch_and_decode(&mut self)
        requires
            old(self)@.well_formed(),
        ensures
            final(self)@ == old(self)@.fetch(),
            final(self)@.well_formed(),
            old(self)@.consistent() ==> final(self)@.consistent(),
            final(self).log_view() == old(self).log_view(),
    {
        proof {
            if old(self)@.consistent() {
                lemma_fetch_consistent(old(self)@);
            }
        }
        if self.state.backpressure || self.state.exception {
            return;
        }
        let ghost start = self@;
        let mut k: usize = 0;
        proof {
            assert(start.state.decoded + decoded_range(
                start.program,
                start.state.pc as int,
                start.state.pc as int,
            ) =~= start.state.decoded);
        }
        while k < 4 && self.state.pc < self.program.len() as u64
            invariant
                k <= 4,
                start == old(self)@,
                self.program == old(self).program,
                self.log == old(self).log,
                self.alus == old(self).alus,
                self@.well_formed(),
                self.state.pc == start.state.pc + k,
                k <= start.fetch_count(),
                k < 4 && self.state.pc >= self.program.len() ==> k == start.fetch_count(),
                self@.state == (State {
                    pc: self.state.pc,
                    decoded: start.state.decoded + decoded_range(
                        start.program,
                        start.state.pc as int,
                        start.state.pc + k,
                    ),
                    ..start.state
                }),
            decreases 4 - k,
        {
            let pc: u64 = self.state.pc;
            let ghost before = self.state@.decoded;
            let ghost prev = self@;
            proof {
                assert(strings_view(self.program@)[pc as int] == self.program[pc as int]@);
            }
            match decode_line(self.program[pc as usize].as_str(), pc) {
                Some(d) => {
                    proof {
                        let line = self.program[pc as int]@;
                        assert(decode(line, 0) is Some);
                        assert(decode(line, 0)->0.well_formed());
                        assert(d@.well_formed());
                    }
                    self.state.decoded_pcs.push(d);
                    proof {
                        let s = self.state@;
                        assert(s.decoded =~= before.push(d@));
                        assert forall|j: int| 0 <= j < s.decoded.len() implies (
                        #[trigger] s.decoded[j]).well_formed() by {
                            if j < before.len() {
                                assert(s.decoded[j] == before[j]);
                            }
                        }
                    }
                },
                None => {},
            }
            self.state.pc = pc + 1;
            k += 1;
            proof {
                assert(self.state@.decoded =~= start.state.decoded + decoded_range(
                    start.program,
                    start.state.pc as int,
                    start.state.pc + k,
                ));
                assert(self@ == Machine {
                    state: State { pc: self.state.pc, decoded: self.state@.decoded, ..prev.state },
                    ..prev
                });
            }
        }
    }

    /// The execute stage; see [`Machine::execute`].
    pub fn execute(&mut self)
        requires
            old(self)@.well_formed(),
        ensures
            final(self)@ == old(self)@.execute(),
            final(self)@.well_formed(),
            old(self)@.consistent() ==> final(self)@.consistent(),
            final(self).log_view() == old(self).log_view(),
    {
        proof {
            if old(self)@.consistent() {
                lemma_execute_consistent(old(self)@);
            }
        }
        let ghost start = self@;
        let ghost stepped = start.alus.map_values(|u: Unit| u.step());
        let n: usize = self.alus.len();
        let mut i: usize = 0;
        while i < n
            invariant
                i <= n,
                n == self.alus.len(),
                n == start.alus.len(),
                self.program == old(self).program,
                self.log == old(self).log,
                self.state == old(self).state,
                start == old(self)@,
                start.well_formed(),
                forall|j: int| 0 <= j < i ==> (#[trigger] self.alus[j])@ == start.alus[j].step(),
                forall|j: int| i <= j < n ==> (#[trigger] self.alus[j])@ == start.alus[j],
            decreases n - i,
        {
            assert(unit_well_formed(start.alus[i as int]));
            self.alus[i].execute();
            i += 1;
        }
        assert(units_view(self.alus@) =~= stepped);
        assert forall|u: int| 0 <= u < stepped.len() implies unit_well_formed(
            #[trigger] stepped[u],
        ) by {
            assert(unit_well_formed(start.alus[u]));
        }
        assert(self@ == Machine { alus: stepped, ..start });
        let mut i: usize = 0;
        while i < n
            invariant
                i <= n,
                n == self.alus.len(),
                self.program == old(self).program,
                self.log == old(self).log,
                units_view(self.alus@) == stepped,
                stepped == start.alus.map_values(|u: Unit| u.step()),
                start == old(self)@,
                start.well_formed(),
                self@.well_formed(),
                self.state@ == forward_units(start.state, stepped, i as int),
            decreases n - i,
        {
            assert(self.alus[i as int]@ == stepped[i as int]);
            assert(unit_well_formed(start.alus[i as int]));
            let ghost prev = self@;
            match self.alus[i].forwarding {
                Some(latch) => {
                    self.state.forward_result(latch);
                    proof {
                        lemma_forward_well_formed(prev, latch);
                    }
                },
                None => {},
            }
            i += 1;
        }
    }

    /// The issue stage; see [`Machine::issue`].
    pub fn issue(&mut self)
        requires
            old(self)@.well_formed(),
        ensures
            final(self)@ == old(self)@.issue(),
            final(self)@.well_formed(),
            old(self)@.consistent() ==> final(self)@.consistent(),
            final(self).log_view() == old(self).log_view(),
    {
        proof {
            if old(self)@.consistent() {
                lemma_issue_consistent(old(self)@);
            }
        }
        let ghost start = self@;
        let n: usize = self.alus.len();
        let mut u: usize = 0;
        while u < n
            invariant
                u <= n,
                n == self.alus.len(),
                self.program == old(self).program,
                self.log == old(self).log,
                start == old(self)@,
                self@.well_formed(),
                self@.state == (State { integer_queue: self@.state.integer_queue, ..start.state }),
                (self@.state.integer_queue, self@.alus) == issue_units(
                    start.state.integer_queue,
                    start.alus,
                    u as int,
                ),
            decreases n - u,
        {
            let ghost prev = self@;
            assert(self.alus[u as int]@ == prev.alus[u as int]);
            if self.alus[u].is_free() {
                match self.state.oldest_ready_entry() {
                    Some(i) => {
                        let instr = self.state.integer_queue.remove(i);
                        assert(instr@ == prev.state.integer_queue[i as int]);
                        self.alus[u].push_instr(instr);
                        proof {
                            let q = prev.state.integer_queue.remove(i as int);
                            let a = prev.alus.update(
                                u as int,
                                Unit { in_flight: Some(instr@), ..prev.alus[u as int] },
                            );
                            assert(self@.state.integer_queue =~= q);
                            assert(self@.alus =~= a);
                            assert(self@ == Machine {
                                state: State { integer_queue: q, ..prev.state },
                                alus: a,
                                ..prev
                            });
                            assert(unit_well_formed(prev.alus[u as int]));
                            assert forall|k: int| 0 <= k < q.len() implies (#[trigger] q[k]).dest_register
                                < 64 && opcode_of(q[k].op_code) is Some by {
                                if k < i {
                                    assert(q[k] == prev.state.integer_queue[k]);
                                } else {
                                    assert(q[k] == prev.state.integer_queue[k + 1]);
                                }
                            }
                            assert forall|k: int| 0 <= k < a.len() implies unit_well_formed(
                                #[trigger] a[k],
                            ) by {
                                if k != u {
                                    assert(a[k] == prev.alus[k]);
                                }
                            }
                        }
                    },
                    None => {},
                }
            }
            u += 1;
        }
    }

    /// One cycle of the pipeline; see [`Machine::cycle`].
    pub fn simulate_cycle(&mut self)
        requires
            old(self)@.well_formed(),
        ensures
            final(self)@ == old(self)@.cycle(),
            final(self)@.well_formed(),
            old(self)@.consistent() ==> final(self)@.consistent(),
            final(self).log_view() == old(self).log_view(),
    {
        proof {
            if old(self)@.consistent() {
                lemma_cycle_consistent(old(self)@);
            }
        }
        let pipeline_stalled = self.commit();
        if !pipeline_stalled {
            self.execute();
            self.issue();
            self.rename_and_dispatch();
            self.fetch_and_decode();
        }
    }
}

} // verus!
