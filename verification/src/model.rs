//! The pipeline as a mathematical state machine: what each stage, and a
//! whole cycle, makes of a machine.

use crate::alu::{Latch, Unit};
use crate::entries::{ActiveEntry, QueueEntry};
use crate::instruction::{
    decode, opcode_of, program_well_formed, register_index, DecodedInstruction, ARCH_REGISTERS,
};
use crate::search::first_match;
use crate::state::{State, CAPACITY, EXCEPTION_VECTOR, PHYSICAL_REGISTERS};
use crate::text::decimal_u64;
use vstd::prelude::*;

verus! {

/// Number of execution units, and of instructions that fetch and commit
/// handle per cycle.
pub const WIDTH: usize = 4;

/// A program, the state of the pipeline, and its execution units.
pub ghost struct Machine {
    pub program: Seq<Seq<char>>,
    pub state: State,
    pub alus: Seq<Unit>,
}

/// How many entries at the head of `active` retire in one cycle: the
/// leading entries that are done and did not fault, `limit` at most.
pub open spec fn retire_count(active: Seq<ActiveEntry>, limit: nat) -> nat
    decreases limit,
{
    if limit == 0 || active.len() == 0 || !active[0].done || active[0].exception {
        0
    } else {
        1 + retire_count(active.drop_first(), (limit - 1) as nat)
    }
}

/// The state after its `k` oldest active entries retired: they leave the
/// active list, and the registers that their destinations were mapped to
/// before join the free list in the same order.
pub open spec fn retire(s: State, k: int) -> State {
    State {
        free_list: s.free_list + s.active_list.take(k).map_values(
            |e: ActiveEntry| e.old_destination,
        ),
        active_list: s.active_list.skip(k),
        ..s
    }
}

/// The state with its youngest active entry undone: the entry leaves the
/// active list, its architectural register is mapped back to the register
/// it had before, and the register it had since is free and not busy.
pub open spec fn rollback_one(s: State) -> State {
    let e = s.active_list.last();
    let current = s.register_map_table[e.logical_destination as int];
    State {
        register_map_table: s.register_map_table.update(
            e.logical_destination as int,
            e.old_destination,
        ),
        free_list: s.free_list.push(current),
        busy_bit_table: s.busy_bit_table.update(current as int, false),
        active_list: s.active_list.drop_last(),
        ..s
    }
}

/// The state with its `n` youngest active entries undone, youngest first;
/// all of them where there are fewer.
pub open spec fn rollback(s: State, n: nat) -> State
    decreases n,
{
    if n == 0 || s.active_list.len() == 0 {
        s
    } else {
        rollback(rollback_one(s), (n - 1) as nat)
    }
}

/// The active entries of the instruction at `pc`.
pub open spec fn has_pc(pc: u64) -> spec_fn(ActiveEntry) -> bool {
    |e: ActiveEntry| e.pc == pc
}

/// Position of the first entry of `active` whose program counter is `pc`;
/// the length of `active` where there is none.
pub open spec fn position_of(active: Seq<ActiveEntry>, pc: u64) -> int {
    first_match(active, has_pc(pc), 0)
}

/// The active list after the instruction at `pc` completed: its entry, if
/// there is one, is done and records whether the instruction faulted.
pub open spec fn completed(active: Seq<ActiveEntry>, pc: u64, fault: bool) -> Seq<ActiveEntry> {
    let i = position_of(active, pc);
    if i < active.len() {
        active.update(i, ActiveEntry { done: true, exception: fault, ..active[i] })
    } else {
        active
    }
}

/// The state after one result was broadcast. The producing instruction is
/// completed. Unless it faulted, its value is written to the physical
/// register, the register is no longer busy, and every queued operand that
/// waited for it is ready.
pub open spec fn forward(s: State, latch: Latch) -> State {
    let (reg, value, pc, fault) = latch;
    let active_list = completed(s.active_list, pc, fault);
    if fault {
        State { active_list, ..s }
    } else {
        State {
            active_list,
            physical_register_file: s.physical_register_file.update(reg as int, value),
            busy_bit_table: s.busy_bit_table.update(reg as int, false),
            integer_queue: s.integer_queue.map_values(|q: QueueEntry| q.woken(reg, value)),
            ..s
        }
    }
}

/// The state after the forwarding latches of the first `n` units were
/// broadcast, in unit order.
pub open spec fn forward_units(s: State, alus: Seq<Unit>, n: int) -> State
    decreases n,
{
    if n <= 0 {
        s
    } else {
        let before = forward_units(s, alus, n - 1);
        match alus[n - 1].forwarding {
            Some(latch) => forward(before, latch),
            None => before,
        }
    }
}

/// Among the first `n` entries of `queue`, the position of the ready entry
/// with the smallest program counter, the earliest of them where several
/// share it; `None` where no entry is ready.
pub open spec fn oldest_ready(queue: Seq<QueueEntry>, n: int) -> Option<int>
    decreases n,
{
    if n <= 0 {
        None
    } else {
        let before = oldest_ready(queue, n - 1);
        if queue[n - 1].ready() && (before is None || queue[n - 1].pc < queue[before->0].pc) {
            Some(n - 1)
        } else {
            before
        }
    }
}

/// Queue and units after issue has considered the first `n` units in unit
/// order: each free unit takes the oldest ready instruction that is left.
pub open spec fn issue_units(queue: Seq<QueueEntry>, alus: Seq<Unit>, n: int) -> (
    Seq<QueueEntry>,
    Seq<Unit>,
)
    decreases n,
{
    if n <= 0 {
        (queue, alus)
    } else {
        let (q, a) = issue_units(queue, alus, n - 1);
        match oldest_ready(q, q.len() as int) {
            Some(i) => if a[n - 1].is_free() {
                (q.remove(i), a.update(n - 1, Unit { in_flight: Some(q[i]), ..a[n - 1] }))
            } else {
                (q, a)
            },
            None => (q, a),
        }
    }
}

/// What rename reads for a source operand: whether it is ready, the tag of
/// the physical register it waits for, and its value. An immediate is ready
/// with its own value. A register operand is read through the map table: it
/// waits for its physical register where that is busy, and is ready with
/// the register's value otherwise.
pub open spec fn operand_state(s: State, token: Seq<char>, is_imm: bool) -> (bool, u32, u64) {
    if is_imm {
        (true, 0, decimal_u64(token)->0)
    } else {
        let phys = s.register_map_table[register_index(token)->0 as int];
        if s.busy_bit_table[phys as int] {
            (false, phys, 0)
        } else {
            (true, 0, s.physical_register_file[phys as int])
        }
    }
}

/// The state after the oldest decoded instruction was renamed: its
/// operands are read, the head of the free list becomes the busy new
/// mapping of its destination, and an active entry and a queue entry are
/// appended for it.
pub open spec fn rename_one(s: State) -> State {
    let d = s.decoded[0];
    let a = operand_state(s, d.src1, false);
    let b = operand_state(s, d.src2, d.is_imm);
    let logical = register_index(d.dest)->0 as u32;
    let fresh = s.free_list[0];
    State {
        decoded: s.decoded.drop_first(),
        register_map_table: s.register_map_table.update(logical as int, fresh),
        free_list: s.free_list.drop_first(),
        busy_bit_table: s.busy_bit_table.update(fresh as int, true),
        active_list: s.active_list.push(
            ActiveEntry {
                done: false,
                exception: false,
                logical_destination: logical,
                old_destination: s.register_map_table[logical as int],
                pc: d.pc,
            },
        ),
        integer_queue: s.integer_queue.push(
            QueueEntry {
                dest_register: fresh,
                op_a_is_ready: a.0,
                op_a_reg_tag: a.1,
                op_a_value: a.2,
                op_b_is_ready: b.0,
                op_b_reg_tag: b.1,
                op_b_value: b.2,
                op_code: d.op,
                pc: d.pc,
            },
        ),
        ..s
    }
}

/// The state after the `n` oldest decoded instructions were renamed, in
/// fetch order.
pub open spec fn rename_n(s: State, n: nat) -> State
    decreases n,
{
    if n == 0 {
        s
    } else {
        rename_one(rename_n(s, (n - 1) as nat))
    }
}

/// Whether rename must refuse the decoded group: the issue queue or the
/// active list would exceed its capacity, or the free list is too short.
pub open spec fn must_stall(s: State) -> bool {
    let n = s.decoded.len();
    s.integer_queue.len() + n > CAPACITY || s.active_list.len() + n > CAPACITY
        || s.free_list.len() < n
}

/// The instructions that the program lines at positions `lo` up to `hi`
/// decode to, in program order; lines that decode to nothing are skipped.
pub open spec fn decoded_range(program: Seq<Seq<char>>, lo: int, hi: int) -> Seq<
    DecodedInstruction,
>
    decreases hi - lo,
{
    if hi <= lo {
        Seq::empty()
    } else {
        let before = decoded_range(program, lo, hi - 1);
        match decode(program[hi - 1], (hi - 1) as u64) {
            Some(d) => before.push(d),
            None => before,
        }
    }
}

impl Machine {
    /// The machine after reset, loaded with `program`.
    pub open spec fn reset(program: Seq<Seq<char>>) -> Machine {
        Machine { program, state: State::reset(), alus: Seq::new(WIDTH as nat, |i: int| Unit::idle()) }
    }

    /// The tables have their fixed sizes, every register number is in
    /// range, and every instruction in the program and in the pipeline can
    /// be processed. The stages need no more than this to run.
    pub open spec fn well_formed(self) -> bool {
        let s = self.state;
        &&& self.program.len() <= u64::MAX
        &&& program_well_formed(self.program)
        &&& s.physical_register_file.len() == PHYSICAL_REGISTERS
        &&& s.busy_bit_table.len() == PHYSICAL_REGISTERS
        &&& s.register_map_table.len() == ARCH_REGISTERS
        &&& self.alus.len() == WIDTH
        &&& forall|i: int|
            0 <= i < s.register_map_table.len() ==> #[trigger] s.register_map_table[i]
                < PHYSICAL_REGISTERS
        &&& forall|i: int| 0 <= i < s.free_list.len() ==> #[trigger] s.free_list[i] < PHYSICAL_REGISTERS
        &&& forall|i: int|
            0 <= i < s.active_list.len() ==> (#[trigger] s.active_list[i]).logical_destination
                < ARCH_REGISTERS && s.active_list[i].old_destination < PHYSICAL_REGISTERS
        &&& forall|i: int|
            0 <= i < s.integer_queue.len() ==> (#[trigger] s.integer_queue[i]).dest_register
                < PHYSICAL_REGISTERS && opcode_of(s.integer_queue[i].op_code) is Some
        &&& forall|i: int| 0 <= i < s.decoded.len() ==> (#[trigger] s.decoded[i]).well_formed()
        &&& forall|u: int| 0 <= u < self.alus.len() ==> unit_well_formed(#[trigger] self.alus[u])
    }

    /// The machine after the commit stage, and whether the other stages
    /// are skipped in this cycle.
    ///
    /// While the pipeline unwinds, up to four of the youngest active
    /// entries are undone and the cycle stalls; once none is left, the
    /// exception flag is cleared without a stall. Otherwise up to four
    /// entries retire from the head, each freeing the register that its
    /// destination was mapped to before. If the entry then at the head, one
    /// of the four examined, is done and faulted, the pipeline traps: the
    /// entry stays, its program counter is recorded, the program counter
    /// moves to the exception vector, the decoded buffer, the issue queue
    /// and the units are emptied, and the cycle stalls.
    pub open spec fn commit(self) -> (Machine, bool) {
        let s = self.state;
        if s.exception {
            if s.active_list.len() == 0 {
                (Machine { state: State { exception: false, ..s }, ..self }, false)
            } else {
                (Machine { state: rollback(s, WIDTH as nat), ..self }, true)
            }
        } else {
            let k = retire_count(s.active_list, WIDTH as nat) as int;
            let retired = Machine { state: retire(s, k), ..self };
            if k < WIDTH && k < s.active_list.len() && s.active_list[k].done {
                (retired.trap(), true)
            } else {
                (retired, false)
            }
        }
    }

    /// The machine after it trapped on the entry at the head of its active
    /// list: the entry's program counter is recorded, the program counter
    /// moves to the exception vector, the decoded buffer, the issue queue
    /// and every unit are emptied, and the exception flag is set. The
    /// active list is left as it is.
    pub open spec fn trap(self) -> Machine {
        Machine {
            state: State {
                exception_pc: self.state.active_list[0].pc,
                pc: EXCEPTION_VECTOR,
                decoded: Seq::empty(),
                integer_queue: Seq::empty(),
                exception: true,
                ..self.state
            },
            alus: Seq::new(self.alus.len(), |i: int| Unit::idle()),
            ..self
        }
    }

    /// The machine after the execute stage: every unit steps, then the
    /// forwarding latches are broadcast in unit order.
    pub open spec fn execute(self) -> Machine {
        let alus = self.alus.map_values(|u: Unit| u.step());
        Machine { state: forward_units(self.state, alus, alus.len() as int), alus, ..self }
    }

    /// The machine after the issue stage: the free units, in unit order,
    /// take the ready instructions of the queue, oldest first.
    pub open spec fn issue(self) -> Machine {
        let (queue, alus) = issue_units(self.state.integer_queue, self.alus, self.alus.len() as int);
        Machine { state: State { integer_queue: queue, ..self.state }, alus, ..self }
    }

    /// The machine after the rename stage. The backpressure flag is set to
    /// whether the decoded group is refused; a refused group stays in the
    /// decoded buffer, and an accepted group is renamed in fetch order.
    pub open spec fn rename(self) -> Machine {
        let s = self.state;
        let stall = must_stall(s);
        let flagged = State { backpressure: stall, ..s };
        Machine {
            state: if stall {
                flagged
            } else {
                rename_n(flagged, s.decoded.len())
            },
            ..self
        }
    }

    /// How many program lines the fetch stage reads: four, or as many as
    /// are left.
    pub open spec fn fetch_count(self) -> nat {
        if self.state.pc >= self.program.len() {
            0
        } else if self.program.len() - self.state.pc < WIDTH {
            (self.program.len() - self.state.pc) as nat
        } else {
            WIDTH as nat
        }
    }

    /// The machine after the fetch stage. Under backpressure or while the
    /// pipeline unwinds nothing is fetched. Otherwise the next lines are
    /// read, the program counter moves past them, and what they decode to
    /// is appended to the decoded buffer.
    pub open spec fn fetch(self) -> Machine {
        let s = self.state;
        if s.backpressure || s.exception {
            self
        } else {
            let n = self.fetch_count();
            Machine {
                state: State {
                    pc: (s.pc + n) as u64,
                    decoded: s.decoded + decoded_range(self.program, s.pc as int, s.pc + n),
                    ..s
                },
                ..self
            }
        }
    }

    /// The machine after one cycle: commit, and unless it stalls, execute,
    /// issue, rename and fetch, in this order.
    pub open spec fn cycle(self) -> Machine {
        let (m, stall) = self.commit();
        if stall {
            m
        } else {
            m.execute().issue().rename().fetch()
        }
    }

    /// Whether the simulation has ended: nothing is in the pipeline, and
    /// either the program counter is at the exception vector with the
    /// exception flag cleared, or it is elsewhere and past the program.
    pub open spec fn finished(self) -> bool {
        let s = self.state;
        &&& s.active_list.len() == 0
        &&& s.integer_queue.len() == 0
        &&& s.decoded.len() == 0
        &&& if s.pc == EXCEPTION_VECTOR {
            !s.exception
        } else {
            s.pc >= self.program.len()
        }
    }
}

/// A unit whose register numbers are in range and whose bound instruction
/// has a known mnemonic.
pub open spec fn unit_well_formed(u: Unit) -> bool {
    &&& u.can_step()
    &&& u.in_flight matches Some(i) ==> i.dest_register < PHYSICAL_REGISTERS
    &&& u.stage1 matches Some(l) ==> l.0 < PHYSICAL_REGISTERS
}

} // verus!
