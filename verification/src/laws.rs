//! What holds of the pipeline after every cycle, and the proofs that every
//! stage keeps it so.

pub mod commit;
pub mod execute;
pub mod fetch;
pub mod issue;
pub mod rename;

use crate::alu::Unit;
use crate::consistency::{current_destination, pending};
use crate::entries::ActiveEntry;
use crate::instruction::program_well_formed;
use crate::laws::commit::{lemma_commit_consistent, lemma_drained_accounted};
use crate::laws::execute::lemma_execute_consistent;
use crate::laws::fetch::lemma_fetch_consistent;
use crate::laws::issue::lemma_issue_consistent;
use crate::laws::rename::lemma_rename_consistent;
use crate::model::Machine;
use crate::state::{State, EXCEPTION_VECTOR};
use vstd::prelude::*;
use vstd::set_lib::{lemma_int_range, lemma_subset_equality, set_int_range};

verus! {

/// The machine after `cycles` cycles on `program`, starting from reset.
pub open spec fn run(program: Seq<Seq<char>>, cycles: nat) -> Machine
    decreases cycles,
{
    if cycles == 0 {
        Machine::reset(program)
    } else {
        run(program, (cycles - 1) as nat).cycle()
    }
}

/// The register numbers that the free list, the map table and the old
/// destinations of the active list hold, in this order.
pub open spec fn held_registers(s: State) -> Seq<int> {
    s.free_list.map_values(|r: u32| r as int) + s.register_map_table.map_values(|r: u32| r as int)
        + s.active_list.map_values(|e: ActiveEntry| e.old_destination as int)
}

/// The machine at reset is consistent.
pub proof fn lemma_reset_consistent(program: Seq<Seq<char>>)
    requires
        program_well_formed(program),
        program.len() <= u64::MAX,
    ensures
        Machine::reset(program).consistent(),
{
    let m = Machine::reset(program);
    let s = m.state;
    assert forall|u: int| 0 <= u < m.alus.len() implies #[trigger] m.alus[u] == Unit::idle() by {}
    assert(m.well_formed());
    assert(m.registers_partitioned()) by {
        reveal(Machine::registers_partitioned);
    }
    assert(m.busy_bits_exact()) by {
        reveal(Machine::busy_bits_exact);
    }
    lemma_drained_accounted(m, m.alus.len() as int);
}

/// One cycle keeps the pipeline consistent.
pub proof fn lemma_cycle_consistent(m: Machine)
    requires
        m.consistent(),
    ensures
        m.cycle().consistent(),
{
    lemma_commit_consistent(m);
    let (c, stall) = m.commit();
    if !stall {
        lemma_execute_consistent(c);
        lemma_issue_consistent(c.execute());
        lemma_rename_consistent(c.execute().issue());
        lemma_fetch_consistent(c.execute().issue().rename());
    }
}

/// After any number of cycles on a well-formed program the pipeline is
/// consistent.
pub proof fn law_always_consistent(program: Seq<Seq<char>>, cycles: nat)
    requires
        program_well_formed(program),
        program.len() <= u64::MAX,
    ensures
        run(program, cycles).consistent(),
    decreases cycles,
{
    if cycles == 0 {
        lemma_reset_consistent(program);
    } else {
        law_always_consistent(program, (cycles - 1) as nat);
        lemma_cycle_consistent(run(program, (cycles - 1) as nat));
    }
}

/// In a consistent pipeline the free list, the map table and the old
/// destinations of the active list together hold each of the 64 physical
/// registers exactly once.
pub proof fn law_registers_partitioned(m: Machine)
    requires
        m.consistent(),
    ensures
        held_registers(m.state).len() == 64,
        held_registers(m.state).no_duplicates(),
        forall|p: int| 0 <= p < 64 ==> held_registers(m.state).contains(p),
{
    reveal(Machine::registers_partitioned);
    let s = m.state;
    let h = held_registers(s);
    let f = s.free_list.len() as int;
    assert forall|k: int| 0 <= k < h.len() implies #[trigger] h[k] == if k < f {
        s.free_list[k] as int
    } else if k < f + 32 {
        s.register_map_table[k - f] as int
    } else {
        s.active_list[k - f - 32].old_destination as int
    } by {}
    assert forall|i: int, j: int| 0 <= i < j < h.len() implies h[i] != h[j] by {
        if j < f {
            assert(s.free_list[i] != s.free_list[j]);
        } else if j < f + 32 {
            if i < f {
                assert(s.free_list[i] != s.register_map_table[j - f]);
            } else {
                assert(s.register_map_table[i - f] != s.register_map_table[j - f]);
            }
        } else {
            if i < f {
                assert(s.free_list[i] != s.active_list[j - f - 32].old_destination);
            } else if i < f + 32 {
                assert(s.register_map_table[i - f] != s.active_list[j - f - 32].old_destination);
            } else {
                assert(s.active_list[i - f - 32].old_destination != s.active_list[j - f
                    - 32].old_destination);
            }
        }
    }
    assert(h.no_duplicates());
    h.unique_seq_to_set();
    lemma_int_range(0, 64);
    let all = set_int_range(0, 64);
    assert forall|p: int| h.to_set().contains(p) implies all.contains(p) by {
        let k = choose|k: int| 0 <= k < h.len() && h[k] == p;
        assert(h[k] == p);
        if k < f {
            assert(s.free_list[k] < 64);
        } else if k < f + 32 {
            assert(s.register_map_table[k - f] < 64);
        } else {
            assert(s.active_list[k - f - 32].old_destination < 64);
        }
    }
    assert(h.to_set().subset_of(all));
    vstd::seq_lib::seq_to_set_is_finite::<int>(h);
    lemma_subset_equality(h.to_set(), all);
    assert forall|p: int| 0 <= p < 64 implies h.contains(p) by {
        assert(all.contains(p));
        assert(h.to_set().contains(p));
    }
}

/// In a consistent pipeline a physical register is busy exactly when an
/// active entry that is not done, or that faulted, writes it.
pub proof fn law_busy_bits(m: Machine, p: int)
    requires
        m.consistent(),
        0 <= p < 64,
    ensures
        m.state.busy_bit_table[p] <==> exists|i: int|
            0 <= i < m.state.active_list.len() && pending(#[trigger] m.state.active_list[i])
                && current_destination(m.state, i) == p,
{
    reveal(Machine::busy_bits_exact);
}

/// In a consistent pipeline in which no active entry carries a fault, a
/// physical register is busy exactly when an active entry that is not done
/// writes it.
pub proof fn law_busy_bits_without_fault(m: Machine, p: int)
    requires
        m.consistent(),
        0 <= p < 64,
        forall|i: int|
            0 <= i < m.state.active_list.len() ==> !(#[trigger] m.state.active_list[i]).exception,
    ensures
        m.state.busy_bit_table[p] <==> exists|i: int|
            0 <= i < m.state.active_list.len() && !(#[trigger] m.state.active_list[i]).done
                && current_destination(m.state, i) == p,
{
    law_busy_bits(m, p);
    let s = m.state;
    if s.busy_bit_table[p] {
        let i = choose|i: int|
            0 <= i < s.active_list.len() && pending(#[trigger] s.active_list[i])
                && current_destination(s, i) == p;
        assert(!s.active_list[i].done && current_destination(s, i) == p);
    }
    if exists|i: int|
        0 <= i < s.active_list.len() && !(#[trigger] s.active_list[i]).done
            && current_destination(s, i) == p {
        let i = choose|i: int|
            0 <= i < s.active_list.len() && !(#[trigger] s.active_list[i]).done
                && current_destination(s, i) == p;
        assert(pending(s.active_list[i]) && current_destination(s, i) == p);
    }
}

/// In a consistent pipeline neither the active list nor the issue queue
/// holds more than 32 entries.
pub proof fn law_within_capacity(m: Machine)
    requires
        m.consistent(),
    ensures
        m.state.active_list.len() <= 32,
        m.state.integer_queue.len() <= 32,
{
}

/// In a consistent pipeline the program counters of the active list ascend
/// from the oldest entry to the youngest.
pub proof fn law_active_list_sorted(m: Machine, i: int, j: int)
    requires
        m.consistent(),
        0 <= i < j < m.state.active_list.len(),
    ensures
        m.state.active_list[i].pc < m.state.active_list[j].pc,
{
}

/// In a consistent pipeline every operand of the issue queue that is not
/// ready waits for a physical register that is busy.
pub proof fn law_waiting_operands_busy(m: Machine, k: int)
    requires
        m.consistent(),
        0 <= k < m.state.integer_queue.len(),
    ensures
        !m.state.integer_queue[k].op_a_is_ready ==> m.state.integer_queue[k].op_a_reg_tag < 64
            && m.state.busy_bit_table[m.state.integer_queue[k].op_a_reg_tag as int],
        !m.state.integer_queue[k].op_b_is_ready ==> m.state.integer_queue[k].op_b_reg_tag < 64
            && m.state.busy_bit_table[m.state.integer_queue[k].op_b_reg_tag as int],
{
}

/// In a consistent pipeline whose exception flag is set, the program
/// counter is at the exception vector, the issue queue and the decoded
/// buffer are empty, and every unit is idle.
pub proof fn law_drained_while_unwinding(m: Machine)
    requires
        m.consistent(),
        m.state.exception,
    ensures
        m.state.pc == EXCEPTION_VECTOR,
        m.state.integer_queue.len() == 0,
        m.state.decoded.len() == 0,
        forall|u: int| 0 <= u < m.alus.len() ==> #[trigger] m.alus[u] == Unit::idle(),
{
}

} // verus!
