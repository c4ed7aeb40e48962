//! The rename stage keeps the pipeline consistent.

use crate::consistency::{
    accounted, current_destination, lemma_destination_in_range, lemma_destination_push,
    lemma_partition_count,
    lemma_same_slots, lemma_same_tables, occupant, occupant_pc, pending, with_renaming, Slot,
};
use crate::entries::ActiveEntry;
use crate::instruction::{opcode_of, register_index};
use crate::model::{has_pc, must_stall, operand_state, position_of, rename_n, rename_one, Machine};
use crate::search::{first_match, lemma_first_match, lemma_first_match_push, lemma_first_match_unique};
use crate::state::State;
use vstd::prelude::*;

verus! {

/// The active entry that renaming the oldest decoded instruction appends.
pub open spec fn renamed_entry(s: State) -> ActiveEntry {
    let logical = register_index(s.decoded[0].dest)->0 as u32;
    ActiveEntry {
        done: false,
        exception: false,
        logical_destination: logical,
        old_destination: s.register_map_table[logical as int],
        pc: s.decoded[0].pc,
    }
}

/// Renaming the oldest decoded instruction appends [`renamed_entry`] and
/// maps its architectural register to the head of the free list.
proof fn lemma_rename_one_tables(s: State)
    ensures
        rename_one(s).active_list == s.active_list.push(renamed_entry(s)),
        rename_one(s).register_map_table == s.register_map_table.update(
            renamed_entry(s).logical_destination as int,
            s.free_list[0],
        ),
        rename_one(s).free_list == s.free_list.drop_first(),
        rename_one(s).busy_bit_table == s.busy_bit_table.update(s.free_list[0] as int, true),
        rename_one(s).decoded == s.decoded.drop_first(),
        rename_one(s).pc == s.pc,
        rename_one(s).exception == s.exception,
        rename_one(s).physical_register_file == s.physical_register_file,
        rename_one(s).integer_queue.len() == s.integer_queue.len() + 1,
        forall|k: int|
            0 <= k < s.integer_queue.len() ==> #[trigger] rename_one(s).integer_queue[k]
                == s.integer_queue[k],
{
}

/// Renaming keeps a machine well formed.
pub proof fn lemma_rename_one_well_formed(m: Machine)
    requires
        m.well_formed(),
        m.state.decoded.len() > 0,
        m.state.free_list.len() > 0,
    ensures
        (Machine { state: rename_one(m.state), ..m }).well_formed(),
{
    let s = m.state;
    let r = rename_one(s);
    let d = s.decoded[0];
    assert(d.well_formed());
    lemma_rename_one_tables(s);
    assert(s.free_list[0] < 64);
    assert forall|i: int| 0 <= i < r.free_list.len() implies #[trigger] r.free_list[i] < 64 by {
        assert(r.free_list[i] == s.free_list[i + 1]);
    }
    assert forall|i: int| 0 <= i < r.active_list.len() implies (
    #[trigger] r.active_list[i]).logical_destination < 32 && r.active_list[i].old_destination
        < 64 by {
        if i < s.active_list.len() {
            assert(r.active_list[i] == s.active_list[i]);
        }
    }
    assert forall|i: int| 0 <= i < r.integer_queue.len() implies (
    #[trigger] r.integer_queue[i]).dest_register < 64 && opcode_of(r.integer_queue[i].op_code)
        is Some by {
        if i < s.integer_queue.len() {
            assert(r.integer_queue[i] == s.integer_queue[i]);
        }
    }
    assert forall|i: int| 0 <= i < r.decoded.len() implies (#[trigger] r.decoded[i]).well_formed() by {
        assert(r.decoded[i] == s.decoded[i + 1]);
    }
}

/// Renaming keeps the registers partitioned.
proof fn lemma_rename_one_partitioned(m: Machine)
    requires
        m.well_formed(),
        m.registers_partitioned(),
        m.state.decoded.len() > 0,
        m.state.free_list.len() > 0,
    ensures
        (Machine { state: rename_one(m.state), ..m }).registers_partitioned(),
{
    reveal(Machine::registers_partitioned);
    let s = m.state;
    let r = rename_one(s);
    let e = renamed_entry(s);
    let l = e.logical_destination as int;
    let fresh = s.free_list[0];
    let n = s.active_list.len() as int;
    assert(s.decoded[0].well_formed());
    lemma_rename_one_tables(s);
    assert forall|i: int| 0 <= i < r.free_list.len() implies #[trigger] r.free_list[i]
        == s.free_list[i + 1] by {}
    assert forall|i: int| 0 <= i < 32 implies #[trigger] r.register_map_table[i] == if i == l {
        fresh
    } else {
        s.register_map_table[i]
    } by {}
    assert forall|i: int| 0 <= i < r.active_list.len() implies (
    #[trigger] r.active_list[i]).old_destination == if i < n {
        s.active_list[i].old_destination
    } else {
        s.register_map_table[l]
    } by {}
    assert forall|i: int, j: int| 0 <= i < j < r.free_list.len() implies #[trigger] r.free_list[i]
        != #[trigger] r.free_list[j] by {
        assert(s.free_list[i + 1] != s.free_list[j + 1]);
    }
    assert forall|i: int, j: int|
        0 <= i < j < r.register_map_table.len() implies #[trigger] r.register_map_table[i]
        != #[trigger] r.register_map_table[j] by {
        if i == l {
            assert(s.free_list[0] != s.register_map_table[j]);
        } else if j == l {
            assert(s.free_list[0] != s.register_map_table[i]);
        } else {
            assert(s.register_map_table[i] != s.register_map_table[j]);
        }
    }
    assert forall|i: int, j: int| 0 <= i < j < r.active_list.len() implies (
    #[trigger] r.active_list[i]).old_destination != (#[trigger] r.active_list[j]).old_destination by {
        if j < n {
            assert(s.active_list[i].old_destination != s.active_list[j].old_destination);
        } else {
            assert(s.register_map_table[l] != s.active_list[i].old_destination);
        }
    }
    assert forall|i: int, j: int|
        0 <= i < r.free_list.len() && 0 <= j < r.register_map_table.len() implies #[trigger] r.free_list[i]
        != #[trigger] r.register_map_table[j] by {
        if j == l {
            assert(s.free_list[0] != s.free_list[i + 1]);
        } else {
            assert(s.free_list[i + 1] != s.register_map_table[j]);
        }
    }
    assert forall|i: int, j: int|
        0 <= i < r.free_list.len() && 0 <= j < r.active_list.len() implies #[trigger] r.free_list[i]
        != (#[trigger] r.active_list[j]).old_destination by {
        if j < n {
            assert(s.free_list[i + 1] != s.active_list[j].old_destination);
        } else {
            assert(s.free_list[i + 1] != s.register_map_table[l]);
        }
    }
    assert forall|i: int, j: int|
        0 <= i < r.register_map_table.len() && 0 <= j < r.active_list.len() implies #[trigger] r.register_map_table[i]
        != (#[trigger] r.active_list[j]).old_destination by {
        if i == l {
            if j < n {
                assert(s.free_list[0] != s.active_list[j].old_destination);
            } else {
                assert(s.free_list[0] != s.register_map_table[l]);
            }
        } else {
            if j < n {
                assert(s.register_map_table[i] != s.active_list[j].old_destination);
            } else if i < l {
                assert(s.register_map_table[i] != s.register_map_table[l]);
            } else {
                assert(s.register_map_table[l] != s.register_map_table[i]);
            }
        }
    }
}

/// Renaming leaves the destinations of the older entries as they were, and
/// the new entry writes the register taken from the free list.
proof fn lemma_rename_one_destinations(m: Machine)
    requires
        m.well_formed(),
        m.state.decoded.len() > 0,
        m.state.free_list.len() > 0,
    ensures
        forall|i: int|
            0 <= i < m.state.active_list.len() ==> #[trigger] current_destination(
                rename_one(m.state),
                i,
            ) == current_destination(m.state, i) && current_destination(m.state, i) < 64,
        current_destination(rename_one(m.state), m.state.active_list.len() as int)
            == m.state.free_list[0],
{
    let s = m.state;
    let r = rename_one(s);
    let e = renamed_entry(s);
    let fresh = s.free_list[0];
    assert(s.decoded[0].well_formed());
    lemma_rename_one_tables(s);
    let t = with_renaming(
        s,
        s.register_map_table.update(e.logical_destination as int, fresh),
        s.active_list.push(e),
    );
    assert forall|i: int| 0 <= i <= s.active_list.len() implies current_destination(r, i) == if i
        < s.active_list.len() {
        current_destination(s, i)
    } else {
        fresh
    } by {
        lemma_destination_push(s, e, fresh, i);
        assert(current_destination(r, i) == current_destination(t, i));
    }
    assert forall|i: int| 0 <= i < s.active_list.len() implies #[trigger] current_destination(r, i)
        == current_destination(s, i) && current_destination(s, i) < 64 by {
        lemma_destination_in_range(m, i);
    }
}

/// Renaming keeps the busy bits exact, given what it does to the
/// destinations.
proof fn lemma_rename_one_busy(m: Machine)
    requires
        m.busy_bits_exact(),
        m.state.busy_bit_table.len() == 64,
        m.state.free_list.len() > 0,
        m.state.free_list[0] < 64,
        forall|i: int|
            0 <= i < m.state.active_list.len() ==> #[trigger] current_destination(
                rename_one(m.state),
                i,
            ) == current_destination(m.state, i) && current_destination(m.state, i) < 64,
        current_destination(rename_one(m.state), m.state.active_list.len() as int)
            == m.state.free_list[0],
    ensures
        (Machine { state: rename_one(m.state), ..m }).busy_bits_exact(),
{
    reveal(Machine::busy_bits_exact);
    let s = m.state;
    let r = rename_one(s);
    let fresh = s.free_list[0];
    let n = s.active_list.len() as int;
    lemma_rename_one_tables(s);
    assert forall|i: int|
        0 <= i < r.active_list.len() && pending(
            #[trigger] r.active_list[i],
        ) implies r.busy_bit_table[current_destination(r, i) as int] by {
        if i < n {
            assert(r.active_list[i] == s.active_list[i]);
            assert(current_destination(r, i) == current_destination(s, i));
            assert(s.busy_bit_table[current_destination(s, i) as int]);
        }
    }
    assert forall|p: int|
        0 <= p < r.busy_bit_table.len() && #[trigger] r.busy_bit_table[p] implies exists|i: int|
        0 <= i < r.active_list.len() && pending(#[trigger] r.active_list[i])
            && current_destination(r, i) == p by {
        if p == fresh {
            assert(r.active_list[n] == renamed_entry(s));
            assert(pending(r.active_list[n]) && current_destination(r, n) == p);
        } else {
            assert(s.busy_bit_table[p]);
            let i = choose|i: int|
                0 <= i < s.active_list.len() && pending(#[trigger] s.active_list[i])
                    && current_destination(s, i) == p;
            assert(r.active_list[i] == s.active_list[i]);
            assert(current_destination(r, i) == current_destination(s, i));
            assert(pending(r.active_list[i]) && current_destination(r, i) == p);
        }
    }
}

/// Renaming keeps the active list sorted and the program in order.
proof fn lemma_rename_one_order(m: Machine)
    requires
        m.active_list_sorted(),
        m.program_order(),
        !m.state.exception,
        m.state.decoded.len() > 0,
    ensures
        (Machine { state: rename_one(m.state), ..m }).active_list_sorted(),
        (Machine { state: rename_one(m.state), ..m }).program_order(),
{
    let s = m.state;
    let r = rename_one(s);
    let n = s.active_list.len() as int;
    lemma_rename_one_tables(s);
    assert forall|i: int| 0 <= i < r.active_list.len() implies (#[trigger] r.active_list[i]).pc
        == if i < n {
        s.active_list[i].pc
    } else {
        s.decoded[0].pc
    } by {}
    assert forall|i: int, j: int| 0 <= i < j < r.active_list.len() implies (
    #[trigger] r.active_list[i]).pc < (#[trigger] r.active_list[j]).pc by {
        if j < n {
            assert(s.active_list[i].pc < s.active_list[j].pc);
        } else {
            assert(s.active_list[i].pc < s.decoded[0].pc);
        }
    }
    assert forall|i: int, j: int| 0 <= i < j < r.decoded.len() implies (#[trigger] r.decoded[i]).pc
        < (#[trigger] r.decoded[j]).pc by {
        assert(s.decoded[i + 1].pc < s.decoded[j + 1].pc);
    }
    assert forall|i: int, j: int|
        0 <= i < r.active_list.len() && 0 <= j < r.decoded.len() implies (
    #[trigger] r.active_list[i]).pc < (#[trigger] r.decoded[j]).pc by {
        if i < n {
            assert(s.active_list[i].pc < s.decoded[j + 1].pc);
        } else {
            assert(s.decoded[0].pc < s.decoded[j + 1].pc);
        }
    }
    assert forall|j: int| 0 <= j < r.decoded.len() implies (#[trigger] r.decoded[j]).pc < r.pc by {
        assert(s.decoded[j + 1].pc < s.pc);
    }
    assert forall|i: int| 0 <= i < r.active_list.len() implies (#[trigger] r.active_list[i]).pc
        < r.pc by {
        if i < n {
            assert(s.active_list[i].pc < s.pc);
        } else {
            assert(s.decoded[0].pc < s.pc);
        }
    }
}

/// Renaming keeps every waiting operand waiting for a busy register.
proof fn lemma_rename_one_waiting(m: Machine)
    requires
        m.well_formed(),
        m.waiting_operands_busy(),
        m.state.decoded.len() > 0,
        m.state.free_list.len() > 0,
    ensures
        (Machine { state: rename_one(m.state), ..m }).waiting_operands_busy(),
{
    let s = m.state;
    let r = rename_one(s);
    let d = s.decoded[0];
    assert(d.well_formed());
    lemma_rename_one_tables(s);
    assert(s.free_list[0] < 64);
    assert forall|k: int| 0 <= k < r.integer_queue.len() implies {
        let q = #[trigger] r.integer_queue[k];
        &&& !q.op_a_is_ready ==> q.op_a_reg_tag < r.busy_bit_table.len()
            && r.busy_bit_table[q.op_a_reg_tag as int]
        &&& !q.op_b_is_ready ==> q.op_b_reg_tag < r.busy_bit_table.len()
            && r.busy_bit_table[q.op_b_reg_tag as int]
    } by {
        if k < s.integer_queue.len() {
            assert(r.integer_queue[k] == s.integer_queue[k]);
        } else {
            let a = operand_state(s, d.src1, false);
            let b = operand_state(s, d.src2, d.is_imm);
            assert(r.integer_queue[k].op_a_is_ready == a.0);
            assert(r.integer_queue[k].op_a_reg_tag == a.1);
            assert(r.integer_queue[k].op_b_is_ready == b.0);
            assert(r.integer_queue[k].op_b_reg_tag == b.1);
            assert(s.register_map_table[register_index(d.src1)->0 as int] < 64);
            if !d.is_imm {
                assert(s.register_map_table[register_index(d.src2)->0 as int] < 64);
            }
        }
    }
}

/// Renaming keeps every instruction in flight accounted for.
proof fn lemma_rename_one_accounted(m: Machine, b: int)
    requires
        m.in_flight_accounted(b),
        m.active_list_sorted(),
        m.program_order(),
        !m.state.exception,
        m.state.decoded.len() > 0,
        forall|i: int|
            0 <= i < m.state.active_list.len() ==> #[trigger] current_destination(
                rename_one(m.state),
                i,
            ) == current_destination(m.state, i),
        current_destination(rename_one(m.state), m.state.active_list.len() as int)
            == m.state.free_list[0],
    ensures
        (Machine { state: rename_one(m.state), ..m }).in_flight_accounted(b),
{
    reveal(Machine::in_flight_accounted);
    let s = m.state;
    let r = rename_one(s);
    let n = Machine { state: r, ..m };
    let e = renamed_entry(s);
    let len = s.active_list.len() as int;
    let added = Slot::Queued(s.integer_queue.len() as int);
    lemma_rename_one_tables(s);
    assert forall|slot: Slot| slot != added implies #[trigger] occupant(n, b, slot) == occupant(
        m,
        b,
        slot,
    ) by {
        match slot {
            Slot::Queued(i) => {
                if 0 <= i < s.integer_queue.len() {
                    assert(r.integer_queue[i] == s.integer_queue[i]);
                }
            },
            _ => {},
        }
    }
    assert(occupant(n, b, added) == Some((e.pc, s.free_list[0])));
    assert(first_match(s.active_list, has_pc(e.pc), 0) == len) by {
        assert forall|k: int| 0 <= k < len implies !has_pc(e.pc)(#[trigger] s.active_list[k]) by {
            assert(s.active_list[k].pc < s.decoded[0].pc);
        }
        lemma_first_match_unique(s.active_list, has_pc(e.pc), 0, len);
    }
    assert forall|slot: Slot| (#[trigger] occupant(n, b, slot)) is Some implies accounted(
        r,
        occupant(n, b, slot)->0,
    ) && (slot != added ==> occupant_pc(n, b, slot) < e.pc) by {
        let t = occupant(n, b, slot)->0;
        if slot == added {
            lemma_first_match_push(s.active_list, has_pc(e.pc), e, 0);
            assert(has_pc(e.pc)(e));
            assert(position_of(r.active_list, t.0) == len);
            assert(r.active_list[len] == e);
        } else {
            assert(occupant(m, b, slot) == Some(t));
            assert(accounted(s, t));
            let i = position_of(s.active_list, t.0);
            lemma_first_match_push(s.active_list, has_pc(t.0), e, 0);
            assert(position_of(r.active_list, t.0) == i);
            assert(r.active_list[i] == s.active_list[i]);
            assert(current_destination(r, i) == current_destination(s, i));
            lemma_first_match(s.active_list, has_pc(t.0), 0);
            assert(has_pc(t.0)(s.active_list[i]));
            assert(s.active_list[i].pc < s.decoded[0].pc);
        }
    }
    assert forall|x: Slot, y: Slot|
        x != y && (#[trigger] occupant(n, b, x)) is Some && (#[trigger] occupant(
            n,
            b,
            y,
        )) is Some implies occupant_pc(n, b, x) != occupant_pc(n, b, y) by {
        if x == added {
            assert(occupant_pc(n, b, y) < e.pc);
        } else if y == added {
            assert(occupant_pc(n, b, x) < e.pc);
        } else {
            assert(occupant(n, b, x) == occupant(m, b, x));
            assert(occupant(n, b, y) == occupant(m, b, y));
        }
    }
}

/// Renaming the oldest decoded instruction keeps the pipeline consistent,
/// where the free list and the issue queue have room for it.
pub proof fn lemma_rename_one_consistent(m: Machine)
    requires
        m.consistent(),
        m.state.decoded.len() > 0,
        m.state.free_list.len() > 0,
        m.state.integer_queue.len() < 32,
    ensures
        (Machine { state: rename_one(m.state), ..m }).consistent(),
{
    let s = m.state;
    assert(!s.exception);
    lemma_partition_count(m);
    lemma_rename_one_tables(s);
    lemma_rename_one_well_formed(m);
    lemma_rename_one_partitioned(m);
    lemma_rename_one_destinations(m);
    assert(s.free_list[0] < 64);
    lemma_rename_one_busy(m);
    lemma_rename_one_order(m);
    lemma_rename_one_waiting(m);
    lemma_rename_one_accounted(m, m.alus.len() as int);
}

/// Renaming the `n` oldest decoded instructions keeps the pipeline
/// consistent, where the free list and the issue queue have room for them.
pub proof fn lemma_rename_n_consistent(m: Machine, n: nat)
    requires
        m.consistent(),
        n <= m.state.decoded.len(),
        n <= m.state.free_list.len(),
        m.state.integer_queue.len() + n <= 32,
    ensures
        (Machine { state: rename_n(m.state, n), ..m }).consistent(),
        rename_n(m.state, n).decoded.len() == m.state.decoded.len() - n,
        rename_n(m.state, n).free_list.len() == m.state.free_list.len() - n,
        rename_n(m.state, n).integer_queue.len() == m.state.integer_queue.len() + n,
    decreases n,
{
    if n == 0 {
        assert(Machine { state: rename_n(m.state, n), ..m } == m);
    } else {
        lemma_rename_n_consistent(m, (n - 1) as nat);
        let before = Machine { state: rename_n(m.state, (n - 1) as nat), ..m };
        lemma_rename_one_tables(before.state);
        lemma_rename_one_consistent(before);
        assert(Machine { state: rename_one(before.state), ..before } == Machine {
            state: rename_n(m.state, n),
            ..m
        });
    }
}

/// Setting the backpressure flag keeps the pipeline consistent.
proof fn lemma_flag_consistent(m: Machine, flag: bool)
    requires
        m.consistent(),
    ensures
        (Machine { state: State { backpressure: flag, ..m.state }, ..m }).consistent(),
{
    let b = m.alus.len() as int;
    let flagged = Machine { state: State { backpressure: flag, ..m.state }, ..m };
    assert(flagged.well_formed());
    lemma_same_tables(m, flagged);
    assert forall|slot: Slot| #[trigger] occupant(flagged, b, slot) == occupant(m, b, slot) by {}
    lemma_same_slots(m, flagged, b);
    assert(flagged.waiting_operands_busy());
    assert(flagged.program_order());
}

/// The rename stage keeps the pipeline consistent.
pub proof fn lemma_rename_consistent(m: Machine)
    requires
        m.consistent(),
    ensures
        m.rename().consistent(),
{
    let s = m.state;
    let stall = must_stall(s);
    let flagged = Machine { state: State { backpressure: stall, ..s }, ..m };
    lemma_flag_consistent(m, stall);
    if !stall {
        lemma_rename_n_consistent(flagged, s.decoded.len());
        assert(m.rename() == Machine { state: rename_n(flagged.state, s.decoded.len()), ..flagged });
    }
}

} // verus!
