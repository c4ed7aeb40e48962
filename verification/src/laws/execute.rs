//! The execute stage keeps the pipeline consistent.

use crate::alu::{Latch, Unit};
use crate::consistency::{
    accounted, current_destination, lemma_destination_agree, lemma_destination_in_range,
    lemma_destinations_differ, lemma_moved_slots, lemma_same_tables, occupant, occupant_pc,
    pending, Slot,
};
use crate::instruction::opcode_of;
use crate::model::{forward, forward_units, has_pc, position_of, unit_well_formed, Machine};
use crate::search::{lemma_first_match, lemma_first_match_agree};
use crate::state::State;
use vstd::prelude::*;

verus! {

/// The machine after every unit stepped.
pub open spec fn stepped(m: Machine) -> Machine {
    Machine { alus: m.alus.map_values(|u: Unit| u.step()), ..m }
}

/// The slot that held, before the units stepped, what `slot` holds after.
pub open spec fn before_step() -> spec_fn(Slot) -> Slot {
    |slot: Slot|
        match slot {
            Slot::Queued(j) => Slot::Queued(j),
            Slot::Bound(v) => Slot::Bound(v),
            Slot::Computed(v) => Slot::Bound(v),
            Slot::Forwarded(v) => Slot::Computed(v),
        }
}

/// Stepping every unit keeps the pipeline consistent; every forwarding
/// latch is then still to be broadcast.
pub proof fn lemma_step_consistent(m: Machine)
    requires
        m.consistent(),
    ensures
        stepped(m).consistent_at(0),
{
    let n = stepped(m);
    let b = m.alus.len() as int;
    assert forall|u: int| 0 <= u < n.alus.len() implies unit_well_formed(#[trigger] n.alus[u]) by {
        assert(unit_well_formed(m.alus[u]));
    }
    assert(n.well_formed());
    lemma_same_tables(m, n);
    assert(n.waiting_operands_busy());
    assert(n.program_order());
    if n.state.exception {
        assert forall|u: int| 0 <= u < n.alus.len() implies #[trigger] n.alus[u] == Unit::idle() by {
            assert(m.alus[u] == Unit::idle());
        }
    }
    let source = before_step();
    assert forall|slot: Slot| (#[trigger] occupant(n, 0, slot)) is Some implies occupant(n, 0, slot)
        == occupant(m, b, source(slot)) by {}
    assert forall|x: Slot, y: Slot|
        x != y && (#[trigger] occupant(n, 0, x)) is Some && (#[trigger] occupant(n, 0, y))
            is Some implies source(x) != source(y) by {}
    lemma_moved_slots(m, b, n, 0, source);
}

/// What broadcasting a result changes: the completion flags of one active
/// entry, and unless the instruction faulted, one register, its busy bit,
/// and the operands that waited for it.
proof fn lemma_forward_tables(s: State, latch: Latch)
    ensures
        forward(s, latch).active_list.len() == s.active_list.len(),
        0 <= position_of(s.active_list, latch.2) <= s.active_list.len(),
        forall|j: int|
            0 <= j < s.active_list.len() ==> {
                let e = #[trigger] forward(s, latch).active_list[j];
                &&& e.logical_destination == s.active_list[j].logical_destination
                &&& e.old_destination == s.active_list[j].old_destination
                &&& e.pc == s.active_list[j].pc
                &&& if j == position_of(s.active_list, latch.2) {
                    e.done && e.exception == latch.3
                } else {
                    e == s.active_list[j]
                }
            },
        forward(s, latch).register_map_table == s.register_map_table,
        forward(s, latch).free_list == s.free_list,
        forward(s, latch).decoded == s.decoded,
        forward(s, latch).pc == s.pc,
        forward(s, latch).exception == s.exception,
        forward(s, latch).busy_bit_table == if latch.3 {
            s.busy_bit_table
        } else {
            s.busy_bit_table.update(latch.0 as int, false)
        },
        forward(s, latch).integer_queue.len() == s.integer_queue.len(),
        forall|k: int|
            0 <= k < s.integer_queue.len() ==> #[trigger] forward(s, latch).integer_queue[k]
                == if latch.3 {
                s.integer_queue[k]
            } else {
                s.integer_queue[k].woken(latch.0, latch.1)
            },
{
    lemma_first_match(s.active_list, has_pc(latch.2), 0);
}

/// Broadcasting a result whose register is in range keeps a machine well
/// formed.
pub proof fn lemma_forward_well_formed(m: Machine, latch: Latch)
    requires
        m.well_formed(),
        latch.0 < 64,
    ensures
        (Machine { state: forward(m.state, latch), ..m }).well_formed(),
{
    let s = m.state;
    let t = forward(s, latch);
    lemma_forward_tables(s, latch);
    assert forall|i: int| 0 <= i < t.active_list.len() implies (
    #[trigger] t.active_list[i]).logical_destination < 32 && t.active_list[i].old_destination
        < 64 by {
        assert(t.active_list[i].logical_destination == s.active_list[i].logical_destination);
        assert(t.active_list[i].old_destination == s.active_list[i].old_destination);
    }
    assert forall|i: int| 0 <= i < t.integer_queue.len() implies (
    #[trigger] t.integer_queue[i]).dest_register < 64 && opcode_of(t.integer_queue[i].op_code)
        is Some by {
        assert(t.integer_queue[i].dest_register == s.integer_queue[i].dest_register);
        assert(t.integer_queue[i].op_code == s.integer_queue[i].op_code);
    }
}

/// Broadcasting a result keeps the registers partitioned, the active list
/// sorted and the program in order.
proof fn lemma_forward_order(m: Machine, latch: Latch)
    requires
        m.registers_partitioned(),
        m.active_list_sorted(),
        m.program_order(),
    ensures
        (Machine { state: forward(m.state, latch), ..m }).registers_partitioned(),
        (Machine { state: forward(m.state, latch), ..m }).active_list_sorted(),
        (Machine { state: forward(m.state, latch), ..m }).program_order(),
{
    reveal(Machine::registers_partitioned);
    let s = m.state;
    let t = forward(s, latch);
    lemma_forward_tables(s, latch);
    assert forall|i: int, j: int| 0 <= i < j < t.active_list.len() implies (
    #[trigger] t.active_list[i]).old_destination != (#[trigger] t.active_list[j]).old_destination by {
        assert(s.active_list[i].old_destination != s.active_list[j].old_destination);
    }
    assert forall|i: int, j: int|
        0 <= i < t.free_list.len() && 0 <= j < t.active_list.len() implies #[trigger] t.free_list[i]
        != (#[trigger] t.active_list[j]).old_destination by {
        assert(s.free_list[i] != s.active_list[j].old_destination);
    }
    assert forall|i: int, j: int|
        0 <= i < t.register_map_table.len() && 0 <= j < t.active_list.len() implies #[trigger] t.register_map_table[i]
        != (#[trigger] t.active_list[j]).old_destination by {
        assert(s.register_map_table[i] != s.active_list[j].old_destination);
    }
    assert forall|i: int, j: int| 0 <= i < j < t.active_list.len() implies (
    #[trigger] t.active_list[i]).pc < (#[trigger] t.active_list[j]).pc by {
        assert(s.active_list[i].pc < s.active_list[j].pc);
    }
    if !s.exception {
        assert forall|i: int, j: int|
            0 <= i < t.active_list.len() && 0 <= j < t.decoded.len() implies (
        #[trigger] t.active_list[i]).pc < (#[trigger] t.decoded[j]).pc by {
            assert(s.active_list[i].pc < s.decoded[j].pc);
        }
        assert forall|i: int| 0 <= i < t.active_list.len() implies (
        #[trigger] t.active_list[i]).pc < t.pc by {
            assert(s.active_list[i].pc < s.pc);
        }
    }
}

/// Broadcasting a result leaves the destination of every active entry as
/// it was.
proof fn lemma_forward_destinations(s: State, latch: Latch)
    ensures
        forall|j: int|
            0 <= j < s.active_list.len() ==> #[trigger] current_destination(forward(s, latch), j)
                == current_destination(s, j),
{
    let t = forward(s, latch);
    lemma_forward_tables(s, latch);
    assert forall|j: int| 0 <= j < s.active_list.len() implies #[trigger] current_destination(t, j)
        == current_destination(s, j) by {
        assert forall|k: int| 0 <= k < s.active_list.len() implies (
        #[trigger] s.active_list[k]).logical_destination == t.active_list[k].logical_destination
            && s.active_list[k].old_destination == t.active_list[k].old_destination by {
            assert(t.active_list[k].pc == s.active_list[k].pc);
        }
        lemma_destination_agree(s, t, j);
    }
}

/// Broadcasting the result of an instruction that is accounted for keeps
/// the busy bits exact, where no other active entry writes its register.
proof fn lemma_forward_busy(m: Machine, latch: Latch)
    requires
        m.busy_bits_exact(),
        accounted(m.state, (latch.2, latch.0)),
        latch.0 < m.state.busy_bit_table.len(),
        forall|j: int|
            0 <= j < m.state.active_list.len() ==> #[trigger] current_destination(m.state, j)
                < m.state.busy_bit_table.len() && (j != position_of(
                m.state.active_list,
                latch.2,
            ) ==> current_destination(m.state, j) != latch.0),
        forall|j: int|
            0 <= j < m.state.active_list.len() ==> #[trigger] current_destination(
                forward(m.state, latch),
                j,
            ) == current_destination(m.state, j),
    ensures
        (Machine { state: forward(m.state, latch), ..m }).busy_bits_exact(),
{
    reveal(Machine::busy_bits_exact);
    let s = m.state;
    let t = forward(s, latch);
    let at = position_of(s.active_list, latch.2);
    lemma_forward_tables(s, latch);
    assert forall|i: int|
        0 <= i < t.active_list.len() && pending(
            #[trigger] t.active_list[i],
        ) implies t.busy_bit_table[current_destination(t, i) as int] by {
        assert(current_destination(t, i) == current_destination(s, i));
        assert(pending(s.active_list[i]));
        assert(s.busy_bit_table[current_destination(s, i) as int]);
    }
    assert forall|p: int|
        0 <= p < t.busy_bit_table.len() && #[trigger] t.busy_bit_table[p] implies exists|i: int|
        0 <= i < t.active_list.len() && pending(#[trigger] t.active_list[i])
            && current_destination(t, i) == p by {
        assert(s.busy_bit_table[p]);
        let i = choose|i: int|
            0 <= i < s.active_list.len() && pending(#[trigger] s.active_list[i])
                && current_destination(s, i) == p;
        assert(current_destination(t, i) == current_destination(s, i));
        assert(pending(t.active_list[i]) && current_destination(t, i) == p);
    }
}

/// Broadcasting a result keeps every waiting operand waiting for a busy
/// register.
proof fn lemma_forward_waiting(m: Machine, latch: Latch)
    requires
        m.waiting_operands_busy(),
        latch.0 < m.state.busy_bit_table.len(),
    ensures
        (Machine { state: forward(m.state, latch), ..m }).waiting_operands_busy(),
{
    let s = m.state;
    let t = forward(s, latch);
    lemma_forward_tables(s, latch);
    assert forall|k: int| 0 <= k < t.integer_queue.len() implies {
        let q = #[trigger] t.integer_queue[k];
        &&& !q.op_a_is_ready ==> q.op_a_reg_tag < t.busy_bit_table.len()
            && t.busy_bit_table[q.op_a_reg_tag as int]
        &&& !q.op_b_is_ready ==> q.op_b_reg_tag < t.busy_bit_table.len()
            && t.busy_bit_table[q.op_b_reg_tag as int]
    } by {
        let old = s.integer_queue[k];
        assert(!old.op_a_is_ready ==> s.busy_bit_table[old.op_a_reg_tag as int]);
        assert(!old.op_b_is_ready ==> s.busy_bit_table[old.op_b_reg_tag as int]);
    }
}

/// Broadcasting the result in the forwarding latch of unit `u` keeps the
/// other instructions in flight accounted for.
proof fn lemma_forward_accounted(m: Machine, u: int, latch: Latch)
    requires
        m.in_flight_accounted(u),
        0 <= u < m.alus.len(),
        m.alus[u].forwarding == Some(latch),
        forall|j: int|
            0 <= j < m.state.active_list.len() ==> #[trigger] current_destination(
                forward(m.state, latch),
                j,
            ) == current_destination(m.state, j),
    ensures
        (Machine { state: forward(m.state, latch), ..m }).in_flight_accounted(u + 1),
{
    reveal(Machine::in_flight_accounted);
    let s = m.state;
    let t = forward(s, latch);
    let n = Machine { state: t, ..m };
    let done = Slot::Forwarded(u);
    lemma_forward_tables(s, latch);
    assert(occupant(m, u, done) == Some((latch.2, latch.0)));
    assert forall|slot: Slot| (#[trigger] occupant(n, u + 1, slot)) is Some implies slot != done
        && occupant(n, u + 1, slot) == occupant(m, u, slot) by {}
    assert forall|slot: Slot| (#[trigger] occupant(n, u + 1, slot)) is Some implies accounted(
        t,
        occupant(n, u + 1, slot)->0,
    ) by {
        let x = occupant(m, u, slot)->0;
        assert(occupant(m, u, slot) is Some);
        assert(accounted(s, x));
        assert(occupant_pc(m, u, slot) != occupant_pc(m, u, done));
        assert(x.0 != latch.2);
        let i = position_of(s.active_list, x.0);
        assert forall|k: int| 0 <= k < s.active_list.len() implies has_pc(x.0)(
            #[trigger] s.active_list[k],
        ) == has_pc(x.0)(t.active_list[k]) by {
            assert(t.active_list[k].pc == s.active_list[k].pc);
        }
        lemma_first_match_agree(s.active_list, t.active_list, has_pc(x.0), 0);
        lemma_first_match(s.active_list, has_pc(x.0), 0);
        lemma_first_match(s.active_list, has_pc(latch.2), 0);
        assert(has_pc(x.0)(s.active_list[i]));
        assert(i != position_of(s.active_list, latch.2));
        assert(t.active_list[i] == s.active_list[i]);
        assert(current_destination(t, i) == current_destination(s, i));
    }
    assert forall|x: Slot, y: Slot|
        x != y && (#[trigger] occupant(n, u + 1, x)) is Some && (#[trigger] occupant(n, u + 1, y))
            is Some implies occupant_pc(n, u + 1, x) != occupant_pc(n, u + 1, y) by {
        assert(occupant(n, u + 1, x) == occupant(m, u, x));
        assert(occupant(n, u + 1, y) == occupant(m, u, y));
    }
}

/// The machine after the forwarding latch of unit `u` was broadcast.
pub open spec fn broadcast_unit(m: Machine, u: int) -> Machine {
    match m.alus[u].forwarding {
        Some(latch) => Machine { state: forward(m.state, latch), ..m },
        None => m,
    }
}

/// Where no other active entry writes the register of the instruction
/// that unit `u` forwards.
proof fn lemma_forward_unique(m: Machine, u: int, latch: Latch)
    requires
        m.well_formed(),
        m.registers_partitioned(),
        m.in_flight_accounted(u),
        0 <= u < m.alus.len(),
        m.alus[u].forwarding == Some(latch),
    ensures
        accounted(m.state, (latch.2, latch.0)),
        latch.0 < 64,
        forall|j: int|
            0 <= j < m.state.active_list.len() ==> #[trigger] current_destination(m.state, j) < 64
                && (j != position_of(m.state.active_list, latch.2) ==> current_destination(
                m.state,
                j,
            ) != latch.0),
{
    reveal(Machine::in_flight_accounted);
    let s = m.state;
    assert(occupant(m, u, Slot::Forwarded(u)) == Some((latch.2, latch.0)));
    assert(accounted(s, (latch.2, latch.0)));
    let at = position_of(s.active_list, latch.2);
    lemma_destination_in_range(m, at);
    assert forall|j: int| 0 <= j < s.active_list.len() implies #[trigger] current_destination(s, j)
        < 64 && (j != at ==> current_destination(s, j) != latch.0) by {
        lemma_destination_in_range(m, j);
        if j < at {
            lemma_destinations_differ(m, j, at);
        } else if j > at {
            lemma_destinations_differ(m, at, j);
        }
    }
}

/// Broadcasting the forwarding latch of unit `u`, the next in turn, keeps
/// the pipeline consistent.
pub proof fn lemma_broadcast_unit_consistent(m: Machine, u: int)
    requires
        m.consistent_at(u),
        0 <= u < m.alus.len(),
    ensures
        broadcast_unit(m, u).consistent_at(u + 1),
{
    match m.alus[u].forwarding {
        Some(latch) => {
            let n = Machine { state: forward(m.state, latch), ..m };
            assert(m.alus[u] != Unit::idle());
            assert(!m.state.exception);
            lemma_forward_tables(m.state, latch);
            lemma_forward_unique(m, u, latch);
            lemma_forward_well_formed(m, latch);
            lemma_forward_order(m, latch);
            lemma_forward_destinations(m.state, latch);
            lemma_forward_busy(m, latch);
            lemma_forward_waiting(m, latch);
            lemma_forward_accounted(m, u, latch);
        },
        None => {
            assert forall|slot: Slot| (#[trigger] occupant(m, u + 1, slot)) is Some implies occupant(
                m,
                u + 1,
                slot,
            ) == occupant(m, u, slot) by {}
            lemma_moved_slots(m, u, m, u + 1, |slot: Slot| slot);
        },
    }
}

/// Broadcasting the forwarding latches of the first `n` units keeps the
/// pipeline consistent.
pub proof fn lemma_forward_units_consistent(m: Machine, n: int)
    requires
        m.consistent_at(0),
        0 <= n <= m.alus.len(),
    ensures
        (Machine { state: forward_units(m.state, m.alus, n), ..m }).consistent_at(n),
    decreases n,
{
    if n <= 0 {
        assert(Machine { state: forward_units(m.state, m.alus, n), ..m } == m);
    } else {
        lemma_forward_units_consistent(m, n - 1);
        let before = Machine { state: forward_units(m.state, m.alus, n - 1), ..m };
        lemma_broadcast_unit_consistent(before, n - 1);
        assert(broadcast_unit(before, n - 1) == Machine {
            state: forward_units(m.state, m.alus, n),
            ..m
        });
    }
}

/// The execute stage keeps the pipeline consistent.
pub proof fn lemma_execute_consistent(m: Machine)
    requires
        m.consistent(),
    ensures
        m.execute().consistent(),
{
    lemma_step_consistent(m);
    let s = stepped(m);
    lemma_forward_units_consistent(s, s.alus.len() as int);
    assert(m.execute() == Machine { state: forward_units(s.state, s.alus, s.alus.len() as int), ..s });
}

} // verus!
