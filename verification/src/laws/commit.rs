//! The commit stage keeps the pipeline consistent.

use crate::alu::Unit;
use crate::consistency::{
    accounted, current_destination, lemma_destination_drop_last, lemma_destination_in_range,
    lemma_destination_skip, lemma_destinations_differ, lemma_same_tables, writes, occupant, occupant_pc, pending, with_renaming, Slot,
};
use crate::entries::ActiveEntry;
use crate::model::{has_pc, position_of, retire, retire_count, rollback, rollback_one, Machine};
use crate::search::{
    first_match, lemma_first_match, lemma_first_match_drop_last, lemma_first_match_skip,
    lemma_first_match_unique,
};
use crate::state::State;
use vstd::prelude::*;

verus! {

/// What [`retire_count`] counts: at most `limit` entries, all of them done
/// and without fault, and the entry after them, if it is within the limit,
/// is not one of these.
pub proof fn lemma_retire_count(active: Seq<ActiveEntry>, limit: nat)
    ensures
        retire_count(active, limit) <= limit,
        retire_count(active, limit) <= active.len(),
        forall|i: int|
            0 <= i < retire_count(active, limit) ==> (#[trigger] active[i]).done
                && !active[i].exception,
        retire_count(active, limit) < limit && retire_count(active, limit) < active.len() ==> {
            let next = active[retire_count(active, limit) as int];
            !next.done || next.exception
        },
    decreases limit,
{
    if limit == 0 || active.len() == 0 || !active[0].done || active[0].exception {
    } else {
        let rest = active.drop_first();
        lemma_retire_count(rest, (limit - 1) as nat);
        let k = retire_count(rest, (limit - 1) as nat) as int;
        assert forall|i: int| 0 <= i < k + 1 implies (#[trigger] active[i]).done
            && !active[i].exception by {
            if i > 0 {
                assert(active[i] == rest[i - 1]);
            }
        }
        if k + 1 < limit && k + 1 < active.len() {
            assert(active[k + 1] == rest[k]);
        }
    }
}

/// Retiring the `k` oldest active entries keeps a machine well formed, and
/// so does the trap that may follow.
pub proof fn lemma_retire_well_formed(m: Machine, k: int)
    requires
        m.well_formed(),
        0 <= k <= m.state.active_list.len(),
    ensures
        (Machine { state: retire(m.state, k), ..m }).well_formed(),
        (Machine { state: retire(m.state, k), ..m }).trap().well_formed(),
{
    let s = m.state;
    let r = retire(s, k);
    assert forall|i: int| 0 <= i < r.free_list.len() implies #[trigger] r.free_list[i] < 64 by {
        if i >= s.free_list.len() {
            assert(r.free_list[i] == s.active_list[i - s.free_list.len()].old_destination);
        }
    }
    assert forall|i: int| 0 <= i < r.active_list.len() implies (
    #[trigger] r.active_list[i]).logical_destination < 32 && r.active_list[i].old_destination
        < 64 by {
        assert(r.active_list[i] == s.active_list[i + k]);
    }
}

/// Retiring entries leaves the destinations of the others as they were.
proof fn lemma_retire_destinations(s: State, k: int)
    requires
        0 <= k <= s.active_list.len(),
    ensures
        forall|i: int|
            0 <= i < s.active_list.len() - k ==> #[trigger] current_destination(retire(s, k), i)
                == current_destination(s, i + k),
{
    let r = retire(s, k);
    assert forall|i: int| 0 <= i < s.active_list.len() - k implies #[trigger] current_destination(
        r,
        i,
    ) == current_destination(s, i + k) by {
        lemma_destination_skip(s, k, i);
        assert(current_destination(r, i) == current_destination(
            with_renaming(s, s.register_map_table, s.active_list.skip(k)),
            i,
        ));
    }
}

/// Retiring entries that are done and did not fault keeps the busy bits
/// exact.
proof fn lemma_retire_busy(m: Machine, k: int)
    requires
        m.busy_bits_exact(),
        0 <= k <= m.state.active_list.len(),
        forall|i: int|
            0 <= i < k ==> (#[trigger] m.state.active_list[i]).done
                && !m.state.active_list[i].exception,
    ensures
        (Machine { state: retire(m.state, k), ..m }).busy_bits_exact(),
{
    reveal(Machine::busy_bits_exact);
    let s = m.state;
    let r = retire(s, k);
    lemma_retire_destinations(s, k);
    assert forall|i: int|
        0 <= i < r.active_list.len() && pending(
            #[trigger] r.active_list[i],
        ) implies r.busy_bit_table[current_destination(r, i) as int] by {
        assert(r.active_list[i] == s.active_list[i + k]);
        assert(pending(s.active_list[i + k]));
        assert(current_destination(r, i) == current_destination(s, i + k));
    }
    assert forall|p: int|
        0 <= p < r.busy_bit_table.len() && #[trigger] r.busy_bit_table[p] implies exists|i: int|
        0 <= i < r.active_list.len() && pending(#[trigger] r.active_list[i])
            && current_destination(r, i) == p by {
        assert(s.busy_bit_table[p]);
        let i = choose|i: int|
            0 <= i < s.active_list.len() && pending(#[trigger] s.active_list[i])
                && current_destination(s, i) == p;
        assert(i >= k);
        assert(r.active_list[i - k] == s.active_list[i]);
        assert(current_destination(r, i - k) == current_destination(s, i - k + k));
        assert(pending(r.active_list[i - k]) && current_destination(r, i - k) == p);
    }
}

/// Retiring entries that are done keeps every instruction in flight
/// accounted for.
proof fn lemma_retire_accounted(m: Machine, k: int, b: int)
    requires
        m.in_flight_accounted(b),
        0 <= k <= m.state.active_list.len(),
        forall|i: int| 0 <= i < k ==> (#[trigger] m.state.active_list[i]).done,
    ensures
        (Machine { state: retire(m.state, k), ..m }).in_flight_accounted(b),
{
    reveal(Machine::in_flight_accounted);
    let s = m.state;
    let r = retire(s, k);
    let n = Machine { state: r, ..m };
    lemma_retire_destinations(s, k);
    assert forall|slot: Slot| (#[trigger] occupant(n, b, slot)) is Some implies accounted(
        r,
        occupant(n, b, slot)->0,
    ) by {
        assert(occupant(n, b, slot) == occupant(m, b, slot));
        let t = occupant(m, b, slot)->0;
        assert(accounted(s, t));
        let i = position_of(s.active_list, t.0);
        assert(i >= k);
        lemma_first_match(s.active_list, has_pc(t.0), 0);
        lemma_first_match_unique(s.active_list, has_pc(t.0), k, i);
        lemma_first_match_skip(s.active_list, has_pc(t.0), k, 0);
        assert(position_of(r.active_list, t.0) == i - k);
        assert(r.active_list[i - k] == s.active_list[i]);
        assert(current_destination(r, i - k) == current_destination(s, i - k + k));
    }
    assert forall|x: Slot, y: Slot|
        x != y && (#[trigger] occupant(n, b, x)) is Some && (#[trigger] occupant(
            n,
            b,
            y,
        )) is Some implies occupant_pc(n, b, x) != occupant_pc(n, b, y) by {
        assert(occupant(n, b, x) == occupant(m, b, x));
        assert(occupant(n, b, y) == occupant(m, b, y));
    }
}

/// Retiring entries keeps the order of the active list and of the program.
proof fn lemma_retire_order(m: Machine, k: int)
    requires
        m.active_list_sorted(),
        m.program_order(),
        0 <= k <= m.state.active_list.len(),
    ensures
        (Machine { state: retire(m.state, k), ..m }).active_list_sorted(),
        (Machine { state: retire(m.state, k), ..m }).program_order(),
{
    let s = m.state;
    let r = retire(s, k);
    assert forall|i: int, j: int| 0 <= i < j < r.active_list.len() implies (
    #[trigger] r.active_list[i]).pc < (#[trigger] r.active_list[j]).pc by {
        assert(s.active_list[i + k].pc < s.active_list[j + k].pc);
    }
    if !s.exception {
        assert forall|i: int, j: int|
            0 <= i < r.active_list.len() && 0 <= j < r.decoded.len() implies (
        #[trigger] r.active_list[i]).pc < (#[trigger] r.decoded[j]).pc by {
            assert(s.active_list[i + k].pc < s.decoded[j].pc);
        }
        assert forall|i: int| 0 <= i < r.active_list.len() implies (
        #[trigger] r.active_list[i]).pc < r.pc by {
            assert(s.active_list[i + k].pc < s.pc);
        }
    }
}

/// Retiring entries that are done and did not fault keeps the pipeline
/// consistent.
pub proof fn lemma_retire_consistent(m: Machine, k: int)
    requires
        m.consistent(),
        !m.state.exception,
        0 <= k <= m.state.active_list.len(),
        forall|i: int|
            0 <= i < k ==> (#[trigger] m.state.active_list[i]).done
                && !m.state.active_list[i].exception,
    ensures
        (Machine { state: retire(m.state, k), ..m }).consistent(),
{
    lemma_retire_well_formed(m, k);
    lemma_retire_partitioned(m, k);
    lemma_retire_busy(m, k);
    lemma_retire_order(m, k);
    lemma_retire_accounted(m, k, m.alus.len() as int);
}

/// Retiring entries keeps the registers partitioned.
proof fn lemma_retire_partitioned(m: Machine, k: int)
    requires
        m.well_formed(),
        m.registers_partitioned(),
        0 <= k <= m.state.active_list.len(),
    ensures
        (Machine { state: retire(m.state, k), ..m }).registers_partitioned(),
{
    reveal(Machine::registers_partitioned);
    let s = m.state;
    let r = retire(s, k);
    let f = s.free_list.len() as int;
    assert forall|i: int| 0 <= i < r.free_list.len() implies #[trigger] r.free_list[i] == if i < f {
        s.free_list[i]
    } else {
        s.active_list[i - f].old_destination
    } by {}
    assert forall|i: int| 0 <= i < r.active_list.len() implies #[trigger] r.active_list[i]
        == s.active_list[i + k] by {}
    assert forall|i: int, j: int| 0 <= i < j < r.free_list.len() implies #[trigger] r.free_list[i]
        != #[trigger] r.free_list[j] by {
        if j < f {
            assert(s.free_list[i] != s.free_list[j]);
        } else if i < f {
            assert(s.free_list[i] != s.active_list[j - f].old_destination);
        } else {
            assert(s.active_list[i - f].old_destination != s.active_list[j - f].old_destination);
        }
    }
    assert forall|i: int, j: int| 0 <= i < j < r.active_list.len() implies (
    #[trigger] r.active_list[i]).old_destination != (#[trigger] r.active_list[j]).old_destination by {
        assert(s.active_list[i + k].old_destination != s.active_list[j + k].old_destination);
    }
    assert forall|i: int, j: int|
        0 <= i < r.free_list.len() && 0 <= j < r.register_map_table.len() implies #[trigger] r.free_list[i]
        != #[trigger] r.register_map_table[j] by {
        if i < f {
            assert(s.free_list[i] != s.register_map_table[j]);
        } else {
            assert(s.register_map_table[j] != s.active_list[i - f].old_destination);
        }
    }
    assert forall|i: int, j: int|
        0 <= i < r.free_list.len() && 0 <= j < r.active_list.len() implies #[trigger] r.free_list[i]
        != (#[trigger] r.active_list[j]).old_destination by {
        if i < f {
            assert(s.free_list[i] != s.active_list[j + k].old_destination);
        } else {
            assert(s.active_list[i - f].old_destination != s.active_list[j + k].old_destination);
        }
    }
    assert forall|i: int, j: int|
        0 <= i < r.register_map_table.len() && 0 <= j < r.active_list.len() implies #[trigger] r.register_map_table[i]
        != (#[trigger] r.active_list[j]).old_destination by {
        assert(s.register_map_table[i] != s.active_list[j + k].old_destination);
    }
}

/// A trap keeps the pipeline consistent.
pub proof fn lemma_trap_consistent(m: Machine)
    requires
        m.consistent(),
        m.state.active_list.len() > 0,
    ensures
        m.trap().consistent(),
{
    let n = m.trap();
    assert(n.well_formed());
    lemma_same_tables(m, n);
    lemma_drained_accounted(n, m.alus.len() as int);
}

/// Undoing the youngest active entry leaves the destinations of the others
/// as they were, and none of them is the register that the entry wrote.
proof fn lemma_rollback_one_destinations(m: Machine)
    requires
        m.well_formed(),
        m.registers_partitioned(),
        m.state.active_list.len() > 0,
    ensures
        forall|i: int|
            0 <= i < m.state.active_list.len() - 1 ==> #[trigger] current_destination(
                rollback_one(m.state),
                i,
            ) == current_destination(m.state, i) && current_destination(m.state, i)
                != m.state.register_map_table[m.state.active_list.last().logical_destination as int],
        current_destination(m.state, m.state.active_list.len() - 1)
            == m.state.register_map_table[m.state.active_list.last().logical_destination as int],
        forall|i: int|
            0 <= i < m.state.active_list.len() ==> #[trigger] current_destination(m.state, i)
                < 64,
{
    assert forall|i: int| 0 <= i < m.state.active_list.len() implies #[trigger] current_destination(
        m.state,
        i,
    ) < 64 by {
        lemma_destination_in_range(m, i);
    }
    let s = m.state;
    let r = rollback_one(s);
    let last = s.active_list.len() - 1;
    let e = s.active_list.last();
    assert(s.active_list[last] == e);
    lemma_destination_drop_last(s, last);
    assert forall|i: int| 0 <= i < s.active_list.len() - 1 implies #[trigger] current_destination(
        r,
        i,
    ) == current_destination(s, i) && current_destination(s, i)
        != s.register_map_table[e.logical_destination as int] by {
        lemma_destination_drop_last(s, i);
        assert(r.active_list == s.active_list.drop_last());
        assert(r.register_map_table == s.register_map_table.update(
            e.logical_destination as int,
            e.old_destination,
        ));
        assert(current_destination(r, i) == current_destination(
            with_renaming(
                s,
                s.register_map_table.update(e.logical_destination as int, e.old_destination),
                s.active_list.drop_last(),
            ),
            i,
        ));
        lemma_destinations_differ(m, i, last);
    }
}

/// Clearing the busy bit of the register that the youngest active entry
/// wrote, and dropping the entry, keeps the busy bits exact, provided the
/// other entries write other registers, the same as before.
proof fn lemma_rollback_one_busy(m: Machine, cur: u32)
    requires
        m.busy_bits_exact(),
        m.state.active_list.len() > 0,
        cur == m.state.register_map_table[m.state.active_list.last().logical_destination as int],
        cur < m.state.busy_bit_table.len(),
        m.state.active_list.last().logical_destination < m.state.register_map_table.len(),
        current_destination(m.state, m.state.active_list.len() - 1) == cur,
        forall|i: int|
            0 <= i < m.state.active_list.len() ==> #[trigger] current_destination(m.state, i)
                < m.state.busy_bit_table.len(),
        forall|i: int|
            0 <= i < m.state.active_list.len() - 1 ==> #[trigger] current_destination(
                rollback_one(m.state),
                i,
            ) == current_destination(m.state, i) && current_destination(m.state, i) != cur,
    ensures
        (Machine { state: rollback_one(m.state), ..m }).busy_bits_exact(),
{
    reveal(Machine::busy_bits_exact);
    let s = m.state;
    let r = rollback_one(s);
    let last = s.active_list.len() - 1;
    assert forall|i: int|
        0 <= i < r.active_list.len() && pending(
            #[trigger] r.active_list[i],
        ) implies r.busy_bit_table[current_destination(r, i) as int] by {
        assert(r.active_list[i] == s.active_list[i]);
        assert(current_destination(r, i) == current_destination(s, i));
        assert(pending(s.active_list[i]));
        assert(s.busy_bit_table[current_destination(s, i) as int]);
    }
    assert forall|p: int|
        0 <= p < r.busy_bit_table.len() && #[trigger] r.busy_bit_table[p] implies exists|i: int|
        0 <= i < r.active_list.len() && pending(#[trigger] r.active_list[i])
            && current_destination(r, i) == p by {
        assert(p != cur);
        assert(s.busy_bit_table[p]);
        let i = choose|i: int|
            0 <= i < s.active_list.len() && pending(#[trigger] s.active_list[i])
                && current_destination(s, i) == p;
        assert(i != last);
        assert(r.active_list[i] == s.active_list[i]);
        assert(current_destination(r, i) == current_destination(s, i));
        assert(pending(r.active_list[i]) && current_destination(r, i) == p);
    }
}

/// A machine whose issue queue is empty and whose units are idle has no
/// instruction in flight.
pub proof fn lemma_drained_accounted(m: Machine, b: int)
    requires
        m.state.integer_queue.len() == 0,
        forall|u: int| 0 <= u < m.alus.len() ==> #[trigger] m.alus[u] == Unit::idle(),
    ensures
        m.in_flight_accounted(b),
        forall|slot: Slot| occupant(m, b, slot) is None,
{
    reveal(Machine::in_flight_accounted);
    assert forall|slot: Slot| occupant(m, b, slot) is None by {
        match slot {
            Slot::Queued(i) => {},
            Slot::Bound(u) => {
                if 0 <= u < m.alus.len() {
                    assert(m.alus[u] == Unit::idle());
                }
            },
            Slot::Computed(u) => {
                if 0 <= u < m.alus.len() {
                    assert(m.alus[u] == Unit::idle());
                }
            },
            Slot::Forwarded(u) => {
                if 0 <= u < m.alus.len() {
                    assert(m.alus[u] == Unit::idle());
                }
            },
        }
    }
}

/// Undoing the youngest active entry keeps a machine well formed and its
/// active list sorted.
proof fn lemma_rollback_one_shape(m: Machine)
    requires
        m.well_formed(),
        m.active_list_sorted(),
        m.state.active_list.len() > 0,
    ensures
        (Machine { state: rollback_one(m.state), ..m }).well_formed(),
        (Machine { state: rollback_one(m.state), ..m }).active_list_sorted(),
{
    let s = m.state;
    let r = rollback_one(s);
    let last = s.active_list.len() - 1;
    assert(s.active_list[last] == s.active_list.last());
    assert forall|i: int| 0 <= i < r.active_list.len() implies #[trigger] r.active_list[i]
        == s.active_list[i] by {}
    assert forall|i: int| 0 <= i < r.free_list.len() implies #[trigger] r.free_list[i] < 64 by {
        if i < s.free_list.len() {
            assert(r.free_list[i] == s.free_list[i]);
        }
    }
    assert forall|i: int, j: int| 0 <= i < j < r.active_list.len() implies (
    #[trigger] r.active_list[i]).pc < (#[trigger] r.active_list[j]).pc by {
        assert(s.active_list[i].pc < s.active_list[j].pc);
    }
}

/// While the pipeline unwinds, undoing the youngest active entry keeps it
/// consistent.
pub proof fn lemma_rollback_one_consistent(m: Machine)
    requires
        m.consistent(),
        m.state.exception,
        m.state.active_list.len() > 0,
    ensures
        (Machine { state: rollback_one(m.state), ..m }).consistent(),
{
    let n = Machine { state: rollback_one(m.state), ..m };
    lemma_rollback_one_shape(m);
    lemma_rollback_one_partitioned(m);
    lemma_rollback_one_destinations(m);
    let e = m.state.active_list.last();
    assert(m.state.active_list[m.state.active_list.len() - 1] == e);
    lemma_rollback_one_busy(m, m.state.register_map_table[e.logical_destination as int]);
    lemma_drained_accounted(n, m.alus.len() as int);
}

/// Undoing the youngest active entry keeps the registers partitioned.
proof fn lemma_rollback_one_partitioned(m: Machine)
    requires
        m.well_formed(),
        m.registers_partitioned(),
        m.state.active_list.len() > 0,
    ensures
        (Machine { state: rollback_one(m.state), ..m }).registers_partitioned(),
{
    reveal(Machine::registers_partitioned);
    let s = m.state;
    let r = rollback_one(s);
    let last = s.active_list.len() - 1;
    let e = s.active_list.last();
    let l = e.logical_destination as int;
    let cur = s.register_map_table[l];
    let f = s.free_list.len() as int;
    assert(s.active_list[last] == e);
    assert forall|i: int| 0 <= i < r.active_list.len() implies #[trigger] r.active_list[i]
        == s.active_list[i] by {}
    assert forall|i: int| 0 <= i < r.free_list.len() implies #[trigger] r.free_list[i] == if i < f {
        s.free_list[i]
    } else {
        cur
    } by {}
    assert forall|i: int| 0 <= i < 32 implies #[trigger] r.register_map_table[i] == if i == l {
        e.old_destination
    } else {
        s.register_map_table[i]
    } by {}
    assert forall|i: int, j: int| 0 <= i < j < r.free_list.len() implies #[trigger] r.free_list[i]
        != #[trigger] r.free_list[j] by {
        if j < f {
            assert(s.free_list[i] != s.free_list[j]);
        } else {
            assert(s.free_list[i] != s.register_map_table[l]);
        }
    }
    assert forall|i: int, j: int|
        0 <= i < j < r.register_map_table.len() implies #[trigger] r.register_map_table[i]
        != #[trigger] r.register_map_table[j] by {
        if i == l {
            assert(s.register_map_table[j] != s.active_list[last].old_destination);
        } else if j == l {
            assert(s.register_map_table[i] != s.active_list[last].old_destination);
        } else {
            assert(s.register_map_table[i] != s.register_map_table[j]);
        }
    }
    assert forall|i: int, j: int| 0 <= i < j < r.active_list.len() implies (
    #[trigger] r.active_list[i]).old_destination != (#[trigger] r.active_list[j]).old_destination by {
        assert(s.active_list[i].old_destination != s.active_list[j].old_destination);
    }
    assert forall|i: int, j: int|
        0 <= i < r.free_list.len() && 0 <= j < r.register_map_table.len() implies #[trigger] r.free_list[i]
        != #[trigger] r.register_map_table[j] by {
        if i < f {
            if j == l {
                assert(s.free_list[i] != s.active_list[last].old_destination);
            } else {
                assert(s.free_list[i] != s.register_map_table[j]);
            }
        } else {
            if j == l {
                assert(s.register_map_table[l] != s.active_list[last].old_destination);
            } else if j < l {
                assert(s.register_map_table[j] != s.register_map_table[l]);
            } else {
                assert(s.register_map_table[l] != s.register_map_table[j]);
            }
        }
    }
    assert forall|i: int, j: int|
        0 <= i < r.free_list.len() && 0 <= j < r.active_list.len() implies #[trigger] r.free_list[i]
        != (#[trigger] r.active_list[j]).old_destination by {
        if i < f {
            assert(s.free_list[i] != s.active_list[j].old_destination);
        } else {
            assert(s.register_map_table[l] != s.active_list[j].old_destination);
        }
    }
    assert forall|i: int, j: int|
        0 <= i < r.register_map_table.len() && 0 <= j < r.active_list.len() implies #[trigger] r.register_map_table[i]
        != (#[trigger] r.active_list[j]).old_destination by {
        if i == l {
            assert(s.active_list[j].old_destination != s.active_list[last].old_destination);
        } else {
            assert(s.register_map_table[i] != s.active_list[j].old_destination);
        }
    }
}

/// While the pipeline unwinds, undoing the youngest entries keeps it
/// consistent.
pub proof fn lemma_rollback_consistent(m: Machine, n: nat)
    requires
        m.consistent(),
        m.state.exception,
    ensures
        (Machine { state: rollback(m.state, n), ..m }).consistent(),
    decreases n,
{
    if n == 0 || m.state.active_list.len() == 0 {
        assert(Machine { state: rollback(m.state, n), ..m } == m);
    } else {
        lemma_rollback_one_consistent(m);
        let next = Machine { state: rollback_one(m.state), ..m };
        lemma_rollback_consistent(next, (n - 1) as nat);
        assert(Machine { state: rollback(next.state, (n - 1) as nat), ..next } == Machine {
            state: rollback(m.state, n),
            ..m
        });
    }
}

/// The physical register that `logical` was mapped to before any entry
/// of the active list renamed it.
pub open spec fn committed_mapping(s: State, logical: u32) -> u32 {
    let first = first_match(s.active_list, writes(logical), 0);
    if first < s.active_list.len() {
        s.active_list[first].old_destination
    } else {
        s.register_map_table[logical as int]
    }
}

/// Undoing the youngest active entry changes no committed mapping.
pub proof fn lemma_rollback_one_committed(s: State, logical: u32)
    requires
        s.active_list.len() > 0,
        logical < s.register_map_table.len(),
        s.active_list.last().logical_destination < s.register_map_table.len(),
    ensures
        committed_mapping(rollback_one(s), logical) == committed_mapping(s, logical),
{
    let r = rollback_one(s);
    let last = s.active_list.len() - 1;
    assert(s.active_list[last] == s.active_list.last());
    lemma_first_match(s.active_list, writes(logical), 0);
    lemma_first_match_drop_last(s.active_list, writes(logical), 0);
    let first = first_match(s.active_list, writes(logical), 0);
    if first < last {
        assert(r.active_list[first] == s.active_list[first]);
    } else if first == last {
        assert(writes(logical)(s.active_list[last]));
    } else {
        assert(!writes(logical)(s.active_list[last]));
    }
}

/// Undoing `a` entries and then `b` more undoes `a + b` entries.
pub proof fn lemma_rollback_twice(s: State, a: nat, b: nat)
    ensures
        rollback(rollback(s, a), b) == rollback(s, a + b),
    decreases a,
{
    if a == 0 {
    } else if s.active_list.len() == 0 {
        lemma_rollback_nothing(s, b);
        lemma_rollback_nothing(s, a + b);
    } else {
        lemma_rollback_twice(rollback_one(s), (a - 1) as nat, b);
    }
}

/// Where the active list is empty, there is nothing to undo.
pub proof fn lemma_rollback_nothing(s: State, n: nat)
    requires
        s.active_list.len() == 0,
    ensures
        rollback(s, n) == s,
{
}

/// A fault is precise: once every active entry has been undone, the active
/// list is empty and each architectural register is mapped as it was
/// before the faulting instruction, or any younger one, renamed it.
pub proof fn law_unwinding_restores_mapping(s: State, n: nat, logical: u32)
    requires
        n >= s.active_list.len(),
        logical < s.register_map_table.len(),
        forall|k: int|
            0 <= k < s.active_list.len() ==> (#[trigger] s.active_list[k]).logical_destination
                < s.register_map_table.len(),
    ensures
        rollback(s, n).active_list.len() == 0,
        rollback(s, n).register_map_table[logical as int] == committed_mapping(s, logical),
    decreases n,
{
    if n == 0 || s.active_list.len() == 0 {
        lemma_first_match(s.active_list, writes(logical), 0);
    } else {
        let r = rollback_one(s);
        let last = s.active_list.len() - 1;
        assert(s.active_list[last] == s.active_list.last());
        lemma_rollback_one_committed(s, logical);
        assert forall|k: int| 0 <= k < r.active_list.len() implies (
        #[trigger] r.active_list[k]).logical_destination < r.register_map_table.len() by {
            assert(r.active_list[k] == s.active_list[k]);
        }
        law_unwinding_restores_mapping(r, (n - 1) as nat, logical);
    }
}

/// The commit stage keeps the pipeline consistent.
pub proof fn lemma_commit_consistent(m: Machine)
    requires
        m.consistent(),
    ensures
        m.commit().0.consistent(),
{
    let s = m.state;
    let b = m.alus.len() as int;
    if s.exception {
        if s.active_list.len() == 0 {
            let n = m.commit().0;
            assert(n.well_formed());
            lemma_same_tables(m, n);
            lemma_drained_accounted(n, b);
        } else {
            lemma_rollback_consistent(m, 4);
        }
    } else {
        lemma_retire_count(s.active_list, 4);
        let k = retire_count(s.active_list, 4) as int;
        lemma_retire_consistent(m, k);
        let retired = Machine { state: retire(s, k), ..m };
        if k < 4 && k < s.active_list.len() && s.active_list[k].done {
            assert(retired.state.active_list.len() > 0);
            lemma_trap_consistent(retired);
        }
    }
}

} // verus!
