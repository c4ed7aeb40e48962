//! What holds of the pipeline between any two cycles: the bookkeeping of
//! physical registers, the order of the active list, and the link between
//! every instruction in flight and its active entry.

use crate::alu::Unit;
use crate::entries::ActiveEntry;
use crate::model::{position_of, Machine};
use crate::search::{
    first_match, lemma_first_match, lemma_first_match_agree, lemma_first_match_drop_last,
    lemma_first_match_push, lemma_first_match_skip,
};
use crate::state::{State, CAPACITY, EXCEPTION_VECTOR, PHYSICAL_REGISTERS};
use vstd::prelude::*;

verus! {

/// The active entries that rename the architectural register `logical`.
pub open spec fn writes(logical: u32) -> spec_fn(ActiveEntry) -> bool {
    |e: ActiveEntry| e.logical_destination == logical
}

/// The physical register that the active entry at position `i` writes: the
/// register that its architectural register was mapped to when it was
/// renamed. It is what the next younger entry for the same architectural
/// register recorded as the old mapping, or, where there is no such entry,
/// what the map table holds.
pub open spec fn current_destination(s: State, i: int) -> u32 {
    let logical = s.active_list[i].logical_destination;
    let next = first_match(s.active_list, writes(logical), i + 1);
    if next < s.active_list.len() {
        s.active_list[next].old_destination
    } else {
        s.register_map_table[logical as int]
    }
}

/// An active entry whose result has not been written: it is not done, or
/// it faulted.
pub open spec fn pending(e: ActiveEntry) -> bool {
    !e.done || e.exception
}

/// A place that holds an instruction between rename and completion.
pub ghost enum Slot {
    /// A position of the issue queue.
    Queued(int),
    /// The instruction bound to a unit.
    Bound(int),
    /// The first stage of a unit.
    Computed(int),
    /// The forwarding latch of a unit.
    Forwarded(int),
}

/// Program counter and destination register of the instruction in `slot`.
/// The forwarding latches of the units before `broadcast` have been
/// broadcast and hold no instruction any more.
pub open spec fn occupant(m: Machine, broadcast: int, slot: Slot) -> Option<(u64, u32)> {
    match slot {
        Slot::Queued(i) => if 0 <= i < m.state.integer_queue.len() {
            Some((m.state.integer_queue[i].pc, m.state.integer_queue[i].dest_register))
        } else {
            None
        },
        Slot::Bound(u) => if 0 <= u < m.alus.len() {
            match m.alus[u].in_flight {
                Some(e) => Some((e.pc, e.dest_register)),
                None => None,
            }
        } else {
            None
        },
        Slot::Computed(u) => if 0 <= u < m.alus.len() {
            match m.alus[u].stage1 {
                Some(l) => Some((l.2, l.0)),
                None => None,
            }
        } else {
            None
        },
        Slot::Forwarded(u) => if broadcast <= u < m.alus.len() && 0 <= u {
            match m.alus[u].forwarding {
                Some(l) => Some((l.2, l.0)),
                None => None,
            }
        } else {
            None
        },
    }
}

/// The program counter of the instruction in `slot`.
pub open spec fn occupant_pc(m: Machine, broadcast: int, slot: Slot) -> u64 {
    match occupant(m, broadcast, slot) {
        Some(t) => t.0,
        None => 0,
    }
}

/// The instruction with program counter `t.0` and destination `t.1` has an
/// active entry that is not done and that writes this destination.
pub open spec fn accounted(s: State, t: (u64, u32)) -> bool {
    let i = position_of(s.active_list, t.0);
    &&& 0 <= i < s.active_list.len()
    &&& !s.active_list[i].done
    &&& current_destination(s, i) == t.1
}

impl Machine {
    /// The free list, the map table and the old destinations of the active
    /// list hold 64 register numbers, no two of them equal.
    #[verifier::opaque]
    pub open spec fn registers_partitioned(self) -> bool {
        let s = self.state;
        &&& s.free_list.len() + s.active_list.len() + s.register_map_table.len()
            == PHYSICAL_REGISTERS
        &&& forall|i: int, j: int|
            0 <= i < j < s.free_list.len() ==> #[trigger] s.free_list[i] != #[trigger] s.free_list[j]
        &&& forall|i: int, j: int|
            0 <= i < j < s.register_map_table.len() ==> #[trigger] s.register_map_table[i]
                != #[trigger] s.register_map_table[j]
        &&& forall|i: int, j: int|
            0 <= i < j < s.active_list.len() ==> (#[trigger] s.active_list[i]).old_destination != (
            #[trigger] s.active_list[j]).old_destination
        &&& forall|i: int, j: int|
            0 <= i < s.free_list.len() && 0 <= j < s.register_map_table.len()
                ==> #[trigger] s.free_list[i] != #[trigger] s.register_map_table[j]
        &&& forall|i: int, j: int|
            0 <= i < s.free_list.len() && 0 <= j < s.active_list.len() ==> #[trigger] s.free_list[i]
                != (#[trigger] s.active_list[j]).old_destination
        &&& forall|i: int, j: int|
            0 <= i < s.register_map_table.len() && 0 <= j < s.active_list.len()
                ==> #[trigger] s.register_map_table[i] != (
            #[trigger] s.active_list[j]).old_destination
    }

    /// A physical register is busy exactly when a pending active entry
    /// writes it.
    #[verifier::opaque]
    pub open spec fn busy_bits_exact(self) -> bool {
        let s = self.state;
        &&& forall|i: int|
            0 <= i < s.active_list.len() && pending(#[trigger] s.active_list[i])
                ==> s.busy_bit_table[current_destination(s, i) as int]
        &&& forall|p: int|
            0 <= p < s.busy_bit_table.len() && #[trigger] s.busy_bit_table[p] ==> exists|i: int|
                0 <= i < s.active_list.len() && pending(#[trigger] s.active_list[i])
                    && current_destination(s, i) == p
    }

    /// Neither the active list nor the issue queue holds more than 32
    /// entries.
    pub open spec fn within_capacity(self) -> bool {
        self.state.active_list.len() <= CAPACITY && self.state.integer_queue.len() <= CAPACITY
    }

    /// The program counters of the active list ascend strictly.
    pub open spec fn active_list_sorted(self) -> bool {
        let a = self.state.active_list;
        forall|i: int, j: int| 0 <= i < j < a.len() ==> (#[trigger] a[i]).pc < (#[trigger] a[j]).pc
    }

    /// Every operand in the issue queue that is not ready waits for a
    /// physical register that is busy.
    pub open spec fn waiting_operands_busy(self) -> bool {
        let s = self.state;
        forall|k: int|
            0 <= k < s.integer_queue.len() ==> {
                let q = #[trigger] s.integer_queue[k];
                &&& !q.op_a_is_ready ==> q.op_a_reg_tag < s.busy_bit_table.len()
                    && s.busy_bit_table[q.op_a_reg_tag as int]
                &&& !q.op_b_is_ready ==> q.op_b_reg_tag < s.busy_bit_table.len()
                    && s.busy_bit_table[q.op_b_reg_tag as int]
            }
    }

    /// While the exception flag is set, the program counter is at the
    /// exception vector, the issue queue and the decoded buffer are empty,
    /// and every unit is idle.
    pub open spec fn drained_while_unwinding(self) -> bool {
        self.state.exception ==> {
            &&& self.state.pc == EXCEPTION_VECTOR
            &&& self.state.integer_queue.len() == 0
            &&& self.state.decoded.len() == 0
            &&& forall|u: int| 0 <= u < self.alus.len() ==> #[trigger] self.alus[u] == Unit::idle()
        }
    }

    /// Outside of unwinding, the decoded instructions are in program order,
    /// younger than every active entry, and older than what fetch reads
    /// next.
    pub open spec fn program_order(self) -> bool {
        let s = self.state;
        !s.exception ==> {
            &&& forall|i: int, j: int|
                0 <= i < j < s.decoded.len() ==> (#[trigger] s.decoded[i]).pc < (
                #[trigger] s.decoded[j]).pc
            &&& forall|i: int, j: int|
                0 <= i < s.active_list.len() && 0 <= j < s.decoded.len() ==> (
                #[trigger] s.active_list[i]).pc < (#[trigger] s.decoded[j]).pc
            &&& forall|j: int| 0 <= j < s.decoded.len() ==> (#[trigger] s.decoded[j]).pc < s.pc
            &&& forall|i: int| 0 <= i < s.active_list.len() ==> (#[trigger] s.active_list[i]).pc < s.pc
        }
    }

    /// Every instruction in a slot has its active entry, and no two slots
    /// hold instructions with the same program counter.
    #[verifier::opaque]
    pub open spec fn in_flight_accounted(self, broadcast: int) -> bool {
        &&& forall|slot: Slot|
            (#[trigger] occupant(self, broadcast, slot)) matches Some(t) ==> accounted(
                self.state,
                t,
            )
        &&& forall|a: Slot, b: Slot|
            a != b && (#[trigger] occupant(self, broadcast, a)) is Some && (#[trigger] occupant(
                self,
                broadcast,
                b,
            )) is Some ==> occupant_pc(self, broadcast, a) != occupant_pc(self, broadcast, b)
    }

    /// Everything that holds between two cycles, while the forwarding
    /// latches of the units from `broadcast` on are still to be broadcast.
    pub open spec fn consistent_at(self, broadcast: int) -> bool {
        &&& self.well_formed()
        &&& self.registers_partitioned()
        &&& self.busy_bits_exact()
        &&& self.within_capacity()
        &&& self.active_list_sorted()
        &&& self.waiting_operands_busy()
        &&& self.drained_while_unwinding()
        &&& self.program_order()
        &&& self.in_flight_accounted(broadcast)
    }

    /// Everything that holds between two cycles.
    pub open spec fn consistent(self) -> bool {
        self.consistent_at(self.alus.len() as int)
    }
}

/// The state with another map table and another active list.
pub open spec fn with_renaming(s: State, map: Seq<u32>, active: Seq<ActiveEntry>) -> State {
    State { register_map_table: map, active_list: active, ..s }
}

/// Entries that agree except for their completion flags write the same
/// registers.
pub proof fn lemma_destination_agree(s: State, t: State, i: int)
    requires
        0 <= i < s.active_list.len(),
        s.active_list.len() == t.active_list.len(),
        s.register_map_table == t.register_map_table,
        forall|k: int|
            0 <= k < s.active_list.len() ==> (#[trigger] s.active_list[k]).logical_destination
                == t.active_list[k].logical_destination && s.active_list[k].old_destination
                == t.active_list[k].old_destination,
    ensures
        current_destination(t, i) == current_destination(s, i),
{
    let logical = s.active_list[i].logical_destination;
    assert forall|k: int| 0 <= k < s.active_list.len() implies writes(logical)(
        #[trigger] s.active_list[k],
    ) == writes(logical)(t.active_list[k]) by {}
    lemma_first_match_agree(s.active_list, t.active_list, writes(logical), i + 1);
    lemma_first_match(s.active_list, writes(logical), i + 1);
}

/// Renaming leaves the destinations of the older entries as they were, and
/// the new entry writes the new mapping.
pub proof fn lemma_destination_push(s: State, e: ActiveEntry, fresh: u32, i: int)
    requires
        0 <= i <= s.active_list.len(),
        0 <= e.logical_destination < s.register_map_table.len(),
        e.old_destination == s.register_map_table[e.logical_destination as int],
        forall|k: int|
            0 <= k < s.active_list.len() ==> (#[trigger] s.active_list[k]).logical_destination
                < s.register_map_table.len(),
    ensures
        current_destination(
            with_renaming(
                s,
                s.register_map_table.update(e.logical_destination as int, fresh),
                s.active_list.push(e),
            ),
            i,
        ) == if i < s.active_list.len() {
            current_destination(s, i)
        } else {
            fresh
        },
{
    let t = with_renaming(
        s,
        s.register_map_table.update(e.logical_destination as int, fresh),
        s.active_list.push(e),
    );
    let logical = t.active_list[i].logical_destination;
    if i < s.active_list.len() {
        assert(t.active_list[i] == s.active_list[i]);
        lemma_first_match_push(s.active_list, writes(logical), e, i + 1);
        lemma_first_match(s.active_list, writes(logical), i + 1);
        let next = first_match(s.active_list, writes(logical), i + 1);
        if next < s.active_list.len() {
            assert(t.active_list[next] == s.active_list[next]);
        } else if writes(logical)(e) {
            assert(t.active_list[next] == e);
        }
    } else {
        assert(t.active_list[i] == e);
    }
}

/// Dropping the oldest entries leaves the destinations of the others as
/// they were.
pub proof fn lemma_destination_skip(s: State, k: int, i: int)
    requires
        0 <= k <= s.active_list.len(),
        0 <= i < s.active_list.len() - k,
    ensures
        current_destination(with_renaming(s, s.register_map_table, s.active_list.skip(k)), i)
            == current_destination(s, i + k),
{
    let t = with_renaming(s, s.register_map_table, s.active_list.skip(k));
    assert(t.active_list[i] == s.active_list[i + k]);
    let logical = s.active_list[i + k].logical_destination;
    lemma_first_match_skip(s.active_list, writes(logical), k, i + 1);
    lemma_first_match(s.active_list, writes(logical), i + k + 1);
    let next = first_match(s.active_list, writes(logical), i + k + 1);
    if next < s.active_list.len() {
        assert(t.active_list[next - k] == s.active_list[next]);
    }
}

/// Undoing the youngest entry leaves the destinations of the others as
/// they were; the entry itself wrote what the map table held.
pub proof fn lemma_destination_drop_last(s: State, i: int)
    requires
        s.active_list.len() > 0,
        0 <= i < s.active_list.len(),
        forall|k: int|
            0 <= k < s.active_list.len() ==> (#[trigger] s.active_list[k]).logical_destination
                < s.register_map_table.len(),
    ensures
        i == s.active_list.len() - 1 ==> current_destination(s, i)
            == s.register_map_table[s.active_list.last().logical_destination as int],
        i < s.active_list.len() - 1 ==> current_destination(
            with_renaming(
                s,
                s.register_map_table.update(
                    s.active_list.last().logical_destination as int,
                    s.active_list.last().old_destination,
                ),
                s.active_list.drop_last(),
            ),
            i,
        ) == current_destination(s, i),
{
    let e = s.active_list.last();
    let n = s.active_list.len() - 1;
    assert(s.active_list[n] == e);
    if i < n {
        let t = with_renaming(
            s,
            s.register_map_table.update(e.logical_destination as int, e.old_destination),
            s.active_list.drop_last(),
        );
        assert(t.active_list[i] == s.active_list[i]);
        let logical = s.active_list[i].logical_destination;
        lemma_first_match_drop_last(s.active_list, writes(logical), i + 1);
        lemma_first_match(s.active_list, writes(logical), i + 1);
        let next = first_match(s.active_list, writes(logical), i + 1);
        if next < n {
            assert(t.active_list[next] == s.active_list[next]);
        }
    }
}

/// What is stated of the renaming tables alone carries over to a machine
/// with the same tables.
pub proof fn lemma_same_tables(m: Machine, n: Machine)
    requires
        n.state.register_map_table == m.state.register_map_table,
        n.state.free_list == m.state.free_list,
        n.state.busy_bit_table == m.state.busy_bit_table,
        n.state.active_list == m.state.active_list,
    ensures
        m.registers_partitioned() ==> n.registers_partitioned(),
        m.busy_bits_exact() ==> n.busy_bits_exact(),
        m.active_list_sorted() ==> n.active_list_sorted(),
        forall|i: int| #[trigger] current_destination(n.state, i) == current_destination(m.state, i),
        forall|t: (u64, u32)| #[trigger] accounted(n.state, t) == accounted(m.state, t),
{
    reveal(Machine::registers_partitioned);
    reveal(Machine::busy_bits_exact);
    let s = m.state;
    let r = n.state;
    assert forall|i: int| #[trigger] current_destination(r, i) == current_destination(s, i) by {}
    if m.busy_bits_exact() {
        assert forall|i: int|
            0 <= i < r.active_list.len() && pending(
                #[trigger] r.active_list[i],
            ) implies r.busy_bit_table[current_destination(r, i) as int] by {
            assert(current_destination(r, i) == current_destination(s, i));
        }
        assert forall|p: int|
            0 <= p < r.busy_bit_table.len() && #[trigger] r.busy_bit_table[p] implies exists|
            i: int,
        |
            0 <= i < r.active_list.len() && pending(#[trigger] r.active_list[i])
                && current_destination(r, i) == p by {
            let i = choose|i: int|
                0 <= i < s.active_list.len() && pending(#[trigger] s.active_list[i])
                    && current_destination(s, i) == p;
            assert(current_destination(r, i) == current_destination(s, i));
            assert(pending(r.active_list[i]) && current_destination(r, i) == p);
        }
    }
}

/// Instructions stay accounted for where every slot holds what a slot of
/// its own held in a machine with the same renaming tables: `source` says
/// which, and sends no two occupied slots to the same slot.
pub proof fn lemma_moved_slots(
    m: Machine,
    bm: int,
    n: Machine,
    bn: int,
    source: spec_fn(Slot) -> Slot,
)
    requires
        m.in_flight_accounted(bm),
        n.state.register_map_table == m.state.register_map_table,
        n.state.active_list == m.state.active_list,
        forall|slot: Slot|
            (#[trigger] occupant(n, bn, slot)) is Some ==> occupant(n, bn, slot) == occupant(
                m,
                bm,
                source(slot),
            ),
        forall|x: Slot, y: Slot|
            x != y && (#[trigger] occupant(n, bn, x)) is Some && (#[trigger] occupant(n, bn, y))
                is Some ==> source(x) != source(y),
    ensures
        n.in_flight_accounted(bn),
{
    reveal(Machine::in_flight_accounted);
    assert forall|slot: Slot| (#[trigger] occupant(n, bn, slot)) is Some implies accounted(
        n.state,
        occupant(n, bn, slot)->0,
    ) by {
        assert(occupant(m, bm, source(slot)) is Some);
        assert(accounted(m.state, occupant(m, bm, source(slot))->0));
    }
    assert forall|x: Slot, y: Slot|
        x != y && (#[trigger] occupant(n, bn, x)) is Some && (#[trigger] occupant(n, bn, y))
            is Some implies occupant_pc(n, bn, x) != occupant_pc(n, bn, y) by {
        assert(occupant(m, bm, source(x)) is Some);
        assert(occupant(m, bm, source(y)) is Some);
        assert(occupant_pc(m, bm, source(x)) != occupant_pc(m, bm, source(y)));
    }
}

/// Instructions stay accounted for in a machine with the same renaming
/// tables and the same instruction in every slot.
pub proof fn lemma_same_slots(m: Machine, n: Machine, b: int)
    requires
        m.in_flight_accounted(b),
        n.state.register_map_table == m.state.register_map_table,
        n.state.active_list == m.state.active_list,
        forall|slot: Slot| #[trigger] occupant(n, b, slot) == occupant(m, b, slot),
    ensures
        n.in_flight_accounted(b),
{
    lemma_moved_slots(m, b, n, b, |slot: Slot| slot);
}

/// A partition of the physical registers leaves as many registers free as
/// the active list has room for entries.
pub proof fn lemma_partition_count(m: Machine)
    requires
        m.registers_partitioned(),
    ensures
        m.state.free_list.len() + m.state.active_list.len() + m.state.register_map_table.len()
            == PHYSICAL_REGISTERS,
{
    reveal(Machine::registers_partitioned);
}

/// Every active entry writes a physical register that exists.
pub proof fn lemma_destination_in_range(m: Machine, i: int)
    requires
        m.well_formed(),
        0 <= i < m.state.active_list.len(),
    ensures
        current_destination(m.state, i) < PHYSICAL_REGISTERS,
{
    let a = m.state.active_list;
    let logical = a[i].logical_destination;
    lemma_first_match(a, writes(logical), i + 1);
}

/// No two active entries write the same physical register.
pub proof fn lemma_destinations_differ(m: Machine, i: int, j: int)
    requires
        m.well_formed(),
        m.registers_partitioned(),
        0 <= i < j < m.state.active_list.len(),
    ensures
        current_destination(m.state, i) != current_destination(m.state, j),
{
    reveal(Machine::registers_partitioned);
    let s = m.state;
    let a = s.active_list;
    let li = a[i].logical_destination;
    let lj = a[j].logical_destination;
    lemma_first_match(a, writes(li), i + 1);
    lemma_first_match(a, writes(lj), j + 1);
    let ni = first_match(a, writes(li), i + 1);
    let nj = first_match(a, writes(lj), j + 1);
    if ni < a.len() && nj < a.len() {
        if ni == nj {
            assert(writes(li)(a[ni]));
            assert(writes(lj)(a[nj]));
            assert(li == lj);
            assert(!writes(li)(a[j]));
        } else if ni < nj {
            assert(a[ni].old_destination != a[nj].old_destination);
        } else {
            assert(a[nj].old_destination != a[ni].old_destination);
        }
    } else if ni < a.len() {
        assert(s.register_map_table[lj as int] != a[ni].old_destination);
    } else if nj < a.len() {
        assert(s.register_map_table[li as int] != a[nj].old_destination);
    } else {
        assert(!writes(li)(a[j]));
        assert(li != lj);
        if li < lj {
            assert(s.register_map_table[li as int] != s.register_map_table[lj as int]);
        } else {
            assert(s.register_map_table[lj as int] != s.register_map_table[li as int]);
        }
    }
}

} // verus!
