//! The issue stage keeps the pipeline consistent.

use crate::alu::Unit;
use crate::consistency::{lemma_moved_slots, lemma_same_tables, occupant, Slot};
use crate::entries::QueueEntry;
use crate::instruction::opcode_of;
use crate::model::{issue_units, oldest_ready, unit_well_formed, Machine};
use crate::state::State;
use vstd::prelude::*;

verus! {

/// What [`oldest_ready`] finds among the first `n` entries: a ready entry
/// that no other ready entry precedes, by program counter first and by
/// position second; nothing only where no entry is ready.
pub proof fn lemma_oldest_ready(queue: Seq<QueueEntry>, n: int)
    requires
        0 <= n <= queue.len(),
    ensures
        match oldest_ready(queue, n) {
            Some(i) => {
                &&& 0 <= i < n
                &&& queue[i].ready()
                &&& forall|j: int|
                    0 <= j < n && (#[trigger] queue[j]).ready() ==> queue[i].pc < queue[j].pc || (
                    queue[i].pc == queue[j].pc && i <= j)
            },
            None => forall|j: int| 0 <= j < n ==> !(#[trigger] queue[j]).ready(),
        },
    decreases n,
{
    if n > 0 {
        lemma_oldest_ready(queue, n - 1);
    }
}

/// The machine after the queue entry at position `i` was bound to unit `u`.
pub open spec fn bind(m: Machine, i: int, u: int) -> Machine {
    Machine {
        state: State { integer_queue: m.state.integer_queue.remove(i), ..m.state },
        alus: m.alus.update(u, Unit { in_flight: Some(m.state.integer_queue[i]), ..m.alus[u] }),
        ..m
    }
}

/// The slot that held, before queue entry `i` was bound to unit `u`, what
/// `slot` holds after.
pub open spec fn before_bind(i: int, u: int) -> spec_fn(Slot) -> Slot {
    |slot: Slot|
        match slot {
            Slot::Queued(j) => if j < i {
                Slot::Queued(j)
            } else {
                Slot::Queued(j + 1)
            },
            Slot::Bound(v) => if v == u {
                Slot::Queued(i)
            } else {
                Slot::Bound(v)
            },
            Slot::Computed(v) => Slot::Computed(v),
            Slot::Forwarded(v) => Slot::Forwarded(v),
        }
}

/// Binding a queue entry to a free unit keeps a machine well formed.
proof fn lemma_bind_well_formed(m: Machine, i: int, u: int)
    requires
        m.well_formed(),
        0 <= i < m.state.integer_queue.len(),
        0 <= u < m.alus.len(),
    ensures
        bind(m, i, u).well_formed(),
{
    let n = bind(m, i, u);
    let q = n.state.integer_queue;
    assert(unit_well_formed(m.alus[u]));
    assert forall|k: int| 0 <= k < q.len() implies (#[trigger] q[k]).dest_register < 64
        && opcode_of(q[k].op_code) is Some by {
        if k < i {
            assert(q[k] == m.state.integer_queue[k]);
        } else {
            assert(q[k] == m.state.integer_queue[k + 1]);
        }
    }
    assert forall|k: int| 0 <= k < n.alus.len() implies unit_well_formed(#[trigger] n.alus[k]) by {
        if k != u {
            assert(n.alus[k] == m.alus[k]);
            assert(unit_well_formed(m.alus[k]));
        }
    }
}

/// Binding a queue entry to a free unit keeps every instruction in flight
/// accounted for.
proof fn lemma_bind_accounted(m: Machine, i: int, u: int, b: int)
    requires
        m.in_flight_accounted(b),
        0 <= i < m.state.integer_queue.len(),
        0 <= u < m.alus.len(),
        m.alus[u].in_flight is None,
    ensures
        bind(m, i, u).in_flight_accounted(b),
{
    let n = bind(m, i, u);
    let source = before_bind(i, u);
    assert forall|slot: Slot| (#[trigger] occupant(n, b, slot)) is Some implies occupant(n, b, slot)
        == occupant(m, b, source(slot)) by {
        match slot {
            Slot::Queued(j) => {
                if j < i {
                    assert(n.state.integer_queue[j] == m.state.integer_queue[j]);
                } else {
                    assert(n.state.integer_queue[j] == m.state.integer_queue[j + 1]);
                }
            },
            Slot::Bound(v) => {
                if v != u {
                    assert(n.alus[v] == m.alus[v]);
                }
            },
            Slot::Computed(v) => {
                if v != u {
                    assert(n.alus[v] == m.alus[v]);
                }
            },
            Slot::Forwarded(v) => {
                if v != u {
                    assert(n.alus[v] == m.alus[v]);
                }
            },
        }
    }
    assert forall|x: Slot, y: Slot|
        x != y && (#[trigger] occupant(n, b, x)) is Some && (#[trigger] occupant(n, b, y))
            is Some implies source(x) != source(y) by {
        match x {
            Slot::Bound(v) => {
                if v != u {
                    assert(n.alus[v] == m.alus[v]);
                }
            },
            _ => {},
        }
        match y {
            Slot::Bound(v) => {
                if v != u {
                    assert(n.alus[v] == m.alus[v]);
                }
            },
            _ => {},
        }
    }
    lemma_moved_slots(m, b, n, b, source);
}

/// Binding a queue entry to a free unit keeps the pipeline consistent.
pub proof fn lemma_bind_consistent(m: Machine, i: int, u: int)
    requires
        m.consistent(),
        0 <= i < m.state.integer_queue.len(),
        0 <= u < m.alus.len(),
        m.alus[u].in_flight is None,
    ensures
        bind(m, i, u).consistent(),
{
    let n = bind(m, i, u);
    let q = n.state.integer_queue;
    lemma_bind_well_formed(m, i, u);
    lemma_same_tables(m, n);
    lemma_bind_accounted(m, i, u, m.alus.len() as int);
    assert(n.waiting_operands_busy()) by {
        assert forall|k: int| 0 <= k < q.len() implies {
            let e = #[trigger] q[k];
            &&& !e.op_a_is_ready ==> e.op_a_reg_tag < n.state.busy_bit_table.len()
                && n.state.busy_bit_table[e.op_a_reg_tag as int]
            &&& !e.op_b_is_ready ==> e.op_b_reg_tag < n.state.busy_bit_table.len()
                && n.state.busy_bit_table[e.op_b_reg_tag as int]
        } by {
            if k < i {
                assert(q[k] == m.state.integer_queue[k]);
            } else {
                assert(q[k] == m.state.integer_queue[k + 1]);
            }
        }
    }
    assert(n.program_order());
}

/// Considering the first `n` units for issue keeps the pipeline
/// consistent.
pub proof fn lemma_issue_units_consistent(m: Machine, n: int)
    requires
        m.consistent(),
        0 <= n <= m.alus.len(),
    ensures
        (Machine {
            state: State {
                integer_queue: issue_units(m.state.integer_queue, m.alus, n).0,
                ..m.state
            },
            alus: issue_units(m.state.integer_queue, m.alus, n).1,
            ..m
        }).consistent(),
        issue_units(m.state.integer_queue, m.alus, n).1.len() == m.alus.len(),
    decreases n,
{
    if n <= 0 {
        assert(Machine {
            state: State {
                integer_queue: issue_units(m.state.integer_queue, m.alus, n).0,
                ..m.state
            },
            alus: issue_units(m.state.integer_queue, m.alus, n).1,
            ..m
        } == m);
    } else {
        lemma_issue_units_consistent(m, n - 1);
        let (q, a) = issue_units(m.state.integer_queue, m.alus, n - 1);
        let before = Machine { state: State { integer_queue: q, ..m.state }, alus: a, ..m };
        lemma_oldest_ready(q, q.len() as int);
        match oldest_ready(q, q.len() as int) {
            Some(i) => {
                if a[n - 1].is_free() {
                    lemma_bind_consistent(before, i, n - 1);
                    assert(bind(before, i, n - 1) == Machine {
                        state: State {
                            integer_queue: issue_units(m.state.integer_queue, m.alus, n).0,
                            ..m.state
                        },
                        alus: issue_units(m.state.integer_queue, m.alus, n).1,
                        ..m
                    });
                }
            },
            None => {},
        }
    }
}

/// The issue stage keeps the pipeline consistent.
pub proof fn lemma_issue_consistent(m: Machine)
    requires
        m.consistent(),
    ensures
        m.issue().consistent(),
{
    lemma_issue_units_consistent(m, m.alus.len() as int);
}

} // verus!
