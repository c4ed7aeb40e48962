//! The fetch stage keeps the pipeline consistent.

use crate::consistency::{lemma_same_slots, lemma_same_tables, occupant, Slot};
use crate::instruction::{decode, line_well_formed, program_well_formed};
use crate::model::{decoded_range, Machine};
use vstd::prelude::*;

verus! {

/// What the lines of a well-formed program decode to: well-formed
/// instructions whose program counters lie in the range and ascend.
pub proof fn lemma_decoded_range(program: Seq<Seq<char>>, lo: int, hi: int)
    requires
        0 <= lo <= hi,
        lo < hi ==> hi <= program.len(),
        program.len() <= u64::MAX,
        program_well_formed(program),
    ensures
        decoded_range(program, lo, hi).len() <= hi - lo,
        forall|j: int|
            0 <= j < decoded_range(program, lo, hi).len() ==> {
                let d = #[trigger] decoded_range(program, lo, hi)[j];
                lo <= d.pc < hi && d.well_formed()
            },
        forall|i: int, j: int|
            0 <= i < j < decoded_range(program, lo, hi).len() ==> (#[trigger] decoded_range(
                program,
                lo,
                hi,
            )[i]).pc < (#[trigger] decoded_range(program, lo, hi)[j]).pc,
    decreases hi - lo,
{
    if hi > lo {
        lemma_decoded_range(program, lo, hi - 1);
        let before = decoded_range(program, lo, hi - 1);
        let line = program[hi - 1];
        assert(line_well_formed(line));
        match decode(line, (hi - 1) as u64) {
            Some(d) => {
                assert(decode(line, 0) is Some);
                assert(decode(line, 0)->0.well_formed());
                assert(d.well_formed());
                let r = before.push(d);
                assert forall|j: int| 0 <= j < r.len() implies {
                    let x = #[trigger] r[j];
                    lo <= x.pc < hi && x.well_formed()
                } by {
                    if j < before.len() {
                        assert(r[j] == before[j]);
                    }
                }
                assert forall|i: int, j: int| 0 <= i < j < r.len() implies (#[trigger] r[i]).pc < (
                #[trigger] r[j]).pc by {
                    assert(r[i] == before[i]);
                    if j < before.len() {
                        assert(r[j] == before[j]);
                    }
                }
            },
            None => {},
        }
    }
}

/// The fetch stage keeps the pipeline consistent.
pub proof fn lemma_fetch_consistent(m: Machine)
    requires
        m.consistent(),
    ensures
        m.fetch().consistent(),
{
    let s = m.state;
    let n = m.fetch();
    let r = n.state;
    let b = m.alus.len() as int;
    if !(s.backpressure || s.exception) {
        let k = m.fetch_count() as int;
        lemma_decoded_range(m.program, s.pc as int, s.pc + k);
        let new = decoded_range(m.program, s.pc as int, s.pc + k);
        assert forall|j: int| 0 <= j < r.decoded.len() implies #[trigger] r.decoded[j] == if j
            < s.decoded.len() {
            s.decoded[j]
        } else {
            new[j - s.decoded.len()]
        } by {}
        assert(n.well_formed());
        lemma_same_tables(m, n);
        assert forall|slot: Slot| #[trigger] occupant(n, b, slot) == occupant(m, b, slot) by {}
        lemma_same_slots(m, n, b);
        assert(n.waiting_operands_busy());
        assert(n.program_order()) by {
            assert forall|i: int, j: int| 0 <= i < j < r.decoded.len() implies (
            #[trigger] r.decoded[i]).pc < (#[trigger] r.decoded[j]).pc by {
                if j < s.decoded.len() {
                    assert(s.decoded[i].pc < s.decoded[j].pc);
                } else if i < s.decoded.len() {
                    assert(s.decoded[i].pc < s.pc);
                    assert(new[j - s.decoded.len()].pc >= s.pc);
                } else {
                    assert(new[i - s.decoded.len()].pc < new[j - s.decoded.len()].pc);
                }
            }
            assert forall|i: int, j: int|
                0 <= i < r.active_list.len() && 0 <= j < r.decoded.len() implies (
            #[trigger] r.active_list[i]).pc < (#[trigger] r.decoded[j]).pc by {
                if j < s.decoded.len() {
                    assert(s.active_list[i].pc < s.decoded[j].pc);
                } else {
                    assert(s.active_list[i].pc < s.pc);
                    assert(new[j - s.decoded.len()].pc >= s.pc);
                }
            }
            assert forall|j: int| 0 <= j < r.decoded.len() implies (#[trigger] r.decoded[j]).pc
                < r.pc by {
                if j < s.decoded.len() {
                    assert(s.decoded[j].pc < s.pc);
                } else {
                    assert(new[j - s.decoded.len()].pc < s.pc + k);
                }
            }
            assert forall|i: int| 0 <= i < r.active_list.len() implies (
            #[trigger] r.active_list[i]).pc < r.pc by {
                assert(s.active_list[i].pc < s.pc);
            }
        }
    }
}

} // verus!
