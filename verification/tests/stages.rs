use ooo_pipeline::entries::{ActiveEntry, IntegerQueueEntry};
use ooo_pipeline::instruction::{check_program, DecodedInstructionEntry};
use ooo_pipeline::simulator::Simulator;
use ooo_pipeline::state::{decoded_pc_values, SimulatorState};

fn load(lines: &[String]) -> Simulator {
    let program: Vec<String> = lines.to_vec();
    assert!(check_program(&program));
    Simulator::new(program)
}

fn finish(mut sim: Simulator) -> Simulator {
    sim.dump_state_into_log();
    let mut cycles = 0;
    while !sim.done() {
        sim.simulate_cycle();
        sim.dump_state_into_log();
        cycles += 1;
        assert!(cycles < 10_000);
    }
    sim
}

fn run(lines: &[&str]) -> Simulator {
    let owned: Vec<String> = lines.iter().map(|l| l.to_string()).collect();
    finish(load(&owned))
}

fn pcs(s: &SimulatorState) -> Vec<u64> {
    s.decoded_pcs.iter().map(|d| d.pc).collect()
}

fn architectural(s: &SimulatorState, x: usize) -> u64 {
    s.physical_register_file[s.register_map_table[x] as usize]
}

fn ready_entry(pc: u64, dest: u32) -> IntegerQueueEntry {
    IntegerQueueEntry {
        dest_register: dest,
        op_a_is_ready: true,
        op_a_reg_tag: 0,
        op_a_value: pc,
        op_b_is_ready: true,
        op_b_reg_tag: 0,
        op_b_value: 1,
        op_code: "add".to_string(),
        pc,
    }
}

fn decoded_addi(pc: u64, dest: u32) -> DecodedInstructionEntry {
    DecodedInstructionEntry {
        pc,
        op: "add".to_string(),
        is_imm: true,
        dest: format!("x{}", dest),
        src1: "x0".to_string(),
        src2: "1".to_string(),
    }
}

#[test]
fn new_simulator_is_at_reset() {
    let sim = load(&["addi x1, x0, 7".to_string()]);
    assert_eq!(sim.program, vec!["addi x1, x0, 7".to_string()]);
    assert!(sim.log.is_empty());
    assert_eq!(sim.alus.len(), 4);
    assert!(sim.alus.iter().all(|a| a.is_free() && a.forwarding.is_none()));
    assert_eq!(sim.state.pc, 0);
    assert_eq!(sim.state.register_map_table, (0..32).collect::<Vec<u32>>());
    assert!(!sim.done());
}

#[test]
fn default_state_and_clone() {
    let s = SimulatorState::default();
    assert_eq!(s.physical_register_file.len(), 64);
    assert_eq!(s.busy_bit_table.len(), 64);
    assert_eq!(s.free_list.iter().copied().collect::<Vec<u32>>(), (32..64).collect::<Vec<u32>>());
    let mut t = s.clone();
    t.pc = 9;
    t.free_list.pop_front();
    assert_eq!(s.pc, 0);
    assert_eq!(s.free_list.len(), 32);
    assert_eq!(t.free_list.len(), 31);
}

#[test]
fn dump_appends_a_copy_of_the_state() {
    let mut sim = load(&["addi x1, x0, 7".to_string()]);
    sim.dump_state_into_log();
    sim.simulate_cycle();
    sim.dump_state_into_log();
    assert_eq!(sim.log.len(), 2);
    assert_eq!(sim.log[0].pc, 0);
    assert!(sim.log[0].decoded_pcs.is_empty());
    assert_eq!(sim.log[1].pc, 1);
    assert_eq!(pcs(&sim.log[1]), vec![0]);
}

#[test]
fn decoded_pc_values_lists_the_program_counters() {
    let v = vec![decoded_addi(3, 1), decoded_addi(5, 2), decoded_addi(8, 3)];
    assert_eq!(decoded_pc_values(&v), vec![3, 5, 8]);
    assert_eq!(decoded_pc_values(&Vec::new()), Vec::<u64>::new());
}

#[test]
fn fetch_takes_four_lines_per_cycle() {
    let lines: Vec<String> = (1..=6).map(|i| format!("addi x{}, x0, {}", i, i)).collect();
    let mut sim = load(&lines);
    sim.fetch_and_decode();
    assert_eq!(sim.state.pc, 4);
    assert_eq!(pcs(&sim.state), vec![0, 1, 2, 3]);
    assert_eq!(sim.state.decoded_pcs[2].dest, "x3");
    assert_eq!(sim.state.decoded_pcs[2].src2, "3");
    assert!(sim.state.decoded_pcs[2].is_imm);
    sim.fetch_and_decode();
    assert_eq!(sim.state.pc, 6);
    assert_eq!(pcs(&sim.state), vec![0, 1, 2, 3, 4, 5]);
    sim.fetch_and_decode();
    assert_eq!(sim.state.pc, 6);
    assert_eq!(sim.state.decoded_pcs.len(), 6);
}

#[test]
fn fetch_skips_short_lines_and_still_advances() {
    let mut sim = load(&[
        "".to_string(),
        "addi x1, x0, 1".to_string(),
        "bad line".to_string(),
        "addi x2, x0, 2".to_string(),
        "addi x3, x0, 3".to_string(),
    ]);
    sim.fetch_and_decode();
    assert_eq!(sim.state.pc, 4);
    assert_eq!(pcs(&sim.state), vec![1, 3]);
    let sim = finish(sim);
    assert_eq!(sim.state.pc, 5);
    assert_eq!(architectural(&sim.state, 1), 1);
    assert_eq!(architectural(&sim.state, 2), 2);
    assert_eq!(architectural(&sim.state, 3), 3);
}

#[test]
fn program_of_short_lines_only_ends() {
    let sim = run(&["", "nop", "a b c"]);
    assert_eq!(sim.state.pc, 3);
    assert_eq!(sim.log.len(), 2);
    assert_eq!(sim.state.free_list.len(), 32);
}

#[test]
fn fetch_halts_under_backpressure_and_while_unwinding() {
    let mut sim = load(&["addi x1, x0, 1".to_string()]);
    sim.state.backpressure = true;
    sim.fetch_and_decode();
    assert_eq!(sim.state.pc, 0);
    assert!(sim.state.decoded_pcs.is_empty());
    sim.state.backpressure = false;
    sim.state.exception = true;
    sim.fetch_and_decode();
    assert_eq!(sim.state.pc, 0);
    assert!(sim.state.decoded_pcs.is_empty());
}

#[test]
fn operand_state_reads_map_busy_bit_and_register() {
    let mut sim = load(&[]);
    sim.state.register_map_table[5] = 40;
    sim.state.physical_register_file[40] = 99;
    assert_eq!(sim.get_operand_state("x5", false), (true, 0, 99));
    sim.state.busy_bit_table[40] = true;
    assert_eq!(sim.get_operand_state("x5", false), (false, 40, 0));
    assert_eq!(sim.get_operand_state("123", true), (true, 0, 123));
}

#[test]
fn rename_reads_the_result_of_an_older_instruction_in_its_group() {
    let mut sim = load(&["addi x1, x0, 3".to_string(), "add x2, x1, x1".to_string()]);
    sim.fetch_and_decode();
    sim.rename_and_dispatch();
    assert!(!sim.state.backpressure);
    assert!(sim.state.decoded_pcs.is_empty());
    assert_eq!(sim.state.register_map_table[1], 32);
    assert_eq!(sim.state.register_map_table[2], 33);
    assert_eq!(sim.state.free_list.front().copied(), Some(34));
    assert!(sim.state.busy_bit_table[32] && sim.state.busy_bit_table[33]);
    assert_eq!(
        sim.state.active_list.iter().copied().collect::<Vec<ActiveEntry>>(),
        vec![
            ActiveEntry { done: false, exception: false, logical_destination: 1, old_destination: 1, pc: 0 },
            ActiveEntry { done: false, exception: false, logical_destination: 2, old_destination: 2, pc: 1 },
        ]
    );
    let q = &sim.state.integer_queue[1];
    assert_eq!((q.op_a_is_ready, q.op_a_reg_tag, q.op_a_value), (false, 32, 0));
    assert_eq!((q.op_b_is_ready, q.op_b_reg_tag, q.op_b_value), (false, 32, 0));
    assert_eq!(q.dest_register, 33);
    assert_eq!(q.op_code, "add");
}

#[test]
fn rename_twice_to_one_register_keeps_the_chain_of_old_mappings() {
    let mut sim = load(&["addi x1, x0, 3".to_string(), "addi x1, x0, 4".to_string()]);
    sim.fetch_and_decode();
    sim.rename_and_dispatch();
    assert_eq!(sim.state.active_list[0].old_destination, 1);
    assert_eq!(sim.state.active_list[1].old_destination, 32);
    assert_eq!(sim.state.register_map_table[1], 33);
    let sim = finish(sim);
    assert_eq!(architectural(&sim.state, 1), 4);
    let free: Vec<u32> = sim.state.free_list.iter().copied().collect();
    assert_eq!(free[30..], [1, 32]);
}

#[test]
fn rename_accepts_a_group_that_fills_queue_and_active_list_exactly() {
    let mut sim = load(&[]);
    for i in 0..28u64 {
        sim.state.integer_queue.push(ready_entry(i, 0));
        sim.state.active_list.push_back(ActiveEntry {
            done: false,
            exception: false,
            logical_destination: 0,
            old_destination: 0,
            pc: i,
        });
    }
    for i in 28..32u64 {
        sim.state.decoded_pcs.push(decoded_addi(i, 1));
    }
    sim.rename_and_dispatch();
    assert!(!sim.state.backpressure);
    assert!(sim.state.decoded_pcs.is_empty());
    assert_eq!(sim.state.integer_queue.len(), 32);
    assert_eq!(sim.state.active_list.len(), 32);
    assert_eq!(sim.state.free_list.len(), 28);
    // Four-wide issue drains the 32 entries in eight cycles, oldest first.
    for cycle in 0..8u64 {
        for alu in sim.alus.iter_mut() {
            alu.execute();
        }
        sim.issue();
        assert_eq!(sim.state.integer_queue.len() as u64, 32 - 4 * (cycle + 1));
        for (u, alu) in sim.alus.iter().enumerate() {
            assert_eq!(alu.instruction_in_flight.as_ref().unwrap().pc, 4 * cycle + u as u64);
        }
    }
}

#[test]
fn thirty_third_instruction_is_refused_for_one_cycle() {
    let mut sim = load(&[]);
    for i in 0..32u64 {
        sim.state.integer_queue.push(ready_entry(i, 0));
    }
    sim.state.decoded_pcs.push(decoded_addi(32, 1));
    sim.rename_and_dispatch();
    assert!(sim.state.backpressure);
    assert_eq!(pcs(&sim.state), vec![32]);
    assert_eq!(sim.state.integer_queue.len(), 32);
    assert!(sim.state.active_list.is_empty());
    assert_eq!(sim.state.free_list.len(), 32);
    sim.fetch_and_decode();
    assert_eq!(pcs(&sim.state), vec![32]);
    // In the next cycle issue makes room and the group is accepted.
    sim.issue();
    sim.rename_and_dispatch();
    assert!(!sim.state.backpressure);
    assert!(sim.state.decoded_pcs.is_empty());
    assert_eq!(sim.state.integer_queue.len(), 29);
    assert_eq!(sim.state.active_list.len(), 1);
}

#[test]
fn rename_stalls_on_each_of_the_three_limits() {
    // The active list is the limit.
    let mut sim = load(&[]);
    for i in 0..32u64 {
        sim.state.active_list.push_back(ActiveEntry {
            done: false,
            exception: false,
            logical_destination: 0,
            old_destination: 0,
            pc: i,
        });
    }
    sim.state.decoded_pcs.push(decoded_addi(32, 1));
    sim.rename_and_dispatch();
    assert!(sim.state.backpressure);
    assert_eq!(sim.state.decoded_pcs.len(), 1);
    // The free list is the limit.
    let mut sim = load(&[]);
    while sim.state.free_list.len() > 1 {
        sim.state.free_list.pop_front();
    }
    sim.state.decoded_pcs.push(decoded_addi(0, 1));
    sim.state.decoded_pcs.push(decoded_addi(1, 2));
    sim.rename_and_dispatch();
    assert!(sim.state.backpressure);
    assert_eq!(sim.state.decoded_pcs.len(), 2);
    assert_eq!(sim.state.free_list.len(), 1);
    // An empty decoded buffer clears the flag.
    let mut sim = load(&[]);
    sim.state.backpressure = true;
    sim.rename_and_dispatch();
    assert!(!sim.state.backpressure);
}

#[test]
fn issue_takes_the_oldest_ready_entries_for_the_free_units() {
    let mut sim = load(&[]);
    let mut waiting = ready_entry(1, 41);
    waiting.op_b_is_ready = false;
    waiting.op_b_reg_tag = 50;
    for e in [ready_entry(9, 40), waiting, ready_entry(3, 42), ready_entry(7, 43), ready_entry(5, 44), ready_entry(2, 45)] {
        sim.state.integer_queue.push(e);
    }
    sim.alus[1].push_instr(ready_entry(0, 39));
    sim.issue();
    assert_eq!(sim.alus[0].instruction_in_flight.as_ref().unwrap().pc, 2);
    assert_eq!(sim.alus[1].instruction_in_flight.as_ref().unwrap().pc, 0);
    assert_eq!(sim.alus[2].instruction_in_flight.as_ref().unwrap().pc, 3);
    assert_eq!(sim.alus[3].instruction_in_flight.as_ref().unwrap().pc, 5);
    let left: Vec<u64> = sim.state.integer_queue.iter().map(|e| e.pc).collect();
    assert_eq!(left, vec![9, 1, 7]);
    // No unit is free: nothing moves.
    sim.issue();
    assert_eq!(sim.state.integer_queue.len(), 3);
}

#[test]
fn execute_forwards_and_wakes_waiting_operands() {
    let mut sim = load(&[]);
    sim.state.active_list.push_back(ActiveEntry {
        done: false,
        exception: false,
        logical_destination: 1,
        old_destination: 1,
        pc: 0,
    });
    sim.state.busy_bit_table[32] = true;
    let mut consumer = ready_entry(1, 33);
    consumer.op_a_is_ready = false;
    consumer.op_a_reg_tag = 32;
    consumer.op_a_value = 0;
    consumer.op_b_is_ready = false;
    consumer.op_b_reg_tag = 32;
    consumer.op_b_value = 0;
    let mut other = ready_entry(2, 34);
    other.op_a_is_ready = false;
    other.op_a_reg_tag = 35;
    other.op_a_value = 0;
    sim.state.integer_queue.push(consumer);
    sim.state.integer_queue.push(other);
    let mut producer = ready_entry(0, 32);
    producer.op_a_value = 20;
    producer.op_b_value = 22;
    sim.alus[2].push_instr(producer);
    sim.execute();
    assert!(sim.state.busy_bit_table[32]);
    assert!(!sim.state.active_list[0].done);
    sim.execute();
    assert!(!sim.state.busy_bit_table[32]);
    assert_eq!(sim.state.physical_register_file[32], 42);
    assert!(sim.state.active_list[0].done);
    assert!(!sim.state.active_list[0].exception);
    let c = &sim.state.integer_queue[0];
    assert_eq!((c.op_a_is_ready, c.op_a_reg_tag, c.op_a_value), (true, 0, 42));
    assert_eq!((c.op_b_is_ready, c.op_b_reg_tag, c.op_b_value), (true, 0, 42));
    let o = &sim.state.integer_queue[1];
    assert_eq!((o.op_a_is_ready, o.op_a_reg_tag, o.op_a_value), (false, 35, 0));
}

#[test]
fn execute_keeps_a_faulting_register_busy_and_unwritten() {
    let mut sim = load(&[]);
    sim.state.active_list.push_back(ActiveEntry {
        done: false,
        exception: false,
        logical_destination: 1,
        old_destination: 1,
        pc: 0,
    });
    sim.state.busy_bit_table[32] = true;
    sim.state.physical_register_file[32] = 5;
    let mut divide = ready_entry(0, 32);
    divide.op_code = "divu".to_string();
    divide.op_b_value = 0;
    sim.alus[0].push_instr(divide);
    sim.execute();
    sim.execute();
    assert!(sim.state.active_list[0].done);
    assert!(sim.state.active_list[0].exception);
    assert!(sim.state.busy_bit_table[32]);
    assert_eq!(sim.state.physical_register_file[32], 5);
}

#[test]
fn commit_retires_at_most_four_entries_in_order() {
    let mut sim = load(&[]);
    for i in 0..6u32 {
        sim.state.active_list.push_back(ActiveEntry {
            done: i != 5,
            exception: false,
            logical_destination: i,
            old_destination: i,
            pc: i as u64,
        });
        sim.state.free_list.pop_front();
    }
    assert!(!sim.commit());
    assert_eq!(sim.state.active_list.len(), 2);
    assert_eq!(sim.state.active_list[0].pc, 4);
    let free: Vec<u32> = sim.state.free_list.iter().copied().collect();
    assert_eq!(free[26..], [0, 1, 2, 3]);
    assert!(!sim.commit());
    assert_eq!(sim.state.active_list.len(), 1);
    assert_eq!(sim.state.free_list.back().copied(), Some(4));
    assert!(!sim.commit());
    assert_eq!(sim.state.active_list.len(), 1);
}

#[test]
fn commit_traps_on_a_faulted_head_and_keeps_it() {
    let mut sim = load(&["addi x1, x0, 1".to_string()]);
    sim.state.active_list.push_back(ActiveEntry { done: true, exception: false, logical_destination: 1, old_destination: 1, pc: 6 });
    sim.state.active_list.push_back(ActiveEntry { done: true, exception: true, logical_destination: 2, old_destination: 2, pc: 7 });
    sim.state.active_list.push_back(ActiveEntry { done: true, exception: false, logical_destination: 3, old_destination: 3, pc: 8 });
    sim.state.pc = 12;
    sim.state.integer_queue.push(ready_entry(9, 40));
    sim.state.decoded_pcs.push(decoded_addi(10, 4));
    sim.alus[0].push_instr(ready_entry(8, 41));
    sim.alus[1].execute();
    assert!(sim.commit());
    assert!(sim.state.exception);
    assert_eq!(sim.state.exception_pc, 7);
    assert_eq!(sim.state.pc, 0x10000);
    assert!(sim.state.integer_queue.is_empty());
    assert!(sim.state.decoded_pcs.is_empty());
    assert!(sim.alus.iter().all(|a| a.is_free() && a.forwarding.is_none() && a.pipeline_stage1.is_none()));
    assert_eq!(sim.state.active_list.len(), 2);
    assert_eq!(sim.state.active_list[0].pc, 7);
    assert_eq!(sim.state.free_list.back().copied(), Some(1));
}

#[test]
fn commit_does_not_trap_on_a_fifth_entry() {
    let mut sim = load(&[]);
    for i in 0..5u32 {
        sim.state.active_list.push_back(ActiveEntry {
            done: true,
            exception: i == 4,
            logical_destination: i,
            old_destination: i,
            pc: i as u64,
        });
    }
    assert!(!sim.commit());
    assert!(!sim.state.exception);
    assert_eq!(sim.state.active_list.len(), 1);
    assert!(sim.commit());
    assert!(sim.state.exception);
    assert_eq!(sim.state.exception_pc, 4);
}

#[test]
fn commit_unwinds_four_entries_per_cycle_youngest_first() {
    let mut sim = load(&[]);
    sim.state.exception = true;
    sim.state.pc = 0x10000;
    // Six renamings of x1 in a row, through physical registers 32 to 37.
    for i in 0..6u32 {
        let old = if i == 0 { 1 } else { 31 + i };
        sim.state.active_list.push_back(ActiveEntry {
            done: false,
            exception: false,
            logical_destination: 1,
            old_destination: old,
            pc: i as u64,
        });
        sim.state.free_list.pop_front();
        sim.state.busy_bit_table[32 + i as usize] = true;
    }
    sim.state.register_map_table[1] = 37;
    assert!(sim.commit());
    assert_eq!(sim.state.active_list.len(), 2);
    assert_eq!(sim.state.register_map_table[1], 33);
    let free: Vec<u32> = sim.state.free_list.iter().copied().collect();
    assert_eq!(free[26..], [37, 36, 35, 34]);
    assert!(sim.state.busy_bit_table[32] && sim.state.busy_bit_table[33]);
    assert!(!sim.state.busy_bit_table[34] && !sim.state.busy_bit_table[37]);
    assert!(sim.state.exception);
    assert!(sim.commit());
    assert!(sim.state.active_list.is_empty());
    assert_eq!(sim.state.register_map_table[1], 1);
    assert!(sim.state.exception);
    assert!(!sim.done());
    // The cooldown cycle clears the flag without a stall.
    assert!(!sim.commit());
    assert!(!sim.state.exception);
    assert!(sim.done());
}

#[test]
fn done_needs_an_empty_pipeline_and_the_end_of_the_program() {
    let mut sim = load(&["addi x1, x0, 1".to_string()]);
    assert!(!sim.done());
    sim.state.pc = 1;
    assert!(sim.done());
    sim.state.pc = 7;
    assert!(sim.done());
    sim.state.decoded_pcs.push(decoded_addi(0, 1));
    assert!(!sim.done());
    sim.state.decoded_pcs.clear();
    sim.state.integer_queue.push(ready_entry(0, 40));
    assert!(!sim.done());
    sim.state.integer_queue.clear();
    sim.state.active_list.push_back(ActiveEntry { done: true, exception: false, logical_destination: 1, old_destination: 1, pc: 0 });
    assert!(!sim.done());
    sim.state.active_list.clear();
    sim.state.pc = 0x10000;
    sim.state.exception = true;
    assert!(!sim.done());
    sim.state.exception = false;
    assert!(sim.done());
}

#[test]
fn a_stalled_cycle_skips_the_other_stages() {
    let mut sim = load(&["addi x1, x0, 1".to_string()]);
    sim.state.active_list.push_back(ActiveEntry { done: true, exception: true, logical_destination: 2, old_destination: 2, pc: 0 });
    sim.state.register_map_table[2] = 32;
    sim.state.free_list.pop_front();
    sim.state.busy_bit_table[32] = true;
    sim.simulate_cycle();
    assert!(sim.state.exception);
    assert_eq!(sim.state.pc, 0x10000);
    assert!(sim.state.decoded_pcs.is_empty());
    assert_eq!(sim.state.active_list.len(), 1);
    sim.simulate_cycle();
    assert!(sim.state.active_list.is_empty());
    assert_eq!(sim.state.register_map_table[2], 2);
    assert_eq!(sim.state.free_list.back().copied(), Some(32));
    assert!(!sim.state.busy_bit_table[32]);
    assert!(sim.state.exception);
    sim.simulate_cycle();
    assert!(!sim.state.exception);
    assert!(sim.done());
}

#[test]
fn arithmetic_wraps_through_the_pipeline() {
    let sim = run(&[
        "addi x1, x0, 18446744073709551615",
        "addi x2, x1, 1",
        "sub x3, x0, x1",
        "mulu x4, x1, x1",
        "addi x5, x0, 42",
        "addi x6, x0, 5",
        "divu x7, x5, x6",
        "remu x8, x5, x6",
    ]);
    assert_eq!(architectural(&sim.state, 1), u64::MAX);
    assert_eq!(architectural(&sim.state, 2), 0);
    assert_eq!(architectural(&sim.state, 3), 1);
    assert_eq!(architectural(&sim.state, 4), 1);
    assert_eq!(architectural(&sim.state, 7), 8);
    assert_eq!(architectural(&sim.state, 8), 2);
    assert!(!sim.state.exception);
    assert_eq!(sim.state.pc, 8);
}

#[test]
fn thirty_two_independent_additions_never_stall() {
    let lines: Vec<String> = (0..32).map(|i| format!("addi x{}, x{}, {}", i, i, i + 100)).collect();
    let sim = finish(load(&lines));
    assert!(sim.log.iter().all(|s| !s.backpressure));
    assert!(sim.log.iter().all(|s| s.integer_queue.len() <= 4));
    assert!(sim.log.iter().all(|s| s.active_list.len() <= 32));
    for i in 0..32usize {
        assert_eq!(sim.state.register_map_table[i], 32 + i as u32);
        assert_eq!(architectural(&sim.state, i), i as u64 + 100);
    }
    let free: Vec<u32> = sim.state.free_list.iter().copied().collect();
    assert_eq!(free, (0..32).collect::<Vec<u32>>());
    // Eight groups of four, renamed in cycles 2 to 9, retire in cycles 6 to 13.
    assert_eq!(sim.log.len(), 14);
}

#[test]
fn a_dependent_chain_fills_the_pipeline_and_stalls_rename() {
    let lines: Vec<String> = (0..48).map(|_| "addi x1, x1, 1".to_string()).collect();
    let sim = finish(load(&lines));
    let stalled: Vec<usize> = (0..sim.log.len()).filter(|&i| sim.log[i].backpressure).collect();
    assert!(!stalled.is_empty());
    for &i in &stalled {
        let s = &sim.log[i];
        let p = &sim.log[i - 1];
        let n = s.decoded_pcs.len();
        assert!(n > 0);
        assert!(s.integer_queue.len() + n > 32 || s.active_list.len() + n > 32 || s.free_list.len() < n);
        // The refused group stays, and nothing is fetched.
        assert_eq!(pcs(s), pcs(p));
        assert_eq!(s.pc, p.pc);
    }
    assert!(sim.log.iter().all(|s| s.integer_queue.len() <= 32 && s.active_list.len() <= 32));
    assert_eq!(architectural(&sim.state, 1), 48);
    assert_eq!(sim.state.pc, 48);
}

#[test]
fn a_fault_is_precise() {
    let sim = run(&[
        "addi x1, x0, 5",
        "addi x2, x0, 0",
        "divu x3, x1, x2",
        "addi x4, x0, 9",
        "addi x5, x1, 1",
        "addi x1, x0, 77",
    ]);
    let s = &sim.state;
    assert_eq!(s.exception_pc, 2);
    assert_eq!(s.pc, 0x10000);
    assert!(!s.exception);
    assert!(s.active_list.is_empty() && s.integer_queue.is_empty() && s.decoded_pcs.is_empty());
    assert_eq!(s.busy_bit_table, vec![false; 64]);
    // The older instructions are committed.
    assert_eq!(s.register_map_table[1], 32);
    assert_eq!(s.register_map_table[2], 33);
    assert_eq!(architectural(s, 1), 5);
    assert_eq!(architectural(s, 2), 0);
    // The faulting instruction and every younger one are undone.
    for x in [3usize, 4, 5] {
        assert_eq!(s.register_map_table[x], x as u32);
        assert_eq!(architectural(s, x), 0);
    }
    assert_eq!(s.free_list.len(), 32);
    let mut free: Vec<u32> = s.free_list.iter().copied().collect();
    free.sort();
    let mut expected: Vec<u32> = (34..64).collect();
    expected.extend([1, 2]);
    expected.sort();
    assert_eq!(free, expected);
    // The pipeline unwinds, then cools down for one cycle.
    let n = sim.log.len();
    assert!(sim.log[n - 2].exception && sim.log[n - 2].active_list.is_empty());
    assert!(!sim.log[n - 1].exception);
}
