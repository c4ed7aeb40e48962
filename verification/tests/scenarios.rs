use ooo_pipeline::instruction::check_program;
use ooo_pipeline::simulator::Simulator;
use ooo_pipeline::state::SimulatorState;

fn load(lines: &[String]) -> Simulator {
    let program: Vec<String> = lines.to_vec();
    assert!(check_program(&program));
    Simulator::new(program)
}

fn run_lines(lines: &[String]) -> Simulator {
    let mut sim = load(lines);
    sim.dump_state_into_log();
    let mut cycles = 0;
    while !sim.done() {
        sim.simulate_cycle();
        sim.dump_state_into_log();
        cycles += 1;
        assert!(cycles < 10_000);
    }
    sim
}

fn run(lines: &[&str]) -> Simulator {
    let owned: Vec<String> = lines.iter().map(|l| l.to_string()).collect();
    run_lines(&owned)
}

fn free_list(s: &SimulatorState) -> Vec<u32> {
    s.free_list.iter().copied().collect()
}

fn decoded_pcs(s: &SimulatorState) -> Vec<u64> {
    s.decoded_pcs.iter().map(|d| d.pc).collect()
}

#[test]
fn empty_program_logs_one_reset_snapshot() {
    let sim = run(&[]);
    assert_eq!(sim.log.len(), 1);
    let s = &sim.log[0];
    assert_eq!(s.pc, 0);
    assert_eq!(s.exception_pc, 0);
    assert!(!s.exception);
    assert!(!s.backpressure);
    assert_eq!(s.physical_register_file, vec![0u64; 64]);
    assert_eq!(s.busy_bit_table, vec![false; 64]);
    assert_eq!(s.register_map_table, (0..32).collect::<Vec<u32>>());
    assert_eq!(free_list(s), (32..64).collect::<Vec<u32>>());
    assert!(s.decoded_pcs.is_empty());
    assert!(s.active_list.is_empty());
    assert!(s.integer_queue.is_empty());
}

#[test]
fn single_add_commits_its_value() {
    let sim = run(&["addi x1, x0, 7"]);
    let s = &sim.state;
    assert_eq!(s.register_map_table[1], 32);
    assert_eq!(s.physical_register_file[32], 7);
    assert_eq!(s.free_list.back().copied(), Some(1));
    assert_eq!(s.free_list.len(), 32);
    assert_eq!(free_list(s)[0], 33);
    assert!(s.active_list.is_empty());
    assert!(s.integer_queue.is_empty());
    assert_eq!(s.pc, 1);
    assert!(!s.exception);
    println!("log length {}", sim.log.len());
    assert_eq!(sim.log.len(), 7);
}

#[test]
fn single_add_cycle_by_cycle() {
    let sim = run(&["addi x1, x0, 7"]);
    // Cycle 1: fetched and decoded.
    assert_eq!(sim.log[1].pc, 1);
    assert_eq!(decoded_pcs(&sim.log[1]), vec![0]);
    assert!(sim.log[1].active_list.is_empty());
    // Cycle 2: renamed.
    let s = &sim.log[2];
    assert!(s.decoded_pcs.is_empty());
    assert_eq!(s.active_list.len(), 1);
    assert_eq!(s.active_list[0].logical_destination, 1);
    assert_eq!(s.active_list[0].old_destination, 1);
    assert_eq!(s.active_list[0].pc, 0);
    assert!(!s.active_list[0].done);
    assert_eq!(s.integer_queue.len(), 1);
    let q = &s.integer_queue[0];
    assert_eq!(q.dest_register, 32);
    assert!(q.op_a_is_ready && q.op_b_is_ready);
    assert_eq!((q.op_a_reg_tag, q.op_a_value), (0, 0));
    assert_eq!((q.op_b_reg_tag, q.op_b_value), (0, 7));
    assert_eq!(q.op_code, "add");
    assert!(s.busy_bit_table[32]);
    assert_eq!(s.register_map_table[1], 32);
    // Cycle 3: issued.
    assert!(sim.log[3].integer_queue.is_empty());
    assert!(sim.log[3].busy_bit_table[32]);
    // Cycle 4: computed, not yet forwarded.
    assert!(sim.log[4].busy_bit_table[32]);
    assert_eq!(sim.log[4].physical_register_file[32], 0);
    assert!(!sim.log[4].active_list[0].done);
    // Cycle 5: forwarded.
    assert!(!sim.log[5].busy_bit_table[32]);
    assert_eq!(sim.log[5].physical_register_file[32], 7);
    assert!(sim.log[5].active_list[0].done);
    // Cycle 6: retired.
    assert!(sim.log[6].active_list.is_empty());
}

#[test]
fn raw_hazard_waits_for_the_producer() {
    let sim = run(&["addi x1, x0, 3", "addi x2, x1, 4"]);
    let renamed = &sim.log[2];
    assert_eq!(renamed.integer_queue.len(), 2);
    let second = &renamed.integer_queue[1];
    assert!(!second.op_a_is_ready);
    assert_eq!(second.op_a_reg_tag, 32);
    assert_eq!(second.op_a_value, 0);
    assert!(second.op_b_is_ready);
    assert_eq!(second.op_b_value, 4);
    // The consumer waits while the producer is issued and computed.
    assert_eq!(sim.log[3].integer_queue.len(), 1);
    assert_eq!(sim.log[4].integer_queue.len(), 1);
    assert!(!sim.log[4].integer_queue[0].op_a_is_ready);
    assert_eq!(sim.log[4].integer_queue[0].pc, 1);
    // The producer forwards in cycle 5; the consumer is woken and issued in
    // the same cycle.
    assert_eq!(sim.log[5].physical_register_file[32], 3);
    assert!(sim.log[5].integer_queue.is_empty());
    assert!(sim.log[5].busy_bit_table[33]);
    assert_eq!(sim.log[7].physical_register_file[33], 7);
    let s = &sim.state;
    assert_eq!(s.register_map_table[1], 32);
    assert_eq!(s.register_map_table[2], 33);
    assert_eq!(s.physical_register_file[32], 3);
    assert_eq!(s.physical_register_file[33], 7);
    assert!(s.active_list.is_empty());
    assert!(s.integer_queue.is_empty());
}

#[test]
fn divide_by_zero_traps_and_rolls_back() {
    let sim = run(&["addi x1, x0, 0", "divu x2, x1, x1"]);
    let s = &sim.state;
    assert_eq!(s.exception_pc, 1);
    assert_eq!(s.pc, 0x10000);
    assert!(!s.exception);
    assert!(s.active_list.is_empty());
    assert!(s.integer_queue.is_empty());
    assert!(s.decoded_pcs.is_empty());
    // The divide's renaming of x2 is undone, the add's renaming of x1 stays.
    assert_eq!(s.register_map_table[2], 2);
    assert_eq!(s.register_map_table[1], 32);
    assert_eq!(s.busy_bit_table, vec![false; 64]);
    assert_eq!(s.free_list.len(), 32);
    assert!(free_list(s).contains(&33));
    assert!(free_list(s).contains(&1));
    // Some snapshot shows the pipeline unwinding.
    assert!(sim.log.iter().any(|l| l.exception && l.pc == 0x10000));
}

#[test]
fn four_wide_issue_runs_four_units_in_parallel() {
    let sim = run(&["addi x1, x0, 1", "addi x2, x0, 2", "addi x3, x0, 3", "addi x4, x0, 4"]);
    assert_eq!(decoded_pcs(&sim.log[1]), vec![0, 1, 2, 3]);
    assert_eq!(sim.log[2].integer_queue.len(), 4);
    assert_eq!(sim.log[2].active_list.len(), 4);
    assert!(sim.log[3].integer_queue.is_empty());
    assert!(sim.log[4].active_list.iter().all(|e| !e.done));
    assert!(sim.log[5].active_list.iter().all(|e| e.done));
    assert_eq!(sim.log[5].active_list.len(), 4);
    assert!(sim.log[6].active_list.is_empty());
    assert_eq!(sim.log.len(), 7);
    let s = &sim.state;
    for i in 1..5usize {
        assert_eq!(s.register_map_table[i], 31 + i as u32);
        assert_eq!(s.physical_register_file[31 + i], i as u64);
    }
    assert_eq!(free_list(s)[28..], [1, 2, 3, 4]);
}
