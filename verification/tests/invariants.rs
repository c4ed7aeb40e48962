use ooo_pipeline::instruction::check_program;
use ooo_pipeline::simulator::Simulator;

fn current_destination(sim: &Simulator, i: usize) -> u32 {
    let s = &sim.state;
    let logical = s.active_list[i].logical_destination;
    for j in i + 1..s.active_list.len() {
        if s.active_list[j].logical_destination == logical {
            return s.active_list[j].old_destination;
        }
    }
    s.register_map_table[logical as usize]
}

fn check_consistent(sim: &Simulator) {
    let s = &sim.state;
    // Every physical register is held exactly once.
    let mut held: Vec<u32> = s.free_list.iter().copied().collect();
    held.extend(s.register_map_table.iter().copied());
    held.extend(s.active_list.iter().map(|e| e.old_destination));
    held.sort();
    assert_eq!(held, (0..64).collect::<Vec<u32>>());
    // A register is busy exactly when a pending entry writes it.
    for p in 0..64u32 {
        let pending = (0..s.active_list.len()).any(|i| {
            (!s.active_list[i].done || s.active_list[i].exception) && current_destination(sim, i) == p
        });
        assert_eq!(s.busy_bit_table[p as usize], pending, "p{}", p);
    }
    // Capacities.
    assert!(s.active_list.len() <= 32);
    assert!(s.integer_queue.len() <= 32);
    // The active list ascends.
    for i in 1..s.active_list.len() {
        assert!(s.active_list[i - 1].pc < s.active_list[i].pc);
    }
    // Waiting operands wait for busy registers.
    for q in s.integer_queue.iter() {
        if !q.op_a_is_ready {
            assert!(s.busy_bit_table[q.op_a_reg_tag as usize]);
        }
        if !q.op_b_is_ready {
            assert!(s.busy_bit_table[q.op_b_reg_tag as usize]);
        }
    }
    // While unwinding, the pipeline is drained.
    if s.exception {
        assert_eq!(s.pc, 0x10000);
        assert!(s.integer_queue.is_empty());
        assert!(s.decoded_pcs.is_empty());
        for alu in sim.alus.iter() {
            assert!(alu.is_free());
            assert!(alu.forwarding.is_none());
            assert!(alu.pipeline_stage1.is_none());
        }
    }
}

fn run_checked(lines: Vec<String>) -> Simulator {
    assert!(check_program(&lines));
    let mut sim = Simulator::new(lines);
    check_consistent(&sim);
    let mut cycles = 0;
    while !sim.done() {
        sim.simulate_cycle();
        check_consistent(&sim);
        cycles += 1;
        assert!(cycles < 10_000);
    }
    sim
}

#[test]
fn invariants_hold_on_independent_instructions() {
    let lines: Vec<String> = (0..40).map(|i| format!("addi x{}, x0, {}", i % 32, i)).collect();
    let sim = run_checked(lines);
    assert_eq!(sim.state.pc, 40);
}

#[test]
fn invariants_hold_on_a_dependent_chain() {
    let lines: Vec<String> = (0..60).map(|_| "addi x1, x1, 1".to_string()).collect();
    let sim = run_checked(lines);
    assert_eq!(sim.state.physical_register_file[sim.state.register_map_table[1] as usize], 60);
}

#[test]
fn invariants_hold_through_a_fault() {
    let mut lines: Vec<String> = (0..10).map(|i| format!("addi x{}, x0, {}", i + 1, i)).collect();
    lines.push("remu x20, x5, x1".to_string());
    lines.extend((0..30).map(|i| format!("mulu x{}, x2, x3", i % 32)));
    let sim = run_checked(lines);
    assert_eq!(sim.state.exception_pc, 10);
    assert_eq!(sim.state.pc, 0x10000);
    assert!(!sim.state.exception);
}

#[test]
fn invariants_hold_through_a_fault_in_a_full_pipeline() {
    let mut lines: Vec<String> = (0..40).map(|_| "addi x1, x1, 1".to_string()).collect();
    lines.insert(20, "divu x2, x1, x0".to_string());
    let sim = run_checked(lines);
    assert_eq!(sim.state.exception_pc, 20);
    assert_eq!(sim.state.physical_register_file[sim.state.register_map_table[1] as usize], 20);
}

#[test]
fn invariants_hold_on_mixed_programs() {
    let ops = ["add", "sub", "mulu", "divu", "remu"];
    let mut seed: u64 = 12345;
    for _ in 0..20 {
        let mut lines = Vec::new();
        for _ in 0..50 {
            seed = seed.wrapping_mul(6364136223846793005).wrapping_add(1442695040888963407);
            let op = ops[(seed >> 33) as usize % 5];
            let d = (seed >> 40) % 8;
            let a = (seed >> 45) % 8;
            let b = (seed >> 50) % 8;
            if (seed >> 60) % 2 == 0 {
                lines.push(format!("{}i x{}, x{}, {}", op, d, a, b + 1));
            } else {
                lines.push(format!("{} x{}, x{}, x{}", op, d, a, b));
            }
        }
        run_checked(lines);
    }
}
