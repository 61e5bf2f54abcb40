use ooosim::engine::OOOSim;
use ooosim::inst::Inst;
use ooosim::reg::VReg;

fn reference_arch() -> Vec<VReg> {
    vec![
        VReg::F(0),
        VReg::F(1),
        VReg::F(2),
        VReg::F(3),
        VReg::R(1),
        VReg::R(2),
        VReg::R(3),
        VReg::R(4),
    ]
}

fn reference_stations() -> Vec<(u32, u32, u32)> {
    vec![(0, 0, 0), (1, 0, 0), (1, 1, 0), (2, 0, 0), (2, 1, 0)]
}

fn reference_trace() -> Vec<Inst> {
    vec![
        Inst::new(1, "f2", "", "r2", 2),
        Inst::new(2, "f0", "f2", "f3", 4),
        Inst::new(1, "f1", "", "r1", 2),
        Inst::new(2, "f2", "f1", "f0", 2),
        Inst::new(0, "r1", "", "r1", 1),
        Inst::new(0, "r2", "", "r2", 1),
        Inst::new(1, "", "f2", "r1", 2),
        Inst::new(0, "r4", "r1", "r3", 1),
    ]
}

fn reference_engine() -> OOOSim {
    OOOSim::try_new(reference_trace(), reference_arch(), 16, 8, reference_stations())
        .expect("reference configuration is valid")
}

#[test]
fn construction_initial_state() {
    let sim = reference_engine();
    assert_eq!(sim.cycle, 1);
    assert_eq!(sim.trace_ind, 0);
    assert_eq!(sim.rob.entries.len(), 0);
    assert_eq!(sim.map_table.len(), 8);
    for (i, p) in sim.map_table.iter().enumerate() {
        assert_eq!(p.num, i as u32 + 1);
        assert!(p.ready);
    }
    let fl: Vec<u32> = sim.free_list.iter().copied().collect();
    assert_eq!(fl, vec![9, 10, 11, 12, 13, 14, 15, 16]);
    assert_eq!(sim.res_stations.len(), 5);
    assert!(sim.res_stations.iter().all(|s| !s.busy));
}

#[test]
fn construction_fails_without_spare_tags() {
    // physical-register count must strictly exceed the architectural count
    assert!(OOOSim::try_new(reference_trace(), reference_arch(), 8, 8, reference_stations())
        .is_none());
    assert!(OOOSim::try_new(reference_trace(), reference_arch(), 4, 8, reference_stations())
        .is_none());
}

#[test]
fn construction_fails_on_unknown_trace_register() {
    let trace = vec![Inst::new(1, "f9", "", "", 1)];
    assert!(OOOSim::try_new(trace, reference_arch(), 16, 8, reference_stations()).is_none());
}

#[test]
fn construction_fails_on_repeated_arch_register() {
    let arch = vec![VReg::F(0), VReg::F(0)];
    assert!(OOOSim::try_new(vec![], arch, 16, 8, reference_stations()).is_none());
}

#[test]
fn first_cycle_renames_f2() {
    let mut sim = reference_engine();
    sim.sim(1);
    assert_eq!(sim.rob.entries.len(), 1);
    let e = &sim.rob.entries[0];
    assert_eq!(e.issued_at, 0);
    assert_eq!(e.execute_started_at, 0);
    assert_eq!(e.completed_at, 0);
    assert_eq!(e.retired_at, 0);
    assert_eq!(e.t, Some(9));
    assert_eq!(e.t_old, Some(3));
    let f2 = sim.map_index(VReg::F(2));
    assert_eq!(sim.map_table[f2].num, 9);
    assert!(!sim.map_table[f2].ready);
}

#[test]
fn first_instruction_lifecycle() {
    let mut sim = reference_engine();
    sim.sim(6);
    let e = &sim.rob.entries[0];
    assert_eq!(e.issued_at, 2);
    assert_eq!(e.execute_started_at, 3);
    assert_eq!(e.completed_at, 5);
    assert_eq!(e.retired_at, 6);
    // the displaced tag 3 reappears at the tail of the free list only now
    let fl: Vec<u32> = sim.free_list.iter().copied().collect();
    assert_eq!(fl, vec![14, 15, 16, 3]);
}

#[test]
fn issue_is_out_of_order() {
    let mut sim = reference_engine();
    sim.sim(4);
    // the third entry issues past the second, whose operand is not ready
    assert_eq!(sim.rob.entries[2].issued_at, 4);
    assert_eq!(sim.rob.entries[1].issued_at, 0);
}

#[test]
fn dispatch_is_in_trace_order() {
    let mut sim = reference_engine();
    sim.sim(10);
    assert_eq!(sim.trace_ind, sim.rob.entries.len());
    for (j, e) in sim.rob.entries.iter().enumerate() {
        assert_eq!(e.inst_ind, j);
    }
}

#[test]
fn single_port_per_cycle() {
    let mut sim = reference_engine();
    sim.sim(20);
    // no two entries issue, complete or retire in the same cycle
    let n = sim.rob.entries.len();
    for j in 0..n {
        for k in 0..n {
            if j != k {
                let a = &sim.rob.entries[j];
                let b = &sim.rob.entries[k];
                if a.issued_at != 0 {
                    assert_ne!(a.issued_at, b.issued_at);
                }
                if a.completed_at != 0 {
                    assert_ne!(a.completed_at, b.completed_at);
                }
                if a.retired_at != 0 {
                    assert_ne!(a.retired_at, b.retired_at);
                }
            }
        }
    }
}

#[test]
fn tag_partition_holds_midway() {
    let mut sim = reference_engine();
    sim.sim(3);
    let mut owned: Vec<u32> = Vec::new();
    owned.extend(sim.free_list.iter().copied());
    owned.extend(sim.map_table.iter().map(|p| p.num));
    for e in &sim.rob.entries {
        if e.retired_at == 0 {
            if let Some(t) = e.t_old {
                owned.push(t);
            }
        }
    }
    owned.sort();
    let space: Vec<u32> = (1..=16).collect();
    assert_eq!(owned, space);
}

#[test]
fn retirement_is_in_program_order() {
    // the second instruction completes immediately but must wait for the first
    let arch = vec![VReg::R(1), VReg::R(2)];
    let trace = vec![Inst::new(0, "r1", "", "", 5), Inst::new(1, "r2", "", "", 0)];
    let stations = vec![(0, 0, 0), (1, 0, 0)];
    let mut sim = OOOSim::try_new(trace, arch, 4, 8, stations).expect("valid configuration");
    sim.sim(5);
    assert_eq!(sim.rob.entries[1].completed_at, 3);
    assert_eq!(sim.rob.entries[1].retired_at, 0);
    assert_eq!(sim.rob.entries[0].retired_at, 0);
    sim.sim(5);
    assert_eq!(sim.rob.entries[0].completed_at, 8);
    assert_eq!(sim.rob.entries[0].retired_at, 9);
    assert_eq!(sim.rob.entries[1].retired_at, 10);
    let fl: Vec<u32> = sim.free_list.iter().copied().collect();
    assert_eq!(fl, vec![1, 2]);
}

#[test]
fn dispatch_stalls_on_empty_free_list() {
    // one spare tag only: the second destination has no tag to take
    let arch = vec![VReg::R(1), VReg::R(2)];
    let trace = vec![Inst::new(0, "r1", "", "", 9), Inst::new(0, "r2", "", "", 1)];
    let stations = vec![(0, 0, 0), (0, 1, 0)];
    let mut sim = OOOSim::try_new(trace, arch, 3, 8, stations).expect("valid configuration");
    sim.sim(1);
    assert_eq!(sim.trace_ind, 1);
    assert_eq!(sim.free_list.len(), 0);
    sim.sim(3);
    // no tag came free, so nothing more dispatched, and nothing aborted
    assert_eq!(sim.trace_ind, 1);
    assert_eq!(sim.rob.entries.len(), 1);
}

#[test]
fn dispatch_stalls_without_matching_station() {
    let arch = vec![VReg::R(1)];
    let trace = vec![Inst::new(5, "r1", "", "", 1)];
    let stations = vec![(0, 0, 0), (1, 0, 0)];
    let mut sim = OOOSim::try_new(trace, arch, 3, 8, stations).expect("valid configuration");
    sim.sim(3);
    assert_eq!(sim.trace_ind, 0);
    assert_eq!(sim.rob.entries.len(), 0);
}

#[test]
fn dispatch_stalls_when_rob_full() {
    let arch = vec![VReg::R(1), VReg::R(2)];
    let trace = vec![Inst::new(0, "r1", "", "", 0), Inst::new(0, "r2", "", "", 0)];
    let stations = vec![(0, 0, 0), (0, 1, 0)];
    let mut sim = OOOSim::try_new(trace, arch, 8, 1, stations).expect("valid configuration");
    sim.sim(2);
    // capacity one: the second instruction waits for the first to retire
    assert_eq!(sim.trace_ind, 1);
    sim.sim(1);
    assert_eq!(sim.trace_ind, 2);
    assert_eq!(sim.rob.entries[1].inst_ind, 1);
}

#[test]
fn drained_reports_empty_pipeline() {
    let arch = vec![VReg::R(1)];
    let trace = vec![Inst::new(0, "r1", "", "", 0)];
    let stations = vec![(0, 0, 0)];
    let mut sim = OOOSim::try_new(trace, arch, 2, 4, stations).expect("valid configuration");
    assert!(!sim.drained());
    sim.sim(2);
    // dispatched at cycle 1, completed at cycle 2, not yet retired
    assert!(!sim.drained());
    sim.sim(1);
    assert!(sim.drained());
}

#[test]
fn completion_broadcast_wakes_operands() {
    let mut sim = reference_engine();
    // at cycle 5 the first instruction completes and tag 9 becomes ready in
    // the station of the second instruction, which issues the same cycle
    sim.sim(5);
    assert_eq!(sim.rob.entries[0].completed_at, 5);
    assert_eq!(sim.rob.entries[1].issued_at, 5);
}
