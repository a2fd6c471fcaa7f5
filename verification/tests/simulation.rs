use pipe_stream::double::Double;
use pipe_stream::model::{
    FundamentalDiagram, Link, Node, NodeType, PipeSpec, Scenario, Vehicle, VehicleState, ALL_CLASSES,
};
use pipe_stream::simulation::{eligible_pipes, Simulation};

fn d(x: f64) -> Double {
    Double { bits: x.to_bits() }
}

fn f(x: Double) -> f64 {
    f64::from_bits(x.bits)
}

fn fd(u: f64, w: f64, kx: f64, c: f64) -> FundamentalDiagram {
    FundamentalDiagram { u: d(u), w: d(w), kx: d(kx), c: d(c) }
}

fn node(id: usize, node_type: NodeType, incoming: Vec<usize>, outgoing: Vec<usize>, x: f64, y: f64) -> Node {
    Node {
        id,
        node_type,
        incoming_links: incoming,
        outgoing_links: outgoing,
        points: (d(x), d(y)),
        signals: vec![],
    }
}

fn link(
    id: usize,
    up: usize,
    down: usize,
    length: f64,
    speed: f64,
    lanes: u8,
    capacity: f64,
    diagram: FundamentalDiagram,
) -> Link {
    Link::new(id, up, down, d(length), d(speed), lanes, d(capacity), diagram, vec![])
}

fn scenario(nodes: Vec<Node>, links: Vec<Link>, vehicles: Vec<Vehicle>, duration: f64, classes: &[&str]) -> Scenario {
    Scenario {
        nodes,
        links,
        vehicles,
        demand: vec![],
        start_time: d(0.0),
        duration: d(duration),
        classes: classes.iter().map(|c| c.to_string()).collect(),
        link_schedule: Vec::new(),
        assignment_excluded: Vec::new(),
    }
}

fn run(s: Scenario) -> Simulation {
    let mut sim = Simulation::new(s);
    sim.run();
    sim
}

fn time(v: &Vehicle, k: usize) -> f64 {
    f(v.node_times[k])
}

fn assert_time(actual: f64, expected: f64, msg: &str) {
    assert!((actual - expected).abs() < 1e-9, "{msg}: expected {expected}, got {actual}");
}

fn chain() -> Vec<Node> {
    vec![
        node(0, NodeType::Entry, vec![], vec![0], 0.0, 0.0),
        node(1, NodeType::Internal, vec![0], vec![1], 1.0, 0.0),
        node(2, NodeType::Exit, vec![1], vec![], 2.0, 0.0),
    ]
}

/// L0: 100 m at 10 m/s, w = 5 m/s, 0.02 veh/m/lane, 10 veh/s.
/// L1: 100 m with a large storage; `c1` is the rate of the bottleneck.
fn two_link_scenario(lanes_l0: u8, c1: f64, n_veh: usize) -> Scenario {
    let vehicles = (0..n_veh).map(|i| Vehicle::new(i, 0, vec![0, 1], d(0.0), 0, 2)).collect();
    scenario(
        chain(),
        vec![
            link(0, 0, 1, 100.0, 10.0, lanes_l0, 10.0, fd(10.0, 5.0, 0.02, 10.0)),
            link(1, 1, 2, 100.0, 10.0, 1, c1, fd(10.0, 5.0, 10.0, c1)),
        ],
        vehicles,
        100_000.0,
        &["car"],
    )
}

#[test]
fn storage_counts_lanes() {
    let s = two_link_scenario(2, 0.01, 1);
    assert_eq!(s.links[0].storage_veh(), Some(4));
    let s1 = two_link_scenario(1, 0.01, 1);
    assert_eq!(s1.links[0].storage_veh(), Some(2));
}

#[test]
fn backward_wave_delays_entry_by_l_over_w() {
    let sim = run(two_link_scenario(2, 0.01, 6));
    let v = &sim.scenario.vehicles;
    assert_time(time(&v[0], 0), 0.0, "veh 0 entry");
    assert_time(time(&v[3], 0), 0.3, "veh 3 entry");
    assert_time(time(&v[0], 1), 10.0, "veh 0 passage at node 1");
    assert_time(time(&v[4], 0), 30.0, "veh 4 entry (backward wave)");
    assert_time(time(&v[1], 1), 110.0, "veh 1 passage at node 1");
    assert_time(time(&v[5], 0), 130.0, "veh 5 entry (backward wave)");
}

#[test]
fn fractional_storage_wave_correction() {
    let mut s = two_link_scenario(2, 0.01, 6);
    s.links[0].fd.kx = d(0.017);
    assert_eq!(s.links[0].storage_veh(), Some(4));
    assert_time(f(s.links[0].wave_delay()), 20.06, "wave delay with fractional correction");
    let sim = run(s);
    let v = &sim.scenario.vehicles;
    assert_time(time(&v[4], 0), 30.06, "veh 4 entry (fractional wave)");
}

#[test]
fn lanes_change_spillback_onset() {
    let sim = run(two_link_scenario(1, 0.01, 3));
    let v = &sim.scenario.vehicles;
    assert_time(time(&v[1], 0), 0.1, "veh 1 enters freely");
    assert_time(time(&v[2], 0), 30.0, "veh 2 blocked until wave arrives");
}

#[test]
fn bottleneck_discharge_at_capacity() {
    let sim = run(two_link_scenario(2, 0.01, 4));
    for (i, veh) in sim.scenario.vehicles.iter().enumerate() {
        assert_time(time(veh, 1), 10.0 + 100.0 * i as f64, &format!("veh {i} discharge into L1"));
    }
}

#[test]
fn fifo_preserved_and_all_vehicles_exit() {
    let sim = run(two_link_scenario(2, 0.5, 20));
    let v = &sim.scenario.vehicles;
    for veh in v {
        assert_eq!(veh.state, VehicleState::Exited, "veh {} did not exit", veh.id);
        assert_eq!(veh.node_times.len(), 3, "veh {} incomplete node_times", veh.id);
    }
    for node in 0..3 {
        for pair in v.windows(2) {
            assert!(
                time(&pair[0], node) <= time(&pair[1], node),
                "FIFO violated at node {node} between veh {} and {}",
                pair[0].id,
                pair[1].id
            );
        }
    }
}

/// Entry 0, L0 with two pipes, node 1, then L1 to exit 2 or L2 to exit 3.
fn two_pipe_scenario(n_veh: usize) -> Scenario {
    let fd_out = fd(10.0, 5.0, 10.0, 10.0);
    let vehicles = (0..n_veh).map(|i| Vehicle::new(i, 0, vec![0, 1], d(0.0), 0, 2)).collect();
    let mut l0 = link(0, 0, 1, 100.0, 10.0, 2, 10.0, fd(10.0, 5.0, 0.02, 5.0));
    l0.pipe_specs = vec![
        PipeSpec { lanes: 1, class_mask: ALL_CLASSES },
        PipeSpec { lanes: 1, class_mask: ALL_CLASSES },
    ];
    scenario(
        vec![
            node(0, NodeType::Entry, vec![], vec![0], 0.0, 0.0),
            node(1, NodeType::Internal, vec![0], vec![1, 2], 1.0, 0.0),
            node(2, NodeType::Exit, vec![1], vec![], 2.0, 0.0),
            node(3, NodeType::Exit, vec![2], vec![], 2.0, 1.0),
        ],
        vec![
            l0,
            link(1, 1, 2, 100.0, 10.0, 1, 10.0, fd_out),
            link(2, 1, 3, 100.0, 10.0, 1, 10.0, fd_out),
        ],
        vehicles,
        100_000.0,
        &["car", "bus"],
    )
}

#[test]
fn entry_choice_least_occupied_keep_right() {
    let sim = run(two_pipe_scenario(6));
    let taken: Vec<u8> = sim.scenario.vehicles.iter().map(|v| v.pipes_taken[0]).collect();
    assert_eq!(taken, vec![0, 1, 0, 1, 0, 1], "expected alternating keep-right fill");
}

#[test]
fn bus_only_pipe_rejects_cars() {
    let mut s = two_pipe_scenario(4);
    s.links[0].pipe_specs[1].class_mask = 0b10;
    s.vehicles[2].class_id = 1;
    let sim = run(s);
    let v = &sim.scenario.vehicles;
    assert_eq!(v[0].pipes_taken[0], 0, "car must use pipe 0");
    assert_eq!(v[1].pipes_taken[0], 0, "car must use pipe 0");
    assert_eq!(v[2].pipes_taken[0], 1, "bus goes to the empty bus pipe");
    assert_eq!(v[3].pipes_taken[0], 0, "car must use pipe 0");
}

#[test]
fn moves_restriction_routes_divergers() {
    let mut s = two_pipe_scenario(6);
    s.links[0].moves.insert(2, vec![0]);
    s.links[0].moves.insert(1, vec![1]);
    for i in [0usize, 2, 4] {
        s.vehicles[i].path = vec![0, 2];
        s.vehicles[i].destination = 3;
    }
    let sim = run(s);
    for v in &sim.scenario.vehicles {
        let expected = if v.path[1] == 2 { 0 } else { 1 };
        assert_eq!(
            v.pipes_taken[0], expected,
            "veh {} (movement to link {}) took pipe {}",
            v.id, v.path[1], v.pipes_taken[0]
        );
    }
}

#[test]
fn pipe_spillback_isolated_from_sibling() {
    let mut s = two_pipe_scenario(6);
    s.links[0].moves.insert(2, vec![0]);
    s.links[0].moves.insert(1, vec![1]);
    s.links[2].capacity = d(0.01);
    s.links[2].fd.c = d(0.01);
    for i in 0..4usize {
        s.vehicles[i].path = vec![0, 2];
        s.vehicles[i].destination = 3;
    }
    let sim = run(s);
    let v = &sim.scenario.vehicles;
    for (k, i) in (4..6usize).enumerate() {
        let t_entry = time(&v[i], 0);
        assert_time(t_entry, 0.2 * k as f64, &format!("through veh {i} entry"));
        assert_time(time(&v[i], 1), t_entry + 10.0, &format!("through veh {i} node passage"));
    }
    assert_time(time(&v[0], 0), 0.0, "exit veh 0 entry");
    assert_time(time(&v[1], 0), 0.2, "exit veh 1 entry");
    assert_time(time(&v[0], 1), 10.0, "exit veh 0 passage");
    assert_time(time(&v[2], 0), 30.0, "exit veh 2 entry (behind the wave)");
    assert_time(time(&v[1], 1), 110.0, "exit veh 1 passage");
    assert_time(time(&v[3], 0), 130.0, "exit veh 3 entry (behind the wave)");
    for i in 4..6usize {
        assert!(
            time(&v[i], 1) < time(&v[1], 1),
            "through veh {i} should overtake the queued exit stream"
        );
    }
}

#[test]
fn per_pipe_fifo_holds() {
    let sim = run(two_pipe_scenario(10));
    for pipe in 0..2u8 {
        let mut last = f64::NEG_INFINITY;
        for v in &sim.scenario.vehicles {
            if v.pipes_taken[0] == pipe {
                assert!(time(v, 1) >= last, "FIFO violated in pipe {pipe} at veh {}", v.id);
                last = time(v, 1);
            }
        }
    }
}

fn blocked_exit(phi: f64) -> Scenario {
    let mut s = two_pipe_scenario(6);
    s.links[0].moves.insert(2, vec![0]);
    s.links[0].moves.insert(1, vec![1]);
    s.links[0].friction = d(phi);
    s.links[2].capacity = d(0.01);
    s.links[2].fd.c = d(0.01);
    for i in 0..4usize {
        s.vehicles[i].path = vec![0, 2];
        s.vehicles[i].destination = 3;
    }
    s
}

#[test]
fn friction_throttles_sibling_discharge() {
    let sim = run(blocked_exit(1.0));
    let v = &sim.scenario.vehicles;
    assert_time(time(&v[4], 1), 10.0, "no-friction through veh 4");
    assert_time(time(&v[5], 1), 10.2, "no-friction through veh 5");
    let sim = run(blocked_exit(0.5));
    let v = &sim.scenario.vehicles;
    assert_time(time(&v[4], 1), 10.0, "friction through veh 4 (first)");
    assert_time(time(&v[5], 1), 10.4, "friction through veh 5 (held to C phi)");
}

#[test]
fn zero_kx_means_unlimited_storage() {
    let mut s = two_link_scenario(2, 10.0, 10);
    s.links[0].fd.kx = d(0.0);
    assert_eq!(s.links[0].storage_veh(), None);
    let sim = run(s);
    for (i, veh) in sim.scenario.vehicles.iter().enumerate() {
        assert_time(time(veh, 0), 0.1 * i as f64, &format!("veh {i} entry"));
    }
}

#[test]
fn events_are_counted_and_the_clock_stands_at_the_last_one() {
    let mut sim = Simulation::new(two_link_scenario(2, 10.0, 1));
    let n = sim.run();
    assert!(n >= 3, "{n} events");
    assert_eq!(f(sim.current_time), 20.0);
    assert_eq!(sim.run(), 0, "nothing is left to do");
}

#[test]
fn the_horizon_ends_a_run() {
    let mut s = two_link_scenario(2, 10.0, 1);
    s.duration = d(15.0);
    let sim = run(s);
    let v = &sim.scenario.vehicles[0];
    assert_eq!(v.node_times.len(), 2);
    assert_eq!(v.state, VehicleState::Moving);
}

#[test]
fn storage_is_never_exceeded() {
    let sim = run(two_link_scenario(2, 0.1, 12));
    let v = &sim.scenario.vehicles;
    let mut peak = 0;
    for a in v {
        let t = time(a, 0);
        let inside = v.iter().filter(|b| time(b, 0) <= t && time(b, 1) > t).count();
        peak = peak.max(inside);
    }
    assert_eq!(peak, 4);
}

#[test]
fn eligible_pipes_serve_the_class_and_the_movement() {
    let mut l = link(0, 0, 1, 100.0, 10.0, 3, 1.0, fd(10.0, 5.0, 0.2, 1.0));
    l.pipe_specs = vec![
        PipeSpec { lanes: 1, class_mask: 1 },
        PipeSpec { lanes: 1, class_mask: 2 },
        PipeSpec { lanes: 1, class_mask: ALL_CLASSES },
    ];
    l.moves.insert(7, vec![0, 1]);
    l.materialize_pipes();
    assert_eq!(eligible_pipes(&l, 0, None), vec![0, 2]);
    assert_eq!(eligible_pipes(&l, 1, None), vec![1, 2]);
    assert_eq!(eligible_pipes(&l, 0, Some(7)), vec![0]);
    assert_eq!(eligible_pipes(&l, 1, Some(9)), vec![1, 2]);
    assert!(eligible_pipes(&l, 2, Some(7)).is_empty());
}

/// Rides on a pipe: entry and exit times, each in ascending order.
fn rides(s: &Scenario, link: usize, pipe: u8) -> (Vec<f64>, Vec<f64>) {
    let (mut entries, mut exits) = (Vec::new(), Vec::new());
    for v in &s.vehicles {
        for k in 0..v.pipes_taken.len() {
            if v.path[k] == link && v.pipes_taken[k] == pipe {
                entries.push(time(v, k));
                if k + 1 < v.node_times.len() {
                    exits.push(time(v, k + 1));
                }
            }
        }
    }
    entries.sort_by(f64::total_cmp);
    exits.sort_by(f64::total_cmp);
    (entries, exits)
}

#[test]
fn entries_wait_for_the_headway_and_for_the_wave() {
    let sim = run(two_link_scenario(1, 0.2, 60));
    let s = &sim.scenario;
    for l in &s.links {
        for (i, p) in l.pipes.iter().enumerate() {
            let (entries, exits) = rides(s, l.id, i as u8);
            assert!(entries.len() > 20);
            for pair in entries.windows(2) {
                assert!(pair[0] + 1.0 / f(p.capacity) <= pair[1]);
            }
            if let Some(dn) = p.storage_veh {
                for n in dn..entries.len() {
                    assert!(exits[n - dn] + f(p.wave_delay) <= entries[n]);
                }
                assert!(entries.len() - exits.len() <= dn);
            }
        }
    }
}

#[test]
fn nobody_overtakes_in_a_pipe() {
    let sim = run(two_pipe_scenario(40));
    let s = &sim.scenario;
    let mut pairs = 0;
    for a in &s.vehicles {
        for b in &s.vehicles {
            for j in 0..a.pipes_taken.len() {
                for k in 0..b.pipes_taken.len() {
                    if a.path[j] == b.path[k]
                        && a.pipes_taken[j] == b.pipes_taken[k]
                        && time(a, j) < time(b, k)
                        && k + 1 < b.node_times.len()
                    {
                        assert!(time(a, j + 1) <= time(b, k + 1));
                        pairs += 1;
                    }
                }
            }
        }
    }
    assert!(pairs > 0);
}

#[test]
fn trips_lie_within_the_run() {
    let mut s = two_link_scenario(1, 0.2, 60);
    s.duration = d(150.0);
    // One vehicle starts before the scenario does.
    s.vehicles[0].start_time = d(-5.0);
    let sim = run(s);
    let mut states = Vec::new();
    for v in &sim.scenario.vehicles {
        let exited = v.state == VehicleState::Exited;
        assert_eq!(exited, v.node_times.len() == v.path.len() + 1);
        assert!(exited || v.node_times.len() <= v.path.len());
        assert_eq!(v.pipes_taken.len(), v.node_times.len().min(v.path.len()));
        if !v.node_times.is_empty() {
            assert!(f(v.start_time) <= time(v, 0));
        }
        for k in 0..v.node_times.len() {
            assert!(time(v, k) <= 150.0);
        }
        for k in 1..v.node_times.len() {
            let l = &sim.scenario.links[v.path[k - 1]];
            assert!(time(v, k - 1) + f(l.length) / f(l.speed) <= time(v, k));
        }
        states.push(v.state);
    }
    assert!(states.contains(&VehicleState::Exited));
    assert!(states.contains(&VehicleState::Moving));
}
