use pipe_stream::double::Double;
use pipe_stream::model::{
    FundamentalDiagram, Link, Node, NodeType, PipeSpec, Scenario, Vehicle, ALL_CLASSES,
};
use pipe_stream::simulation::Simulation;

fn d(x: f64) -> Double {
    Double { bits: x.to_bits() }
}

fn f(x: Double) -> f64 {
    f64::from_bits(x.bits)
}

fn fd(u: f64, w: f64, kx: f64, c: f64) -> FundamentalDiagram {
    FundamentalDiagram { u: d(u), w: d(w), kx: d(kx), c: d(c) }
}

fn node(id: usize, node_type: NodeType, incoming: Vec<usize>, outgoing: Vec<usize>, x: f64, y: f64) -> Node {
    Node {
        id,
        node_type,
        incoming_links: incoming,
        outgoing_links: outgoing,
        points: (d(x), d(y)),
        signals: vec![],
    }
}

fn link(
    id: usize,
    up: usize,
    down: usize,
    length: f64,
    speed: f64,
    lanes: u8,
    capacity: f64,
    diagram: FundamentalDiagram,
) -> Link {
    Link::new(id, up, down, d(length), d(speed), lanes, d(capacity), diagram, vec![])
}

fn scenario(nodes: Vec<Node>, links: Vec<Link>, vehicles: Vec<Vehicle>, duration: f64, classes: &[&str]) -> Scenario {
    Scenario {
        nodes,
        links,
        vehicles,
        demand: vec![],
        start_time: d(0.0),
        duration: d(duration),
        classes: classes.iter().map(|c| c.to_string()).collect(),
        link_schedule: Vec::new(),
        assignment_excluded: Vec::new(),
    }
}

/// Two pipes of 200 m that a bottleneck keeps spilled back, with friction.
fn spillback_scenario(phi: f64, n_veh: usize) -> Scenario {
    let mut l0 = link(0, 0, 1, 200.0, 10.0, 2, 2.0, fd(10.0, 5.0, 0.05, 1.0));
    l0.pipe_specs = vec![
        PipeSpec { lanes: 1, class_mask: ALL_CLASSES },
        PipeSpec { lanes: 1, class_mask: ALL_CLASSES },
    ];
    l0.friction = d(phi);
    let l1 = link(1, 1, 2, 100.0, 10.0, 1, 0.05, fd(10.0, 5.0, 0.1, 0.05));
    let vehicles =
        (0..n_veh).map(|i| Vehicle::new(i, 0, vec![0, 1], d(i as f64 * 0.25), 0, 2)).collect();
    scenario(
        vec![
            node(0, NodeType::Entry, vec![], vec![0], 0.0, 0.0),
            node(1, NodeType::Internal, vec![0], vec![1], 200.0, 0.0),
            node(2, NodeType::Exit, vec![1], vec![], 300.0, 0.0),
        ],
        vec![l0, l1],
        vehicles,
        7200.0,
        &["car"],
    )
}

#[test]
fn friction_under_spillback_terminates() {
    let mut base = Simulation::new(spillback_scenario(1.0, 300));
    let base_events = base.run();
    let mut held = Simulation::new(spillback_scenario(0.5, 300));
    let held_events = held.run();
    assert!(
        held_events < base_events * 10,
        "runaway event generation: {} events with phi = 0.5 vs {} with phi = 1.0",
        held_events,
        base_events
    );
}

#[test]
fn friction_dedup_fix_preserves_throughput() {
    let mut base = Simulation::new(spillback_scenario(1.0, 300));
    base.run();
    let mut held = Simulation::new(spillback_scenario(0.5, 300));
    held.run();
    let exits = |s: &Simulation| s.scenario.vehicles.iter().filter(|v| v.node_times.len() == 3).count();
    assert_eq!(exits(&base), exits(&held), "served-vehicle count changed");
    let last_exit = |s: &Simulation| {
        s.scenario
            .vehicles
            .iter()
            .filter_map(|v| v.node_times.last().copied())
            .map(f)
            .fold(0.0f64, f64::max)
    };
    let (a, b) = (last_exit(&base), last_exit(&held));
    assert!((a - b).abs() < 1e-6, "final exit time changed: {} vs {}", a, b);
}
