use pipe_stream::double::Double;
use pipe_stream::model::{FundamentalDiagram, Link, Node, NodeType, Scenario, Vehicle};
use pipe_stream::simulation::Simulation;

fn d(x: f64) -> Double {
    Double { bits: x.to_bits() }
}

fn fd(u: f64, w: f64, kx: f64, c: f64) -> FundamentalDiagram {
    FundamentalDiagram { u: d(u), w: d(w), kx: d(kx), c: d(c) }
}

fn node(id: usize, node_type: NodeType, incoming: Vec<usize>, outgoing: Vec<usize>, x: f64, y: f64) -> Node {
    Node {
        id,
        node_type,
        incoming_links: incoming,
        outgoing_links: outgoing,
        points: (d(x), d(y)),
        signals: vec![],
    }
}

fn link(
    id: usize,
    up: usize,
    down: usize,
    length: f64,
    speed: f64,
    lanes: u8,
    capacity: f64,
    diagram: FundamentalDiagram,
) -> Link {
    Link::new(id, up, down, d(length), d(speed), lanes, d(capacity), diagram, vec![])
}

fn scenario(nodes: Vec<Node>, links: Vec<Link>, vehicles: Vec<Vehicle>, duration: f64, classes: &[&str]) -> Scenario {
    Scenario {
        nodes,
        links,
        vehicles,
        demand: vec![],
        start_time: d(0.0),
        duration: d(duration),
        classes: classes.iter().map(|c| c.to_string()).collect(),
        link_schedule: Vec::new(),
        assignment_excluded: Vec::new(),
    }
}

fn fd_main() -> FundamentalDiagram {
    fd(10.0, 5.0, 0.15, 0.5)
}

fn fd_b() -> FundamentalDiagram {
    fd(10.0, 5.0, 0.15, 0.25)
}

/// An approach of 200 m with two lanes before a bottleneck.
fn whole(n_veh: usize) -> Scenario {
    scenario(
        vec![
            node(0, NodeType::Entry, vec![], vec![0], 0.0, 0.0),
            node(1, NodeType::Internal, vec![0], vec![1], 1.0, 0.0),
            node(2, NodeType::Exit, vec![1], vec![], 2.0, 0.0),
        ],
        vec![
            link(0, 0, 1, 200.0, 10.0, 2, 1.0, fd_main()),
            link(1, 1, 2, 100.0, 10.0, 1, 0.25, fd_b()),
        ],
        (0..n_veh).map(|i| Vehicle::new(i, 0, vec![0, 1], d(i as f64), 0, 2)).collect(),
        1_000_000.0,
        &["car"],
    )
}

/// The same with the approach cut in two.
fn split(n_veh: usize) -> Scenario {
    scenario(
        vec![
            node(0, NodeType::Entry, vec![], vec![0], 0.0, 0.0),
            node(1, NodeType::Internal, vec![0], vec![1], 1.0, 0.0),
            node(2, NodeType::Internal, vec![1], vec![2], 2.0, 0.0),
            node(3, NodeType::Exit, vec![2], vec![], 3.0, 0.0),
        ],
        vec![
            link(0, 0, 1, 100.0, 10.0, 2, 1.0, fd_main()),
            link(1, 1, 2, 100.0, 10.0, 2, 1.0, fd_main()),
            link(2, 2, 3, 100.0, 10.0, 1, 0.25, fd_b()),
        ],
        (0..n_veh).map(|i| Vehicle::new(i, 0, vec![0, 1, 2], d(i as f64), 0, 3)).collect(),
        1_000_000.0,
        &["car"],
    )
}

#[test]
fn link_splitting_is_bit_exact_at_phi_1() {
    let n = 100;
    let mut sim_w = Simulation::new(whole(n));
    sim_w.run();
    let mut sim_s = Simulation::new(split(n));
    sim_s.run();
    for (vw, vs) in sim_w.scenario.vehicles.iter().zip(sim_s.scenario.vehicles.iter()) {
        assert_eq!(vw.id, vs.id);
        assert_eq!(
            vw.node_times.first().copied(),
            vs.node_times.first().copied(),
            "corridor entry differs for vehicle {}",
            vw.id
        );
        assert_eq!(
            vw.node_times.last().copied(),
            vs.node_times.last().copied(),
            "destination arrival differs for vehicle {}",
            vw.id
        );
        assert_eq!(
            vw.node_times.get(1),
            vs.node_times.get(2),
            "bottleneck passage differs for vehicle {}",
            vw.id
        );
    }
}
