use pipe_stream::double::Double;
use pipe_stream::model::{
    FundamentalDiagram, Link, LinkAttrs, LinkStateChange, Node, NodeType, Scenario, Vehicle,
};
use pipe_stream::simulation::Simulation;

fn d(x: f64) -> Double {
    Double { bits: x.to_bits() }
}

fn f(x: Double) -> f64 {
    f64::from_bits(x.bits)
}

fn fd(u: f64, w: f64, kx: f64, c: f64) -> FundamentalDiagram {
    FundamentalDiagram { u: d(u), w: d(w), kx: d(kx), c: d(c) }
}

fn node(id: usize, node_type: NodeType, incoming: Vec<usize>, outgoing: Vec<usize>, x: f64, y: f64) -> Node {
    Node {
        id,
        node_type,
        incoming_links: incoming,
        outgoing_links: outgoing,
        points: (d(x), d(y)),
        signals: vec![],
    }
}

fn link(
    id: usize,
    up: usize,
    down: usize,
    length: f64,
    speed: f64,
    lanes: u8,
    capacity: f64,
    diagram: FundamentalDiagram,
) -> Link {
    Link::new(id, up, down, d(length), d(speed), lanes, d(capacity), diagram, vec![])
}

fn scenario(nodes: Vec<Node>, links: Vec<Link>, vehicles: Vec<Vehicle>, duration: f64, classes: &[&str]) -> Scenario {
    Scenario {
        nodes,
        links,
        vehicles,
        demand: vec![],
        start_time: d(0.0),
        duration: d(duration),
        classes: classes.iter().map(|c| c.to_string()).collect(),
        link_schedule: Vec::new(),
        assignment_excluded: Vec::new(),
    }
}

fn run(s: Scenario) -> Simulation {
    let mut sim = Simulation::new(s);
    sim.run();
    sim
}

fn time(v: &Vehicle, k: usize) -> f64 {
    f(v.node_times[k])
}

fn assert_time(actual: f64, expected: f64, msg: &str) {
    assert!((actual - expected).abs() < 1e-9, "{msg}: expected {expected}, got {actual}");
}

fn chain() -> Vec<Node> {
    vec![
        node(0, NodeType::Entry, vec![], vec![0], 0.0, 0.0),
        node(1, NodeType::Internal, vec![0], vec![1], 1.0, 0.0),
        node(2, NodeType::Exit, vec![1], vec![], 2.0, 0.0),
    ]
}

fn corridor(lanes_l0: u8, kx0: f64, c1: f64, n_veh: usize) -> Scenario {
    scenario(
        chain(),
        vec![
            link(0, 0, 1, 100.0, 10.0, lanes_l0, 10.0, fd(10.0, 5.0, kx0, 10.0)),
            link(1, 1, 2, 100.0, 10.0, 1, c1, fd(10.0, 5.0, 10.0, c1)),
        ],
        (0..n_veh).map(|i| Vehicle::new(i, 0, vec![0, 1], d(0.0), 0, 2)).collect(),
        100_000.0,
        &["car"],
    )
}

fn change(time: f64, link_id: usize, attrs: LinkAttrs) -> LinkStateChange {
    LinkStateChange { time: d(time), link_id, attrs }
}

#[test]
fn capacity_drop_switches_discharge_headway() {
    let base = run(corridor(2, 10.0, 0.01, 6));
    for (k, veh) in base.scenario.vehicles.iter().enumerate() {
        assert_time(time(veh, 1), 10.0 + 100.0 * k as f64, &format!("baseline veh {k} discharge"));
    }
    let mut s = corridor(2, 10.0, 0.01, 6);
    s.link_schedule =
        vec![change(150.0, 1, LinkAttrs { capacity: Some(d(0.005)), ..Default::default() })];
    let sim = run(s);
    let v = &sim.scenario.vehicles;
    let expected = [10.0, 110.0, 210.0, 410.0, 610.0, 810.0];
    for (k, &t) in expected.iter().enumerate() {
        assert_time(time(&v[k], 1), t, &format!("veh {k} discharge"));
    }
}

#[test]
fn closure_drains_and_reopens_exactly_at_until() {
    let mut s = corridor(1, 10.0, 10.0, 10);
    s.links[0].capacity = d(1.0);
    s.link_schedule = vec![
        change(4.5, 0, LinkAttrs { class_masks: Some(vec![0]), ..Default::default() }),
        change(40.0, 0, LinkAttrs { class_masks: Some(vec![u64::MAX]), ..Default::default() }),
    ];
    let sim = run(s);
    let v = &sim.scenario.vehicles;
    for k in 0..5usize {
        assert_time(time(&v[k], 0), k as f64, &format!("veh {k} entry"));
        assert_time(time(&v[k], 1), k as f64 + 10.0, &format!("veh {k} drains through node 1"));
    }
    for k in 5..10usize {
        assert_time(time(&v[k], 0), 40.0 + (k - 5) as f64, &format!("veh {k} entry after reopen"));
    }
}

#[test]
fn lane_add_admits_blocked_vehicle_immediately() {
    let base = run(corridor(1, 0.02, 0.01, 3));
    assert_time(time(&base.scenario.vehicles[2], 0), 30.0, "baseline veh 2 entry behind the wave");
    let mut s = corridor(1, 0.02, 0.01, 3);
    s.link_schedule = vec![change(15.0, 0, LinkAttrs { num_lanes: Some(2), ..Default::default() })];
    let sim = run(s);
    assert_time(time(&sim.scenario.vehicles[2], 0), 15.0, "veh 2 enters with the added lane");
}

#[test]
fn storage_shrink_blocks_until_overfill_drains() {
    let mut s = corridor(2, 0.02, 0.01, 6);
    s.link_schedule = vec![change(5.0, 0, LinkAttrs { num_lanes: Some(1), ..Default::default() })];
    let sim = run(s);
    let v = &sim.scenario.vehicles;
    assert_time(time(&v[0], 1), 10.0, "veh 0 discharge");
    assert_time(time(&v[1], 1), 110.0, "veh 1 discharge");
    assert_time(time(&v[2], 1), 210.0, "veh 2 discharge");
    assert_time(time(&v[4], 0), 230.0, "veh 4 entry waits for the over-fill to drain");
}

#[test]
fn empty_or_out_of_horizon_schedule_is_inert() {
    let baseline = run(corridor(2, 0.02, 0.01, 6));
    let empty = run({
        let mut s = corridor(2, 0.02, 0.01, 6);
        s.link_schedule = Vec::new();
        s
    });
    let beyond = run({
        let mut s = corridor(2, 0.02, 0.01, 6);
        s.duration = d(1000.0);
        s.link_schedule =
            vec![change(2000.0, 0, LinkAttrs { capacity: Some(d(0.1)), ..Default::default() })];
        s
    });
    let baseline_short = run({
        let mut s = corridor(2, 0.02, 0.01, 6);
        s.duration = d(1000.0);
        s
    });
    for (a, b) in baseline.scenario.vehicles.iter().zip(empty.scenario.vehicles.iter()) {
        assert_eq!(a.node_times.len(), b.node_times.len(), "veh {} node_times length", a.id);
        for (ta, tb) in a.node_times.iter().zip(b.node_times.iter()) {
            assert!(ta.bits == tb.bits, "veh {} bit-identical", a.id);
        }
    }
    for (a, b) in baseline_short.scenario.vehicles.iter().zip(beyond.scenario.vehicles.iter()) {
        for (ta, tb) in a.node_times.iter().zip(b.node_times.iter()) {
            assert!(ta.bits == tb.bits, "veh {} bit-identical with out-of-horizon schedule", a.id);
        }
    }
}

#[test]
fn speed_change_applies_to_subsequent_entries() {
    let mut s = corridor(1, 10.0, 10.0, 4);
    s.links[0].capacity = d(1.0);
    s.link_schedule =
        vec![change(1.5, 0, LinkAttrs { speed: Some(d(5.0)), ..Default::default() })];
    let sim = run(s);
    let v = &sim.scenario.vehicles;
    assert_time(time(&v[0], 1), 10.0, "veh 0 old speed");
    assert_time(time(&v[1], 1), 11.0, "veh 1 old speed");
    assert_time(time(&v[2], 1), 22.0, "veh 2 new speed");
    assert_time(time(&v[3], 1), 23.0, "veh 3 new speed");
}

#[test]
fn an_entry_beyond_the_horizon_is_inert_behind_others() {
    let change_at = |time: f64, value: f64| {
        change(time, 1, LinkAttrs { capacity: Some(d(value)), ..Default::default() })
    };
    let run_with = |schedule: Vec<LinkStateChange>| {
        let mut s = corridor(2, 0.02, 0.01, 6);
        s.duration = d(1000.0);
        s.link_schedule = schedule;
        run(s)
    };
    let some = run_with(vec![change_at(150.0, 0.005), change_at(400.0, 0.01)]);
    let more = run_with(vec![
        change_at(150.0, 0.005),
        change_at(2000.0, 0.1),
        change_at(400.0, 0.01),
        change_at(3000.0, 0.2),
    ]);
    for (a, b) in some.scenario.vehicles.iter().zip(more.scenario.vehicles.iter()) {
        assert_eq!(a.node_times, b.node_times);
    }
}

/// Passages at the end of link 0, in the order of entry.
fn passages(sim: &Simulation) -> Vec<f64> {
    let mut v: Vec<(f64, f64)> =
        sim.scenario.vehicles.iter().map(|v| (time(v, 0), time(v, 1))).collect();
    v.sort_by(|a, b| a.0.total_cmp(&b.0));
    v.into_iter().map(|x| x.1).collect()
}

#[test]
fn lower_speeds_keep_the_order_and_higher_ones_need_not() {
    let run_with = |speeds: &[(f64, f64)]| {
        let mut s = corridor(1, 10.0, 10.0, 4);
        s.links[0].capacity = d(1.0);
        s.link_schedule = speeds
            .iter()
            .map(|(t, v)| change(*t, 0, LinkAttrs { speed: Some(d(*v)), ..Default::default() }))
            .collect();
        passages(&run(s))
    };
    let lowered = run_with(&[(0.5, 8.0), (1.5, 5.0), (2.5, 5.0)]);
    assert!(lowered.windows(2).all(|w| w[0] <= w[1]), "{lowered:?}");
    // Those who enter at the higher speed arrive before those still under way.
    let raised = run_with(&[(0.0, 5.0), (1.5, 20.0)]);
    assert!(raised[2] < raised[0], "{raised:?}");
}

#[test]
fn entries_after_the_horizon_change_no_run() {
    let change_at = |time: f64, value: f64| {
        change(time, 1, LinkAttrs { capacity: Some(d(value)), ..Default::default() })
    };
    let closed = |time: f64| {
        change(time, 0, LinkAttrs { class_masks: Some(vec![0]), ..Default::default() })
    };
    let shared = vec![change_at(150.0, 0.005), closed(200.0)];
    let run_with = |late: Vec<LinkStateChange>| {
        let mut s = corridor(2, 0.02, 0.01, 12);
        s.duration = d(1000.0);
        s.link_schedule = shared.clone();
        s.link_schedule.extend(late);
        let mut sim = Simulation::new(s);
        let events = sim.run();
        (sim, events)
    };
    let (a, n) = run_with(vec![]);
    for late in [
        vec![change_at(1500.0, 0.1)],
        vec![change(2000.0, 0, LinkAttrs { speed: Some(d(1.0)), ..Default::default() }), closed(3000.0)],
    ] {
        let (b, m) = run_with(late);
        assert_eq!(n, m);
        for (x, y) in a.scenario.vehicles.iter().zip(b.scenario.vehicles.iter()) {
            assert_eq!(x.node_times, y.node_times);
            assert_eq!(x.pipes_taken, y.pipes_taken);
        }
    }
    assert!(a.scenario.vehicles.iter().any(|v| v.node_times.is_empty()));
}
