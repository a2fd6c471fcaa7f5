use pipe_stream::double::Double;
use pipe_stream::model::{FundamentalDiagram, Link, Node, NodeType, Scenario, Vehicle};
use pipe_stream::reference::{compare_with_observations, geh, ObservedRecord, ReferenceKind};
use pipe_stream::simulation::Simulation;
use pipe_stream::verification::CheckStatus;

fn d(x: f64) -> Double {
    Double { bits: x.to_bits() }
}

fn f(x: Double) -> f64 {
    f64::from_bits(x.bits)
}

fn fd(u: f64, w: f64, kx: f64, c: f64) -> FundamentalDiagram {
    FundamentalDiagram { u: d(u), w: d(w), kx: d(kx), c: d(c) }
}

fn node(id: usize, node_type: NodeType, incoming: Vec<usize>, outgoing: Vec<usize>, x: f64, y: f64) -> Node {
    Node {
        id,
        node_type,
        incoming_links: incoming,
        outgoing_links: outgoing,
        points: (d(x), d(y)),
        signals: vec![],
    }
}

fn link(
    id: usize,
    up: usize,
    down: usize,
    length: f64,
    speed: f64,
    lanes: u8,
    capacity: f64,
    diagram: FundamentalDiagram,
) -> Link {
    Link::new(id, up, down, d(length), d(speed), lanes, d(capacity), diagram, vec![])
}

fn scenario(nodes: Vec<Node>, links: Vec<Link>, vehicles: Vec<Vehicle>, duration: f64, classes: &[&str]) -> Scenario {
    Scenario {
        nodes,
        links,
        vehicles,
        demand: vec![],
        start_time: d(0.0),
        duration: d(duration),
        classes: classes.iter().map(|c| c.to_string()).collect(),
        link_schedule: Vec::new(),
        assignment_excluded: Vec::new(),
    }
}

fn free_flow_scenario(n: usize, spacing: f64) -> Scenario {
    scenario(
        vec![
            node(0, NodeType::Entry, vec![], vec![0], 0.0, 0.0),
            node(1, NodeType::Exit, vec![0], vec![], 1.0, 0.0),
        ],
        vec![link(0, 0, 1, 100.0, 10.0, 1, 10.0, fd(10.0, 5.0, 10.0, 10.0))],
        (0..n).map(|i| Vehicle::new(i, 0, vec![0], d(i as f64 * spacing), 0, 1)).collect(),
        100_000.0,
        &["car"],
    )
}

fn record(link_id: usize, flow: Option<f64>, speed: Option<f64>, label: Option<&str>) -> ObservedRecord {
    ObservedRecord {
        link_id,
        t_start: d(0.0),
        t_end: d(360.0),
        flow_veh_h: flow.map(d),
        speed_kmh: speed.map(d),
        label: label.map(String::from),
    }
}

#[test]
fn matching_observation_passes_geh_and_speed() {
    let mut sim = Simulation::new(free_flow_scenario(36, 10.0));
    sim.run();
    let records = vec![record(0, Some(360.0), Some(36.0), Some("synthetic detector"))];
    let report = compare_with_observations(&sim.scenario, &records);
    assert_eq!(report.checks.len(), 2);
    assert_eq!(report.n_fail, 0, "{:#?}", report.checks);
    assert_eq!(report.n_pass, 2, "{:#?}", report.checks);
}

#[test]
fn wrong_observation_fails() {
    let mut sim = Simulation::new(free_flow_scenario(36, 10.0));
    sim.run();
    let records = vec![record(0, Some(1800.0), None, None)];
    let report = compare_with_observations(&sim.scenario, &records);
    assert_eq!(report.n_fail, 1, "{:#?}", report.checks);
}

#[test]
fn every_comparison_is_graded_and_labelled() {
    let mut sim = Simulation::new(free_flow_scenario(36, 10.0));
    sim.run();
    let records = vec![
        record(0, Some(360.0), Some(36.0), Some("a")),
        record(0, None, Some(72.0), None),
    ];
    let report = compare_with_observations(&sim.scenario, &records);
    let kinds: Vec<ReferenceKind> = report.checks.iter().map(|c| c.kind).collect();
    assert_eq!(kinds, vec![ReferenceKind::Flow, ReferenceKind::Speed, ReferenceKind::Speed]);
    assert_eq!(report.checks[0].label.as_deref(), Some("a"));
    assert_eq!(report.checks[2].status, CheckStatus::Fail);
    assert_eq!(f(report.checks[2].error_pct), 50.0);
    assert_eq!(report.n_pass + report.n_warn + report.n_fail, 3);
}

#[test]
fn geh_of_two_flows() {
    assert_eq!(f(geh(d(0.0), d(0.0))), 0.0);
    assert_eq!(f(geh(d(100.0), d(100.0))), 0.0);
    // 2 * 20^2 / 200 = 4.
    assert_eq!(f(geh(d(110.0), d(90.0))), 2.0);
}

#[test]
fn a_geh_of_ten_warrants_caution() {
    let at = |flow: f64| {
        vec![ObservedRecord { t_end: d(3600.0), ..record(0, Some(flow), None, None) }]
    };
    let report = compare_with_observations(&free_flow_scenario(0, 10.0), &at(50.0));
    assert_eq!(report.checks.len(), 1);
    assert_eq!(f(report.checks[0].simulated), 0.0);
    assert_eq!(report.checks[0].geh.map(f), Some(10.0));
    assert_eq!(report.checks[0].status, CheckStatus::Warn);
    assert_eq!((report.n_pass, report.n_warn, report.n_fail), (0, 1, 0));
    let worse = compare_with_observations(&free_flow_scenario(0, 10.0), &at(51.0));
    assert_eq!(worse.checks[0].status, CheckStatus::Fail);
    let better = compare_with_observations(&free_flow_scenario(0, 10.0), &at(12.0));
    assert_eq!(better.checks[0].status, CheckStatus::Pass);
}
