use pipe_stream::double::Double;
use pipe_stream::model::{
    FundamentalDiagram, Link, Node, NodeType, PipeSpec, Scenario, Vehicle, ALL_CLASSES,
};
use pipe_stream::simulation::Simulation;
use pipe_stream::verification::{
    check_node_fifo, rel_err, summarize, verify_scenario, Check, CheckStatus, Detail, ElementReport,
    ElementType, VerificationReport,
};

fn d(x: f64) -> Double {
    Double { bits: x.to_bits() }
}

fn f(x: Double) -> f64 {
    f64::from_bits(x.bits)
}

fn fd(u: f64, w: f64, kx: f64, c: f64) -> FundamentalDiagram {
    FundamentalDiagram { u: d(u), w: d(w), kx: d(kx), c: d(c) }
}

fn node(id: usize, node_type: NodeType, incoming: Vec<usize>, outgoing: Vec<usize>, x: f64, y: f64) -> Node {
    Node {
        id,
        node_type,
        incoming_links: incoming,
        outgoing_links: outgoing,
        points: (d(x), d(y)),
        signals: vec![],
    }
}

fn link(
    id: usize,
    up: usize,
    down: usize,
    length: f64,
    speed: f64,
    lanes: u8,
    capacity: f64,
    diagram: FundamentalDiagram,
) -> Link {
    Link::new(id, up, down, d(length), d(speed), lanes, d(capacity), diagram, vec![])
}

fn scenario(nodes: Vec<Node>, links: Vec<Link>, vehicles: Vec<Vehicle>, duration: f64, classes: &[&str]) -> Scenario {
    Scenario {
        nodes,
        links,
        vehicles,
        demand: vec![],
        start_time: d(0.0),
        duration: d(duration),
        classes: classes.iter().map(|c| c.to_string()).collect(),
        link_schedule: Vec::new(),
        assignment_excluded: Vec::new(),
    }
}

fn chain() -> Vec<Node> {
    vec![
        node(0, NodeType::Entry, vec![], vec![0], 0.0, 0.0),
        node(1, NodeType::Internal, vec![0], vec![1], 1.0, 0.0),
        node(2, NodeType::Exit, vec![1], vec![], 2.0, 0.0),
    ]
}

/// More demand than the bottleneck can take.
fn congested_scenario() -> Scenario {
    scenario(
        chain(),
        vec![
            link(0, 0, 1, 100.0, 10.0, 2, 10.0, fd(10.0, 5.0, 0.02, 10.0)),
            link(1, 1, 2, 100.0, 10.0, 1, 0.05, fd(10.0, 5.0, 10.0, 0.05)),
        ],
        (0..12).map(|i| Vehicle::new(i, 0, vec![0, 1], d(0.0), 0, 2)).collect(),
        100_000.0,
        &["car"],
    )
}

fn run_and_verify() -> VerificationReport {
    let mut sim = Simulation::new(congested_scenario());
    sim.run();
    verify_scenario(&sim.scenario, d(60.0))
}

fn link_report(report: &VerificationReport, id: usize) -> &ElementReport {
    report
        .elements
        .iter()
        .find(|e| e.element_type == ElementType::Link && e.element_id == id)
        .expect("link report")
}

fn check_of<'a>(e: &'a ElementReport, id: &str) -> &'a Check {
    e.checks.iter().find(|c| c.kind.id() == id).expect("check")
}

#[test]
fn engine_output_passes_all_mechanism_checks() {
    let report = run_and_verify();
    let mechanism_failures: Vec<_> = report
        .elements
        .iter()
        .flat_map(|e| &e.checks)
        .filter(|c| c.status == CheckStatus::Fail && c.kind.id() != "fd_adherence")
        .collect();
    assert!(
        mechanism_failures.is_empty(),
        "engine output should never fail its own physics: {:#?}",
        mechanism_failures
    );
}

#[test]
fn spillback_exercises_backward_wave_check() {
    let report = run_and_verify();
    let wave = check_of(link_report(&report, 0), "backward_wave");
    assert_eq!(
        wave.status,
        CheckStatus::Pass,
        "spillback must be observed and match L/w: {:?}",
        wave
    );
    let measured = f(wave.measured.expect("measured wave delay"));
    let expected = f(wave.expected.expect("expected wave delay"));
    assert!((measured - expected).abs() / expected < 0.01);
}

#[test]
fn capacity_check_reflects_bottleneck() {
    let report = run_and_verify();
    let cap = check_of(link_report(&report, 1), "inflow_capacity");
    assert_eq!(cap.status, CheckStatus::Pass);
    assert!((f(cap.measured.unwrap()) - 20.0).abs() < 1e-6);
}

#[test]
fn entry_reports_demand_served() {
    let report = run_and_verify();
    let entry = report
        .elements
        .iter()
        .find(|e| e.element_type == ElementType::Entry)
        .expect("entry report");
    let served = check_of(entry, "demand_served");
    assert_eq!(served.status, CheckStatus::Pass);
    assert!((f(served.measured.unwrap()) - 100.0).abs() < 1e-9);
}

#[test]
fn corrupted_output_fails_free_flow_check() {
    let mut sim = Simulation::new(congested_scenario());
    sim.run();
    let v = &mut sim.scenario.vehicles[0];
    if v.node_times.len() >= 2 {
        v.node_times[1] = d(f(v.node_times[0]) + 1.0);
    }
    let report = verify_scenario(&sim.scenario, d(60.0));
    let ff = check_of(link_report(&report, 0), "free_flow_traversal");
    assert_eq!(ff.status, CheckStatus::Fail, "teleporting vehicle must be caught");
}

/// Two pipes with a jammed exit pipe.
fn multi_pipe_report() -> VerificationReport {
    let fd_out = fd(10.0, 5.0, 10.0, 10.0);
    let mut l0 = link(0, 0, 1, 100.0, 10.0, 2, 10.0, fd(10.0, 5.0, 0.02, 5.0));
    l0.pipe_specs = vec![
        PipeSpec { lanes: 1, class_mask: ALL_CLASSES },
        PipeSpec { lanes: 1, class_mask: ALL_CLASSES },
    ];
    l0.moves.insert(2, vec![0]);
    l0.moves.insert(1, vec![1]);
    let mut l2 = link(2, 1, 3, 100.0, 10.0, 1, 0.01, fd_out);
    l2.fd.c = d(0.01);
    let mut vehicles: Vec<Vehicle> =
        (0..4).map(|i| Vehicle::new(i, 0, vec![0, 2], d(0.0), 0, 3)).collect();
    vehicles.extend((4..6).map(|i| Vehicle::new(i, 0, vec![0, 1], d(0.0), 0, 2)));
    let s = scenario(
        vec![
            node(0, NodeType::Entry, vec![], vec![0], 0.0, 0.0),
            node(1, NodeType::Internal, vec![0], vec![1, 2], 1.0, 0.0),
            node(2, NodeType::Exit, vec![1], vec![], 2.0, 0.0),
            node(3, NodeType::Exit, vec![2], vec![], 2.0, 1.0),
        ],
        vec![l0, link(1, 1, 2, 100.0, 10.0, 1, 10.0, fd_out), l2],
        vehicles,
        100_000.0,
        &["car"],
    );
    let mut sim = Simulation::new(s);
    sim.run();
    verify_scenario(&sim.scenario, d(60.0))
}

#[test]
fn multi_pipe_engine_output_passes_mechanism_checks() {
    let report = multi_pipe_report();
    let failures: Vec<_> = report
        .elements
        .iter()
        .flat_map(|e| &e.checks)
        .filter(|c| {
            c.status == CheckStatus::Fail
                && c.kind.id() != "fd_adherence"
                && c.kind.id() != "flow_conservation"
        })
        .collect();
    assert!(failures.is_empty(), "{failures:#?}");
}

#[test]
fn multi_pipe_link_gets_per_pipe_elements() {
    let report = multi_pipe_report();
    let pipes: Vec<_> = report
        .elements
        .iter()
        .filter(|e| e.element_type == ElementType::Link && e.element_id == 0 && e.pipe.is_some())
        .collect();
    assert_eq!(pipes.len(), 2, "one element per pipe of link 0");
    let wave = pipes[0]
        .checks
        .iter()
        .chain(pipes[1].checks.iter())
        .filter(|c| c.kind.id() == "backward_wave")
        .find(|c| c.status == CheckStatus::Pass);
    assert!(wave.is_some(), "spillback on the exit pipe must exercise the wave check");
}

#[test]
fn an_element_is_its_worst_check_and_the_summary_adds_up() {
    let report = run_and_verify();
    for e in &report.elements {
        let worst = e.checks.iter().map(|c| c.status.severity()).max().unwrap();
        assert_eq!(e.status.severity(), worst);
    }
    let s = report.summary;
    assert_eq!(s.elements_checked, report.elements.len());
    assert_eq!(
        s.elements_pass + s.elements_warn + s.elements_fail + s.elements_not_exercised,
        s.elements_checked
    );
    assert_eq!(s, summarize(&report.elements));
    for pair in report.elements.windows(2) {
        assert!(pair[0].status.severity() >= pair[1].status.severity());
    }
}

#[test]
fn overtaking_within_a_pipe_is_reported() {
    let mut sim = Simulation::new(congested_scenario());
    sim.run();
    assert_eq!(check_node_fifo(&sim.scenario, 1).status, CheckStatus::Pass);
    let last = sim.scenario.vehicles[11].node_times[1];
    sim.scenario.vehicles[0].node_times[1] = d(f(last) + 1.0);
    assert_eq!(check_node_fifo(&sim.scenario, 1).status, CheckStatus::Fail);
    assert_eq!(check_node_fifo(&sim.scenario, 9).detail, Detail::NodeMissing);
}

#[test]
fn relative_errors() {
    assert_eq!(f(rel_err(d(11.0), d(10.0))), 10.0);
    assert_eq!(f(rel_err(d(0.0), d(0.0))), 0.0);
}

#[test]
fn an_idle_scenario_exercises_nothing() {
    let mut s = congested_scenario();
    s.vehicles = vec![];
    let report = verify_scenario(&s, d(60.0));
    assert!(report.elements.iter().all(|e| e.status == CheckStatus::NotExercised));
}

#[test]
fn a_link_of_one_pipe_is_checked_against_that_pipe() {
    let mut l0 = link(0, 0, 1, 100.0, 10.0, 1, 0.1, fd(10.0, 5.0, 10.0, 1.0));
    l0.pipe_specs = vec![PipeSpec { lanes: 1, class_mask: ALL_CLASSES }];
    let mut sim = Simulation::new(scenario(
        chain(),
        vec![l0, link(1, 1, 2, 100.0, 10.0, 1, 10.0, fd(10.0, 5.0, 10.0, 10.0))],
        (0..5).map(|i| Vehicle::new(i, 0, vec![0, 1], d(0.0), 0, 2)).collect(),
        1000.0,
        &["car"],
    ));
    sim.run();
    assert_eq!(f(sim.scenario.links[0].pipes[0].capacity), 1.0);
    let report = verify_scenario(&sim.scenario, d(60.0));
    let inflow = check_of(link_report(&report, 0), "inflow_capacity");
    assert_eq!(inflow.status, CheckStatus::Pass, "{inflow:?}");
    assert_eq!(f(inflow.expected.unwrap()), 1.0);
}

#[test]
fn a_fast_passage_is_found_on_its_pipe() {
    let mut l0 = link(0, 0, 1, 100.0, 10.0, 2, 10.0, fd(10.0, 5.0, 10.0, 5.0));
    l0.pipe_specs = vec![
        PipeSpec { lanes: 1, class_mask: ALL_CLASSES },
        PipeSpec { lanes: 1, class_mask: ALL_CLASSES },
    ];
    let mut sim = Simulation::new(scenario(
        chain(),
        vec![l0, link(1, 1, 2, 100.0, 10.0, 1, 10.0, fd(10.0, 5.0, 10.0, 10.0))],
        (0..4).map(|i| Vehicle::new(i, 0, vec![0, 1], d(0.0), 0, 2)).collect(),
        1000.0,
        &["car"],
    ));
    sim.run();
    let p = sim.scenario.vehicles[2].pipes_taken[0];
    let entry = f(sim.scenario.vehicles[2].node_times[0]);
    sim.scenario.vehicles[2].node_times[1] = d(entry + 9.8);
    let report = verify_scenario(&sim.scenario, d(60.0));
    for e in report.elements.iter().filter(|e| e.element_id == 0 && e.pipe.is_some()) {
        let failed = check_of(e, "free_flow_traversal").status == CheckStatus::Fail;
        assert_eq!(failed, e.pipe == Some(p));
    }
}
