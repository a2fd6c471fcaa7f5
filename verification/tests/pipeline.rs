use pipe_stream::analysis::{compute_link_stats, compute_pipe_stats};
use pipe_stream::assignment::AssignError;
use pipe_stream::diagnostics::run_diagnostics;
use pipe_stream::digest::{digest_run, Position};
use pipe_stream::double::Double;
use pipe_stream::model::{
    Demand, FundamentalDiagram, Link, Node, NodeType, PipeSpec, Scenario, Vehicle, VehicleState,
};
use pipe_stream::pipeline::{run_scenario, RunFault};
use pipe_stream::report::export_to_xml;
use pipe_stream::simulation::eligible_pipes;
use pipe_stream::validation::ValidationError;

fn d(x: f64) -> Double {
    Double { bits: x.to_bits() }
}

fn f(x: Double) -> f64 {
    f64::from_bits(x.bits)
}

fn fd(u: f64, w: f64, kx: f64, c: f64) -> FundamentalDiagram {
    FundamentalDiagram { u: d(u), w: d(w), kx: d(kx), c: d(c) }
}

fn node(id: usize, node_type: NodeType, incoming: Vec<usize>, outgoing: Vec<usize>, x: f64, y: f64) -> Node {
    Node {
        id,
        node_type,
        incoming_links: incoming,
        outgoing_links: outgoing,
        points: (d(x), d(y)),
        signals: vec![],
    }
}

fn link(
    id: usize,
    up: usize,
    down: usize,
    length: f64,
    speed: f64,
    lanes: u8,
    capacity: f64,
    diagram: FundamentalDiagram,
) -> Link {
    Link::new(id, up, down, d(length), d(speed), lanes, d(capacity), diagram, vec![])
}

fn scenario(nodes: Vec<Node>, links: Vec<Link>, vehicles: Vec<Vehicle>, duration: f64, classes: &[&str]) -> Scenario {
    Scenario {
        nodes,
        links,
        vehicles,
        demand: vec![],
        start_time: d(0.0),
        duration: d(duration),
        classes: classes.iter().map(|c| c.to_string()).collect(),
        link_schedule: Vec::new(),
        assignment_excluded: Vec::new(),
    }
}

fn chain() -> Vec<Node> {
    vec![
        node(0, NodeType::Entry, vec![], vec![0], 0.0, 0.0),
        node(1, NodeType::Internal, vec![0], vec![1], 1.0, 0.0),
        node(2, NodeType::Exit, vec![1], vec![], 2.0, 0.0),
    ]
}

fn chain_scenario() -> Scenario {
    scenario(
        chain(),
        vec![
            link(0, 0, 1, 1000.0, 10.0, 1, 1.0, fd(10.0, 5.0, 0.2, 1.0)),
            link(1, 1, 2, 1000.0, 10.0, 1, 1.0, fd(10.0, 5.0, 0.2, 1.0)),
        ],
        vec![],
        3600.0,
        &["car"],
    )
}

fn wish(period_end: f64, destination: usize, flow: f64, count: f64, class: Option<&str>) -> Demand {
    Demand {
        period_start: d(0.0),
        period_end: d(period_end),
        origin: 0,
        destination,
        flow: d(flow),
        count: d(count),
        class: class.map(String::from),
    }
}

/// Ten vehicles over 100 s, as the demand asks for.
fn wished() -> Scenario {
    let mut s = chain_scenario();
    s.demand.push(wish(100.0, 2, 0.0, 10.0, None));
    s
}

#[test]
fn a_run_assigns_the_demand() {
    let o = run_scenario(wished(), true).ok().expect("the scenario runs");
    assert!(o.unrouted.is_empty());
    assert!(o.events > 0);
    let v = &o.sim.scenario.vehicles;
    assert_eq!(v.len(), 10);
    for (i, x) in v.iter().enumerate() {
        assert_eq!(x.path, vec![0, 1]);
        assert_eq!(x.state, VehicleState::Exited);
        let t: Vec<f64> = x.node_times.iter().map(|y| f(*y)).collect();
        assert_eq!(t, vec![10.0 * i as f64, 10.0 * i as f64 + 100.0, 10.0 * i as f64 + 200.0]);
    }
    assert_eq!(o.sim.scenario.demand.len(), 1);
    assert_eq!(o.sim.scenario.classes, vec!["car".to_string()]);
}

#[test]
fn a_run_without_assignment_keeps_the_vehicles() {
    let mut s = wished();
    s.vehicles.push(Vehicle::new(0, 0, vec![0, 1], d(5.0), 0, 2));
    let o = run_scenario(s, false).ok().expect("the scenario runs");
    assert_eq!(o.sim.scenario.vehicles.len(), 1);
    let t: Vec<f64> = o.sim.scenario.vehicles[0].node_times.iter().map(|y| f(*y)).collect();
    assert_eq!(t, vec![5.0, 105.0, 205.0]);
    assert!(o.unrouted.is_empty());
}

#[test]
fn a_run_lists_demand_without_a_route() {
    let mut s = wished();
    let mut back = wish(100.0, 0, 0.0, 3.0, None);
    back.origin = 2;
    s.demand.push(back);
    let o = run_scenario(s, true).ok().expect("the scenario runs");
    assert_eq!(o.unrouted, vec![1]);
    assert_eq!(o.sim.scenario.vehicles.len(), 10);
}

#[test]
fn a_malformed_scenario_is_not_run() {
    let mut s = wished();
    s.links[1].num_lanes = 0;
    let r = run_scenario(s, true);
    assert!(matches!(
        r.err(),
        Some(RunFault::Invalid { fault: ValidationError::NoLanes { link: 1 } })
    ));
}

#[test]
fn nodes_must_stand_at_their_ids() {
    let mut s = wished();
    s.nodes.swap(0, 2);
    assert!(matches!(run_scenario(s, false).err(), Some(RunFault::NodeIds)));
}

#[test]
fn a_negative_length_is_not_routed() {
    let mut s = wished();
    s.links[0].length = d(-1.0);
    assert!(matches!(run_scenario(s, true).err(), Some(RunFault::NotRoutable)));
}

#[test]
fn an_unknown_class_is_not_assigned() {
    let mut s = wished();
    s.demand.push(wish(100.0, 2, 0.0, 1.0, Some("tram")));
    match run_scenario(s, true).err() {
        Some(RunFault::Unassigned { fault: AssignError::UnknownClass { demand: 1, name } }) => {
            assert_eq!(name, "tram");
        }
        _ => panic!("an unknown class"),
    }
}

/// More vehicles than the second link takes.
fn crowded() -> Scenario {
    let mut s = chain_scenario();
    s.links[0] = link(0, 0, 1, 100.0, 10.0, 1, 1.0, fd(10.0, 5.0, 0.1, 1.0));
    s.links[1] = link(1, 1, 2, 100.0, 10.0, 1, 0.1, fd(10.0, 5.0, 0.2, 0.1));
    s.demand.push(wish(60.0, 2, 0.0, 40.0, None));
    s
}

#[test]
fn two_runs_are_identical() {
    let a = run_scenario(crowded(), true).ok().expect("the scenario runs");
    let b = run_scenario(crowded(), true).ok().expect("the scenario runs");
    assert_eq!(a.events, b.events);
    for (x, y) in a.sim.scenario.vehicles.iter().zip(b.sim.scenario.vehicles.iter()) {
        let p: Vec<u64> = x.node_times.iter().map(|t| t.bits).collect();
        let q: Vec<u64> = y.node_times.iter().map(|t| t.bits).collect();
        assert_eq!(p, q);
        assert_eq!(x.pipes_taken, y.pipes_taken);
    }
}

#[test]
fn vehicles_pass_in_the_order_of_their_entry() {
    let o = run_scenario(crowded(), true).ok().expect("the scenario runs");
    let v = &o.sim.scenario.vehicles;
    for w in v.windows(2) {
        for (a, b) in w[0].node_times.iter().zip(w[1].node_times.iter()) {
            assert!(f(*a) < f(*b));
        }
    }
    for x in v {
        for k in 1..x.node_times.len() {
            assert!(f(x.node_times[k]) >= f(x.node_times[k - 1]) + 10.0 - 1e-9);
        }
    }
}

#[test]
fn rates_are_not_negative() {
    let o = run_scenario(crowded(), true).ok().expect("the scenario runs");
    for s in compute_link_stats(&o.sim.scenario, d(60.0)).values() {
        for series in [&s.flow, &s.density, &s.speed] {
            assert!(series.values.iter().all(|x| f(*x) >= 0.0));
        }
    }
    for pipes in compute_pipe_stats(&o.sim.scenario, d(60.0)).values() {
        for p in pipes {
            assert!(p.flow.values.iter().all(|x| f(*x) >= 0.0));
            assert!(p.density.values.iter().all(|x| f(*x) >= 0.0));
        }
    }
}

#[test]
fn a_digest_covers_the_whole_run() {
    let o = run_scenario(wished(), true).ok().expect("the scenario runs");
    let s = &o.sim.scenario;
    let report = run_diagnostics(s, d(60.0), 0);
    assert_eq!(report.summary.exited_vehicles, 10);
    let digest = digest_run(&report, s);
    assert_eq!(digest.internal_nodes, 1);
    assert_eq!(digest.links.len(), 2);
    assert_eq!(f(digest.links[0].length_km), 1.0);
    assert_eq!(f(digest.links[0].k_crit), 100.0);
    assert!(digest.links[0].observed.is_some());
    let places: Vec<Position> = digest.nodes.iter().map(|n| n.position).collect();
    assert_eq!(places, vec![Position::Entry, Position::Internal, Position::Exit]);
    assert_eq!((digest.nodes[1].incoming, digest.nodes[1].outgoing), (1, 1));
    assert!(digest.nodes[0].conservation.is_none());
    assert!(digest.nodes[1].conservation.is_some());
    assert_eq!(digest.travel.times.len(), 10);
    assert_eq!(f(digest.travel.mean_travel_s), 200.0);
    let p: Vec<u8> = digest.percentiles.iter().map(|x| x.0).collect();
    assert_eq!(p, vec![10, 25, 50, 75, 90, 95, 99]);
    assert!(digest.percentiles.iter().all(|x| f(x.1) == 200.0));
    assert!(!digest.findings.is_empty());
}

/// Two classes on a link with a lane for each, and not enough time for all.
fn two_lanes() -> Scenario {
    let mut s = crowded();
    s.classes = vec!["car".to_string(), "bus".to_string()];
    s.links[0].num_lanes = 2;
    s.links[0].pipe_specs = vec![
        PipeSpec { lanes: 1, class_mask: 1 },
        PipeSpec { lanes: 1, class_mask: 2 },
    ];
    s.demand.push(wish(60.0, 2, 0.0, 10.0, Some("bus")));
    s.duration = d(200.0);
    s
}

#[test]
fn trips_follow_their_paths() {
    let o = run_scenario(two_lanes(), true).ok().expect("the scenario runs");
    let s = &o.sim.scenario;
    assert_eq!(s.vehicles.len(), 50);
    let gone = s.vehicles.iter().filter(|v| v.state == VehicleState::Exited).count();
    assert!(0 < gone && gone < 50);
    for v in &s.vehicles {
        assert!(v.pipes_taken.len() <= v.path.len());
        let left = v.state == VehicleState::Exited;
        assert_eq!(v.node_times.len(), v.pipes_taken.len() + if left { 1 } else { 0 });
        if left {
            assert_eq!(v.pipes_taken.len(), v.path.len());
        }
        for (k, p) in v.pipes_taken.iter().enumerate() {
            let next = v.path.get(k + 1).copied();
            assert!(eligible_pipes(&s.links[v.path[k]], v.class_id, next).contains(p));
        }
    }
}

#[test]
fn lanes_hold_the_classes_that_they_allow() {
    let o = run_scenario(two_lanes(), true).ok().expect("the scenario runs");
    let s = &o.sim.scenario;
    for v in &s.vehicles {
        if let Some(p) = v.pipes_taken.first() {
            assert_eq!(*p as usize, v.class_id);
        }
    }
    for l in &s.links {
        for p in &l.pipes {
            for v in p.waiting_queue.iter().chain(p.entry_queue.iter()) {
                assert_eq!((p.class_mask >> s.vehicles[*v].class_id) & 1, 1);
            }
        }
    }
}

#[test]
fn a_report_is_an_xml_document() {
    let o = run_scenario(wished(), true).ok().expect("the scenario runs");
    let s = &o.sim.scenario;
    let report = run_diagnostics(s, d(60.0), 0);
    let xml = export_to_xml(&report, s, "A & B", "<Default>");
    assert!(xml.starts_with("<?xml version=\"1.0\" encoding=\"UTF-8\"?>\n<!--\n"));
    assert!(xml.ends_with("  </PhysicsFindings>\n\n</DiagnosticsReport>\n"));
    for part in [
        "<DiagnosticsReport project=\"A &amp; B\" scenario=\"&lt;Default&gt;\" schema_version=\"1.0\">\n\n",
        "    <Network links=\"2\" nodes=\"3\" internal_nodes=\"1\"/>\n",
        "    <Simulation start_time_s=\"0.0\" duration_s=\"3600.0\" bin_size_s=\"60\"\n              total_vehicles=\"10\" exited_vehicles=\"10\" pct_exited_pct=\"100.0\"/>\n",
        "    <Completeness exited=\"10\" total=\"10\" pct_exited_pct=\"100.0\" status=\"OK\"/>\n",
        "    <Link id=\"1\" length_km=\"1.00\">\n      <FD free_flow_speed_ms=\"10.00\" backwave_speed_ms=\"5.00\" jam_density_veh_km=\"200.00\" capacity_veh_h=\"3600.00\" critical_density_veh_km=\"100.00\"/>\n",
        "      <TimeSeries bins=\"60\" bin_size_s=\"60\">\n        <Flow unit=\"veh_h\">0 120 360 120 0",
        "    <Node id=\"0\" type=\"Entry\" incoming_links=\"0\" outgoing_links=\"1\">\n      <!-- Boundary node: conservation does not apply. -->\n    </Node>\n",
        "    <Node id=\"1\" type=\"Internal\" incoming_links=\"1\" outgoing_links=\"1\">\n      <Conservation bins_observed=\"",
        "    <Statistics exited=\"10\" total=\"10\" mean_travel_s=\"200.00\" mean_speed_km_h=\"36.00\">\n      <Percentile p=\"10\" travel_time_s=\"200.00\"/>\n",
        "    <SlowestVehicles count=\"10\" note=\"Top 20 by travel time\">\n      <Vehicle id=\"0\" origin=\"0\" destination=\"2\" start_s=\"0.00\" travel_s=\"200.00\" dist_km=\"2.00\" avg_speed_km_h=\"36.00\" exited=\"true\"/>\n",
        "    <UnexitedVehicles count=\"0\"/>\n",
    ] {
        assert!(xml.contains(part), "{part} in {xml}");
    }
}

#[test]
fn a_report_names_what_stands_out() {
    let o = run_scenario(two_lanes(), true).ok().expect("the scenario runs");
    let s = &o.sim.scenario;
    let xml = export_to_xml(&run_diagnostics(s, d(60.0), 0), s, "p", "s");
    let exited = s.vehicles.iter().filter(|v| v.state == VehicleState::Exited).count();
    let left = format!("{:.0}", 100.0 - 100.0 * exited as f64 / 50.0);
    assert!(xml.contains(&format!(
        "    <Finding severity=\"CRITICAL\" component=\"global\">{left}% of vehicles did not exit the network. "
    )));
    assert!(xml.contains("      <Vehicle id=\"") && xml.contains("\" partial_travel_s=\""));
}

#[test]
fn a_report_gives_values_in_the_units_that_it_names() {
    let s = scenario(
        vec![],
        vec![link(0, 0, 1, 100.0, 10.0, 1, 0.5, fd(10.0, 5.0, 0.2, 0.5))],
        vec![],
        60.0,
        &["car"],
    );
    let xml = export_to_xml(&run_diagnostics(&s, d(60.0), 0), &s, "p", "q");
    for part in [
        "jam_density_veh_km=\"200.00\"",
        "capacity_veh_h=\"1800.00\"",
        "critical_density_veh_km=\"50.00\"",
    ] {
        assert!(xml.contains(part), "{part} in {xml}");
    }
}
