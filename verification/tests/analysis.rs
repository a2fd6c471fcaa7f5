use pipe_stream::analysis::{compute_link_stats, compute_pipe_stats};
use pipe_stream::diagnostics::{
    compute_trajectories, fd_transport, run_diagnostics, FDRegime,
};
use pipe_stream::digest::{
    aggregate_link, aggregate_node, completeness, conservation_quality, digest_travel, fd_quality,
    find_anomalies, percentile, xe, Finding, Severity,
};
use pipe_stream::double::Double;
use pipe_stream::model::{
    FundamentalDiagram, Link, Node, NodeType, PipeSpec, Scenario, Vehicle, VehicleState, ALL_CLASSES,
};
use pipe_stream::simulation::Simulation;

fn d(x: f64) -> Double {
    Double { bits: x.to_bits() }
}

fn f(x: Double) -> f64 {
    f64::from_bits(x.bits)
}

fn fd(u: f64, w: f64, kx: f64, c: f64) -> FundamentalDiagram {
    FundamentalDiagram { u: d(u), w: d(w), kx: d(kx), c: d(c) }
}

fn node(id: usize, node_type: NodeType, incoming: Vec<usize>, outgoing: Vec<usize>, x: f64, y: f64) -> Node {
    Node {
        id,
        node_type,
        incoming_links: incoming,
        outgoing_links: outgoing,
        points: (d(x), d(y)),
        signals: vec![],
    }
}

fn link(
    id: usize,
    up: usize,
    down: usize,
    length: f64,
    speed: f64,
    lanes: u8,
    capacity: f64,
    diagram: FundamentalDiagram,
) -> Link {
    Link::new(id, up, down, d(length), d(speed), lanes, d(capacity), diagram, vec![])
}

fn scenario(nodes: Vec<Node>, links: Vec<Link>, vehicles: Vec<Vehicle>, duration: f64, classes: &[&str]) -> Scenario {
    Scenario {
        nodes,
        links,
        vehicles,
        demand: vec![],
        start_time: d(0.0),
        duration: d(duration),
        classes: classes.iter().map(|c| c.to_string()).collect(),
        link_schedule: Vec::new(),
        assignment_excluded: Vec::new(),
    }
}

/// Entry 0, L0 with two pipes, exit 1; light traffic.
fn light_traffic() -> Scenario {
    let mut l0 = link(0, 0, 1, 100.0, 10.0, 2, 2.0, fd(10.0, 5.0, 0.2, 1.0));
    l0.pipe_specs = vec![
        PipeSpec { lanes: 1, class_mask: ALL_CLASSES },
        PipeSpec { lanes: 1, class_mask: ALL_CLASSES },
    ];
    scenario(
        vec![
            node(0, NodeType::Entry, vec![], vec![0], 0.0, 0.0),
            node(1, NodeType::Exit, vec![0], vec![], 1.0, 0.0),
        ],
        vec![l0],
        (0..8).map(|i| Vehicle::new(i, 0, vec![0], d(i as f64 * 5.0), 0, 1)).collect(),
        600.0,
        &["car"],
    )
}

#[test]
fn pipe_stats_sum_to_link_stats() {
    let mut sim = Simulation::new(light_traffic());
    sim.run();
    let link_stats = compute_link_stats(&sim.scenario, d(60.0));
    let pipe_stats = compute_pipe_stats(&sim.scenario, d(60.0));
    let ls = &link_stats[&0];
    let ps = &pipe_stats[&0];
    assert_eq!(ps.len(), 2);
    for i in 0..ls.flow.values.len() {
        let flow_sum: f64 = ps.iter().map(|p| f(p.flow.values[i])).sum();
        let dens_sum: f64 = ps.iter().map(|p| f(p.density.values[i])).sum();
        assert!((flow_sum - f(ls.flow.values[i])).abs() < 1e-9, "flow bin {i}");
        assert!((dens_sum - f(ls.density.values[i])).abs() < 1e-9, "density bin {i}");
    }
    assert!(ps.iter().all(|p| p.flow.values.iter().map(|x| f(*x)).sum::<f64>() > 0.0));
}

/// One vehicle over a link of 1 km in 100 s, then 20 s on the next.
fn driven() -> Scenario {
    let mut v = Vehicle::new(0, 0, vec![0, 1], d(0.0), 0, 2);
    v.node_times = vec![d(0.0), d(100.0), d(120.0)];
    v.pipes_taken = vec![0, 0];
    v.state = VehicleState::Exited;
    let mut s = scenario(
        vec![
            node(0, NodeType::Entry, vec![], vec![0], 0.0, 0.0),
            node(1, NodeType::Internal, vec![0], vec![1], 1.0, 0.0),
            node(2, NodeType::Exit, vec![1], vec![], 2.0, 0.0),
        ],
        vec![
            link(0, 0, 1, 1000.0, 10.0, 1, 1.0, fd(10.0, 5.0, 0.1, 1.0)),
            link(1, 1, 2, 500.0, 25.0, 1, 1.0, fd(25.0, 5.0, 0.1, 1.0)),
        ],
        vec![v],
        240.0,
        &["car"],
    );
    for l in &mut s.links {
        l.materialize_pipes();
    }
    s
}

#[test]
fn flow_counts_exits_and_density_counts_presence() {
    let stats = compute_link_stats(&driven(), d(60.0));
    let s = &stats[&0];
    assert_eq!(s.flow.t.iter().map(|t| f(*t)).collect::<Vec<_>>(), vec![0.0, 60.0, 120.0, 180.0]);
    // The exit falls into the second bin: one vehicle in 60 s.
    assert_eq!(s.flow.values.iter().map(|t| f(*t)).collect::<Vec<_>>(), vec![0.0, 60.0, 0.0, 0.0]);
    assert!((f(s.density.values[0]) - 1.0).abs() < 1e-9);
    assert!((f(s.density.values[1]) - 40.0 / 60.0).abs() < 1e-9);
    assert!((f(s.speed.values[1]) - 90.0).abs() < 1e-9);
    // Nobody is there: the free-flow speed.
    assert_eq!(f(s.speed.values[2]), 36.0);
    assert_eq!(f(s.kx_veh_km), 100.0);
    assert_eq!(f(s.capacity_veh_h), 3600.0);
}

#[test]
fn diagnostics_of_one_vehicle() {
    let report = run_diagnostics(&driven(), d(60.0), 10);
    assert_eq!(report.summary.total_vehicles, 1);
    assert_eq!(report.summary.exited_vehicles, 1);
    assert_eq!(f(report.summary.pct_exited), 100.0);
    assert_eq!(report.links_fd.len(), 2);
    assert_eq!(f(report.links_fd[0].u), 36.0);
    assert_eq!(f(report.links_fd[0].k_crit), 100.0);
    assert!(report.fd_points.iter().all(|p| p.regime == FDRegime::FreeFlow));
    assert_eq!(report.trajectories.len(), 1);
    let xs: Vec<f64> = report.trajectories[0].points.iter().map(|p| f(p.x)).collect();
    assert_eq!(xs, vec![0.0, 1.0, 1.5]);
    assert!(report.trajectories[0].exited);
}

#[test]
fn trajectories_are_sampled() {
    let mut s = driven();
    s.vehicles = (0..10)
        .map(|i| {
            let mut v = Vehicle::new(i, 0, vec![0], d(0.0), 0, 1);
            v.node_times = vec![d(0.0), d(9.0)];
            v
        })
        .collect();
    let ids: Vec<usize> = compute_trajectories(&s, 5).iter().map(|t| t.veh_id).collect();
    assert_eq!(ids, vec![0, 2, 4, 6, 8]);
    assert!(compute_trajectories(&s, 100).len() == 10);
}

#[test]
fn transport_units() {
    let t = fd_transport(d(10.0), d(5.0), d(0.1), d(0.5));
    assert_eq!(f(t.u), 36.0);
    assert_eq!(f(t.w), 18.0);
    assert_eq!(f(t.kx), 100.0);
    assert_eq!(f(t.c), 1800.0);
}

#[test]
fn travel_digest_of_one_vehicle() {
    let t = digest_travel(&driven());
    assert_eq!(t.times.iter().map(|x| f(*x)).collect::<Vec<_>>(), vec![120.0]);
    assert_eq!(f(t.mean_travel_s), 120.0);
    assert!((f(t.mean_speed_kmh) - 45.0).abs() < 1e-9);
    assert_eq!(t.slowest.len(), 1);
    assert!(t.unexited.is_empty());
}

#[test]
fn percentiles_pick_a_value() {
    let v: Vec<Double> = [1.0, 2.0, 3.0, 4.0, 5.0].iter().map(|x| d(*x)).collect();
    assert_eq!(f(percentile(&v, d(0.0))), 1.0);
    assert_eq!(f(percentile(&v, d(50.0))), 3.0);
    assert_eq!(f(percentile(&v, d(100.0))), 5.0);
    assert_eq!(f(percentile(&vec![], d(50.0))), 0.0);
}

#[test]
fn grades_of_a_run() {
    assert_eq!(xe("a<b> & \"c\""), "a&lt;b&gt; &amp; &quot;c&quot;");
    for (x, name) in [(4.9, "GOOD"), (5.0, "ACCEPTABLE"), (20.0, "POOR")] {
        assert_eq!(fd_quality(d(x)), name);
    }
    for (x, name) in [(0.9, "GOOD"), (1.0, "ACCEPTABLE"), (5.0, "POOR")] {
        assert_eq!(conservation_quality(d(x)), name);
    }
    for (x, name) in [(99.0, "OK"), (98.9, "WARN"), (90.0, "WARN"), (89.9, "FAIL")] {
        assert_eq!(completeness(d(x)), name);
    }
}

#[test]
fn aggregates_and_findings() {
    let report = run_diagnostics(&driven(), d(60.0), 10);
    let agg = aggregate_link(&report.fd_points, 0).expect("link 0 was observed");
    assert!(agg.free_bins > 0);
    assert_eq!(agg.cong_bins, 0);
    assert!(aggregate_link(&report.fd_points, 7).is_none());
    assert!(aggregate_node(&report.node_balance, 1).is_some());
    let findings = find_anomalies(&report);
    assert!(findings.iter().all(|x| x.severity() != Severity::Critical));

    let mut s = driven();
    s.vehicles[0].state = VehicleState::Moving;
    let findings = find_anomalies(&run_diagnostics(&s, d(60.0), 10));
    assert_eq!(findings[0], Finding::ManyUnexited { pct_left: d(100.0) });
    assert_eq!(findings[0].severity(), Severity::Critical);
}

fn seen(n: usize) -> Scenario {
    let mut s = driven();
    s.vehicles = (0..n)
        .map(|i| {
            let mut v = Vehicle::new(i, 0, vec![0], d(0.0), 0, 1);
            v.node_times = vec![d(0.0), d(9.0)];
            v
        })
        .collect();
    s
}

#[test]
fn trajectories_stay_within_the_limit() {
    let s = seen(5);
    let ids: Vec<usize> =
        run_diagnostics(&s, d(60.0), 3).trajectories.iter().map(|t| t.veh_id).collect();
    assert_eq!(ids, vec![0, 2, 4]);
    assert_eq!(run_diagnostics(&s, d(60.0), 4).trajectories.len(), 3);
    assert_eq!(run_diagnostics(&s, d(60.0), 1).trajectories.len(), 1);
    let all: Vec<usize> =
        run_diagnostics(&s, d(60.0), 0).trajectories.iter().map(|t| t.veh_id).collect();
    assert_eq!(all, vec![0, 1, 2, 3, 4]);
}

#[test]
fn only_vehicles_that_have_passed_a_second_node_leave_a_trajectory() {
    let mut s = seen(4);
    s.vehicles[1].node_times.pop();
    s.vehicles[2].path.clear();
    let ids: Vec<usize> = compute_trajectories(&s, 0).iter().map(|t| t.veh_id).collect();
    assert_eq!(ids, vec![0, 3]);
}

#[test]
fn a_balance_is_measured_against_the_inflow_but_at_least_against_one() {
    let mut s = driven();
    s.duration = d(960.0);
    s.vehicles[0].node_times = vec![d(500.0), d(600.0), d(700.0)];
    let report = run_diagnostics(&s, d(60.0), 0);
    let bins: Vec<(f64, f64, f64, f64)> = report
        .node_balance
        .iter()
        .map(|b| (f(b.t), f(b.inflow), f(b.outflow), f(b.error_pct)))
        .collect();
    assert_eq!(bins, vec![(600.0, 60.0, 0.0, -100.0), (660.0, 0.0, 60.0, 6000.0)]);
}

#[test]
fn a_deviation_is_measured_against_the_predicted_flow() {
    let report = run_diagnostics(&driven(), d(60.0), 0);
    assert!(!report.fd_points.is_empty());
    for p in report.fd_points.iter().filter(|p| p.regime != FDRegime::QueueOverflow) {
        let (flow, theory) = (f(p.flow), f(p.theoretical_flow));
        assert_eq!(f(p.error_pct), (flow - theory) / theory.max(1.0) * 100.0);
    }
}

#[test]
fn link_statistics_carry_the_parameters_of_the_diagram() {
    let s = scenario(
        vec![],
        vec![link(0, 0, 1, 100.0, 10.0, 2, 1.0, fd(10.0, 5.0, 0.1, 0.4))],
        vec![],
        60.0,
        &["car"],
    );
    let stats = compute_link_stats(&s, d(60.0));
    assert!((f(stats[&0].kx_veh_km) - 100.0).abs() < 1e-9);
    assert!((f(stats[&0].capacity_veh_h) - 1440.0).abs() < 1e-9);
}

#[test]
fn escaping_keeps_apart_what_differs() {
    let parts = ["a", "&", "<b>", "\"x'", "&amp;", "plain text; no more", ""];
    for a in parts {
        for b in parts {
            assert_eq!(xe(&format!("{a}{b}")), format!("{}{}", xe(a), xe(b)));
            assert_eq!(xe(a) == xe(b), a == b);
        }
    }
    assert_eq!(xe("plain text; no more"), "plain text; no more");
    assert_eq!(xe("<\"&'>"), "&lt;&quot;&amp;&apos;&gt;");
    assert_eq!(xe("&amp;"), "&amp;amp;");
}
