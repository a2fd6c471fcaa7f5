use pipe_stream::double::Double;
use pipe_stream::model::{
    FundamentalDiagram, Link, Node, NodeType, PipeSpec, Scenario, Vehicle, VehicleState, ALL_CLASSES,
};
use pipe_stream::xt_analysis::{
    build_bins, compute_xt_link, compute_xt_link_pipe, compute_xt_pipes, cvc_at_x, edie_cell,
    time_bin_index, Stretch, XTParams,
};

fn d(x: f64) -> Double {
    Double { bits: x.to_bits() }
}

fn f(x: Double) -> f64 {
    f64::from_bits(x.bits)
}

fn fd(u: f64, w: f64, kx: f64, c: f64) -> FundamentalDiagram {
    FundamentalDiagram { u: d(u), w: d(w), kx: d(kx), c: d(c) }
}

fn node(id: usize, node_type: NodeType, incoming: Vec<usize>, outgoing: Vec<usize>, x: f64, y: f64) -> Node {
    Node {
        id,
        node_type,
        incoming_links: incoming,
        outgoing_links: outgoing,
        points: (d(x), d(y)),
        signals: vec![],
    }
}

fn link(
    id: usize,
    up: usize,
    down: usize,
    length: f64,
    speed: f64,
    lanes: u8,
    capacity: f64,
    diagram: FundamentalDiagram,
) -> Link {
    Link::new(id, up, down, d(length), d(speed), lanes, d(capacity), diagram, vec![])
}

fn scenario(nodes: Vec<Node>, links: Vec<Link>, vehicles: Vec<Vehicle>, duration: f64, classes: &[&str]) -> Scenario {
    Scenario {
        nodes,
        links,
        vehicles,
        demand: vec![],
        start_time: d(0.0),
        duration: d(duration),
        classes: classes.iter().map(|c| c.to_string()).collect(),
        link_schedule: Vec::new(),
        assignment_excluded: Vec::new(),
    }
}

fn chain() -> Vec<Node> {
    vec![
        node(0, NodeType::Entry, vec![], vec![0], 0.0, 0.0),
        node(1, NodeType::Internal, vec![0], vec![1], 1.0, 0.0),
        node(2, NodeType::Exit, vec![1], vec![], 2.0, 0.0),
    ]
}

fn ds(v: &[f64]) -> Vec<Double> {
    v.iter().map(|x| d(*x)).collect()
}

fn fs(v: &[Double]) -> Vec<f64> {
    v.iter().map(|x| f(*x)).collect()
}

fn road(length: f64) -> Stretch {
    Stretch { length: d(length), u: d(25.0), w: d(5.0), kx: d(0.12) }
}

#[test]
fn build_bins_ends_at_length() {
    let bins = build_bins(d(0.0), d(840.0), d(50.0));
    assert_eq!(f(*bins.last().unwrap()), 840.0);
    assert!(bins.len() >= 2);
}

#[test]
fn build_bins_exact_multiple() {
    let bins = build_bins(d(0.0), d(300.0), d(100.0));
    assert_eq!(fs(&bins), vec![0.0, 100.0, 200.0, 300.0]);
}

#[test]
fn cvc_at_zero_returns_cvc_in() {
    let cvc_in = ds(&[0.0, 2.0, 4.0]);
    let cvc_out = ds(&[4.0, 6.0, 8.0]);
    assert_eq!(cvc_at_x(&cvc_in, &cvc_out, d(0.0), &road(100.0)), cvc_in);
}

#[test]
fn cvc_at_link_length_returns_cvc_out() {
    let cvc_in = ds(&[0.0, 2.0, 4.0]);
    let cvc_out = ds(&[4.0, 6.0, 8.0]);
    assert_eq!(cvc_at_x(&cvc_in, &cvc_out, d(100.0), &road(100.0)), cvc_out);
}

#[test]
fn cvc_midpoint_free_flow_no_congestion() {
    let cvc_in = [0.0, 10.0, 20.0];
    let cvc_out = ds(&[4.0, 14.0, 24.0]);
    let result = cvc_at_x(&ds(&cvc_in), &cvc_out, d(50.0), &road(100.0));
    for (i, t) in fs(&result).into_iter().enumerate() {
        let expected = cvc_in[i] + 50.0 / 25.0;
        assert!((t - expected).abs() < 1e-9, "vehicle {i}: got {t:.4}, expected {expected:.4}");
    }
}

#[test]
fn cvc_is_monotone_increasing() {
    let cvc_in = ds(&[0.0, 1.44, 2.88, 4.32, 5.76]);
    let cvc_out = ds(&[2.0, 3.44, 4.88, 6.32, 7.76]);
    let result = fs(&cvc_at_x(&cvc_in, &cvc_out, d(500.0), &road(1000.0)));
    for w in result.windows(2) {
        assert!(w[1] >= w[0], "CVC not monotone: {:?}", result);
    }
}

fn cell(up: &[f64], down: &[f64]) -> (f64, f64) {
    let (dt, pt) = edie_cell(&ds(up), &ds(down), d(0.0), d(60.0), d(100.0));
    (f(dt), f(pt))
}

#[test]
fn edie_single_vehicle_full_cell() {
    let (dt, pt) = cell(&[10.0], &[50.0]);
    assert!((dt - 100.0).abs() < 1e-9);
    assert!((pt - 40.0).abs() < 1e-9);
}

#[test]
fn edie_single_vehicle_partial_entry() {
    let (dt, pt) = cell(&[30.0], &[70.0]);
    let speed = 100.0 / 40.0;
    assert!((pt - 30.0).abs() < 1e-9);
    assert!((dt - speed * 30.0).abs() < 1e-6);
}

#[test]
fn edie_no_vehicles_in_cell() {
    let (dt, pt) = cell(&[100.0, 200.0], &[104.0, 204.0]);
    assert_eq!(dt, 0.0);
    assert_eq!(pt, 0.0);
}

#[test]
fn edie_flow_density_speed_consistent() {
    let up: Vec<f64> = (0..5).map(|i| i as f64 * 1.0).collect();
    let down: Vec<f64> = (0..5).map(|i| i as f64 * 1.0 + 4.0).collect();
    let cell_area = 100.0 * 60.0;
    let (dt, pt) = cell(&up, &down);
    let q = dt / cell_area;
    let k = pt / cell_area;
    let v = q / k;
    assert!((v - 25.0).abs() < 0.1, "speed should be ~25 m/s, got {v:.2}");
}

fn minimal_scenario_for_xt() -> Scenario {
    let shape = fd(25.0, 5.0, 0.12, 0.5);
    scenario(
        chain(),
        vec![
            link(0, 0, 1, 1000.0, 25.0, 1, 0.5, shape),
            link(1, 1, 2, 1000.0, 25.0, 1, 0.5, shape),
        ],
        vec![Vehicle {
            id: 0,
            class_id: 0,
            path: vec![0, 1],
            start_time: d(0.0),
            origin: 0,
            destination: 2,
            state: VehicleState::Exited,
            current_link_idx: 1,
            node_times: ds(&[0.0, 40.0, 80.0]),
            pipes_taken: vec![0, 0],
        }],
        120.0,
        &["car"],
    )
}

fn grid() -> XTParams {
    XTParams { dx_m: d(500.0), dt_s: d(60.0) }
}

#[test]
fn compute_xt_link_single_vehicle_free_flow() {
    let diag = compute_xt_link(&minimal_scenario_for_xt(), 0, &grid());
    assert_eq!(diag.x_bins.len(), 2);
    assert_eq!(diag.t_bins.len(), 2);
    let spd = f(diag.speed[0][0]);
    assert!((spd - 25.0 * 3.6).abs() < 1.0, "expected ~90 km/h, got {spd:.1}");
}

#[test]
fn compute_xt_link_empty_link_returns_free_flow_speed() {
    let empty = Scenario { vehicles: vec![], ..minimal_scenario_for_xt() };
    let diag = compute_xt_link(&empty, 0, &grid());
    for row in &diag.speed {
        for s in row {
            assert!((f(*s) - 25.0 * 3.6).abs() < 1e-6);
        }
    }
}

#[test]
fn speed_at_time_returns_correct_bin() {
    let diag = compute_xt_link(&minimal_scenario_for_xt(), 0, &grid());
    let profile = diag.speed_at_time(d(30.0)).unwrap();
    assert_eq!(profile.len(), diag.x_bins.len());
}

#[test]
fn profiles_exist_within_the_simulated_time_alone() {
    let diag = compute_xt_link(&minimal_scenario_for_xt(), 0, &grid());
    assert!(diag.speed_at_time(d(-1.0)).is_none());
    assert!(diag.density_at_time(d(119.0)).is_some());
    assert!(diag.density_at_time(d(121.0)).is_none());
    let first = diag.normalised_speed_at_time(d(0.0)).unwrap();
    assert!(f(first[0]) > 0.9 && f(first[0]) <= 1.0 + 1e-9);
    assert_eq!(diag.speed_at_time(d(60.0)).unwrap()[1], diag.speed[1][1]);
}

#[test]
fn instants_fall_into_the_cell_that_begins_before_them() {
    let bins = ds(&[0.0, 60.0, 120.0]);
    assert_eq!(time_bin_index(&bins, d(180.0), d(0.0)), Some(0));
    assert_eq!(time_bin_index(&bins, d(180.0), d(59.9)), Some(0));
    assert_eq!(time_bin_index(&bins, d(180.0), d(60.0)), Some(1));
    assert_eq!(time_bin_index(&bins, d(180.0), d(150.0)), Some(2));
    assert_eq!(time_bin_index(&bins, d(180.0), d(-0.5)), None);
}

#[test]
fn the_pipes_of_a_link_have_diagrams_of_their_own() {
    let mut s = minimal_scenario_for_xt();
    s.links[0].num_lanes = 2;
    s.links[0].pipe_specs = vec![
        PipeSpec { lanes: 1, class_mask: ALL_CLASSES },
        PipeSpec { lanes: 1, class_mask: ALL_CLASSES },
    ];
    for l in &mut s.links {
        l.materialize_pipes();
    }
    let pipes = compute_xt_pipes(&s, 0, &grid());
    assert_eq!(pipes.len(), 2);
    assert_eq!(pipes[0].pipe, Some(0));
    assert_eq!(pipes[1].pipe, Some(1));
    // The vehicle drove in pipe 0.
    assert!(f(pipes[0].flow[0][0]) > 0.0);
    assert!(pipes[1].flow.iter().flatten().all(|x| f(*x) == 0.0));
    assert_eq!(compute_xt_link_pipe(&s, 0, 1, &grid()).u_kmh, pipes[1].u_kmh);
}

#[test]
fn a_default_grid() {
    let p = XTParams::default();
    assert_eq!((f(p.dx_m), f(p.dt_s)), (50.0, 60.0));
}

#[test]
fn inside_a_link_the_curve_ascends_as_at_its_ends() {
    // Three times within one unit in the last place, and a start before zero.
    let e = f64::EPSILON;
    let cvc_in = ds(&[-3.0, 0.0, 0.1, 0.1, 1.0 / 3.0, 1.0, 7.0]);
    let cvc_out = ds(&[1.5 * e, 1.0 + 3.0 * e, 1.0 + 4.0 * e, 2.0, 2.0, 90.0, 1e6]);
    for length in [7.0, 100.0, 1000.0] {
        let mut x = 0.0;
        while x < length {
            let curve = fs(&cvc_at_x(&cvc_in, &cvc_out, d(x), &road(length)));
            assert_eq!(curve.len(), 7);
            for w in curve.windows(2) {
                assert!(w[0] <= w[1], "at {x} of {length}: {curve:?}");
            }
            x += length / 37.0;
        }
    }
}
