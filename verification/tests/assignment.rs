use petgraph::visit::EdgeRef;
use pipe_stream::assignment::{
    assign_demand, is_assignable, unrouted_demand, AssignError, NetworkGraph,
};
use pipe_stream::double::Double;
use pipe_stream::model::{Demand, FundamentalDiagram, Link, Node, NodeType, PipeSpec, Scenario, Vehicle};

fn d(x: f64) -> Double {
    Double { bits: x.to_bits() }
}

fn f(x: Double) -> f64 {
    f64::from_bits(x.bits)
}

fn fd(u: f64, w: f64, kx: f64, c: f64) -> FundamentalDiagram {
    FundamentalDiagram { u: d(u), w: d(w), kx: d(kx), c: d(c) }
}

fn node(id: usize, node_type: NodeType, incoming: Vec<usize>, outgoing: Vec<usize>, x: f64, y: f64) -> Node {
    Node {
        id,
        node_type,
        incoming_links: incoming,
        outgoing_links: outgoing,
        points: (d(x), d(y)),
        signals: vec![],
    }
}

fn link(
    id: usize,
    up: usize,
    down: usize,
    length: f64,
    speed: f64,
    lanes: u8,
    capacity: f64,
    diagram: FundamentalDiagram,
) -> Link {
    Link::new(id, up, down, d(length), d(speed), lanes, d(capacity), diagram, vec![])
}

fn scenario(nodes: Vec<Node>, links: Vec<Link>, vehicles: Vec<Vehicle>, duration: f64, classes: &[&str]) -> Scenario {
    Scenario {
        nodes,
        links,
        vehicles,
        demand: vec![],
        start_time: d(0.0),
        duration: d(duration),
        classes: classes.iter().map(|c| c.to_string()).collect(),
        link_schedule: Vec::new(),
        assignment_excluded: Vec::new(),
    }
}

fn chain() -> Vec<Node> {
    vec![
        node(0, NodeType::Entry, vec![], vec![0], 0.0, 0.0),
        node(1, NodeType::Internal, vec![0], vec![1], 1.0, 0.0),
        node(2, NodeType::Exit, vec![1], vec![], 2.0, 0.0),
    ]
}

fn chain_scenario() -> Scenario {
    scenario(
        chain(),
        vec![
            link(0, 0, 1, 1000.0, 10.0, 1, 1.0, fd(10.0, 5.0, 0.2, 1.0)),
            link(1, 1, 2, 1000.0, 10.0, 1, 1.0, fd(10.0, 5.0, 0.2, 1.0)),
        ],
        vec![],
        3600.0,
        &["car"],
    )
}

fn wish(period_end: f64, destination: usize, flow: f64, count: f64, class: Option<&str>) -> Demand {
    Demand {
        period_start: d(0.0),
        period_end: d(period_end),
        origin: 0,
        destination,
        flow: d(flow),
        count: d(count),
        class: class.map(String::from),
    }
}

#[test]
fn graph_has_correct_node_and_edge_count() {
    let s = chain_scenario();
    let g = NetworkGraph::from_scenario(&s);
    assert_eq!(g.graph.node_count(), 3);
    assert_eq!(g.graph.edge_count(), 2);
}

#[test]
fn shortest_path_on_chain_uses_both_links() {
    let s = chain_scenario();
    let g = NetworkGraph::from_scenario(&s);
    let (_, links) = g.shortest_path(0, 2).expect("path from 0 to 2 should exist");
    assert_eq!(links, vec![0, 1]);
}

#[test]
fn shortest_path_cost_equals_sum_of_travel_times() {
    let s = chain_scenario();
    let g = NetworkGraph::from_scenario(&s);
    let (cost, _) = g.shortest_path(0, 2).unwrap();
    assert!((f(cost) - 200.0).abs() < 1e-9, "expected cost 200.0, got {}", f(cost));
}

#[test]
fn no_path_on_reverse_direction_returns_none() {
    let s = chain_scenario();
    let g = NetworkGraph::from_scenario(&s);
    assert!(g.shortest_path(2, 0).is_none());
}

#[test]
fn assign_demand_generates_correct_vehicle_count() {
    let mut s = chain_scenario();
    s.demand.push(wish(3600.0, 2, 100.0, 100.0, None));
    let added = assign_demand(&mut s).expect("assignment should succeed");
    assert_eq!(added, 100);
    assert_eq!(s.vehicles.len(), 100);
}

#[test]
fn assign_demand_vehicles_follow_shortest_path() {
    let mut s = chain_scenario();
    s.demand.push(wish(3600.0, 2, 5.0, 5.0, None));
    assign_demand(&mut s).expect("assignment should succeed");
    for v in &s.vehicles {
        assert_eq!(v.path, vec![0, 1]);
        assert_eq!(v.origin, 0);
        assert_eq!(v.destination, 2);
    }
}

#[test]
fn assign_demand_vehicles_evenly_distributed_in_time() {
    let mut s = chain_scenario();
    s.demand.push(wish(100.0, 2, 10.0, 10.0, None));
    assign_demand(&mut s).expect("assignment should succeed");
    for (i, v) in s.vehicles.iter().enumerate() {
        let expected = i as f64 * 10.0;
        assert!(
            (f(v.start_time) - expected).abs() < 1e-9,
            "vehicle {}: start_time {:.2}, expected {:.2}",
            i,
            f(v.start_time),
            expected
        );
    }
}

#[test]
fn assign_demand_skips_zero_count_entry() {
    let mut s = chain_scenario();
    s.demand.push(wish(3600.0, 2, 0.0, 0.0, None));
    let added = assign_demand(&mut s).expect("assignment should succeed");
    assert_eq!(added, 0);
    assert!(s.vehicles.is_empty());
}

fn two_class_scenario() -> Scenario {
    scenario(
        vec![
            node(0, NodeType::Entry, vec![], vec![0], 0.0, 0.0),
            node(1, NodeType::Exit, vec![0], vec![], 1.0, 0.0),
        ],
        vec![link(0, 0, 1, 1000.0, 10.0, 2, 1.0, fd(10.0, 5.0, 0.2, 1.0))],
        vec![],
        3600.0,
        &["car", "bus"],
    )
}

#[test]
fn demand_class_resolves_to_class_id() {
    let mut s = two_class_scenario();
    s.demand.push(wish(60.0, 1, 60.0, 3.0, Some("bus")));
    assign_demand(&mut s).unwrap();
    assert!(s.vehicles.iter().all(|v| v.class_id == 1));
}

#[test]
fn unknown_demand_class_errors() {
    let mut s = two_class_scenario();
    s.demand.push(wish(60.0, 1, 60.0, 3.0, Some("hovercraft")));
    let err = assign_demand(&mut s).expect_err("unknown class");
    let text = err.message(&s.demand, &s.classes);
    assert!(text.contains("hovercraft"), "{text}");
    match err {
        AssignError::UnknownClass { demand, name } => {
            assert_eq!(demand, 0);
            assert_eq!(name, "hovercraft");
        }
        other => panic!("{other:?}"),
    }
}

#[test]
fn class_locked_out_of_every_pipe_errors() {
    let mut s = two_class_scenario();
    s.links[0].pipe_specs = vec![
        PipeSpec { lanes: 1, class_mask: 0b01 },
        PipeSpec { lanes: 1, class_mask: 0b01 },
    ];
    s.demand.push(wish(60.0, 1, 60.0, 3.0, Some("bus")));
    let err = assign_demand(&mut s).expect_err("unreachable path");
    let text = err.message(&s.demand, &s.classes);
    assert!(text.contains("link 0"), "{text}");
    assert_eq!(
        text,
        "Demand 0→1 (class 'bus'): link 0 has no pipe usable by this class for its movement — \
         adjust pipe classes/moves or the route"
    );
    match err {
        AssignError::NotServed { demand, link, next } => {
            assert_eq!((demand, link, next), (0, 0, None));
        }
        other => panic!("{other:?}"),
    }
}

/// Two ways from 0 to 2: by node 1 in 30 s, or directly in 40 s.
fn diamond() -> Scenario {
    let shape = fd(10.0, 5.0, 0.2, 1.0);
    scenario(
        vec![
            node(0, NodeType::Entry, vec![], vec![0, 2], 0.0, 0.0),
            node(1, NodeType::Internal, vec![0], vec![1], 1.0, 0.0),
            node(2, NodeType::Exit, vec![1, 2], vec![], 2.0, 0.0),
        ],
        vec![
            link(0, 0, 1, 100.0, 10.0, 1, 1.0, shape),
            link(1, 1, 2, 200.0, 10.0, 1, 1.0, shape),
            link(2, 0, 2, 400.0, 10.0, 1, 1.0, shape),
        ],
        vec![],
        3600.0,
        &["car"],
    )
}

#[test]
fn the_cheapest_route_is_taken() {
    let s = diamond();
    let g = NetworkGraph::from_scenario(&s);
    let (cost, links) = g.shortest_path(0, 2).unwrap();
    assert_eq!((f(cost), links), (30.0, vec![0, 1]));
}

#[test]
fn a_route_to_its_own_start_is_empty() {
    let s = diamond();
    let g = NetworkGraph::from_scenario(&s);
    let (cost, links) = g.shortest_path(1, 1).unwrap();
    assert_eq!(f(cost), 0.0);
    assert!(links.is_empty());
    assert!(g.shortest_path(0, 9).is_none());
}

#[test]
fn excluded_links_are_not_used() {
    let mut s = diamond();
    s.assignment_excluded = vec![1];
    let g = NetworkGraph::from_scenario(&s);
    assert_eq!(g.graph.edge_count(), 2);
    let (cost, links) = g.shortest_path(0, 2).unwrap();
    assert_eq!((f(cost), links), (40.0, vec![2]));
}

#[test]
fn parallel_links_are_told_apart() {
    let mut s = chain_scenario();
    s.links.push(link(2, 0, 1, 1000.0, 10.0, 1, 1.0, fd(10.0, 5.0, 0.2, 1.0)));
    let g = NetworkGraph::from_scenario(&s);
    assert_eq!(g.graph.edge_count(), 3);
    let weights: Vec<usize> = g.graph.edge_references().map(|e| e.weight().0).collect();
    assert_eq!(weights, vec![0, 1, 2]);
    // Of parallel edges that cost the same the one that was added last is taken.
    let (cost, links) = g.shortest_path(0, 2).unwrap();
    assert_eq!(f(cost), 200.0);
    assert_eq!(links, vec![2, 1]);
}

#[test]
fn existing_vehicles_are_rerouted_and_ids_continue() {
    let mut s = diamond();
    s.vehicles.push(Vehicle::new(0, 0, vec![2], d(5.0), 0, 2));
    s.demand.push(wish(10.0, 2, 0.0, 2.6, None));
    assert_eq!(assign_demand(&mut s).unwrap(), 2);
    assert_eq!(s.vehicles[0].path, vec![0, 1]);
    assert_eq!(f(s.vehicles[0].start_time), 5.0);
    assert_eq!(s.vehicles.iter().map(|v| v.id).collect::<Vec<_>>(), vec![0, 1, 2]);
    assert_eq!(f(s.vehicles[2].start_time), 5.0);
}

#[test]
fn demand_without_a_route_is_listed() {
    let mut s = diamond();
    s.demand.push(wish(10.0, 2, 0.0, 1.0, None));
    s.demand.push(wish(10.0, 7, 0.0, 1.0, None));
    s.demand.push(wish(10.0, 7, 0.0, 0.0, None));
    assert!(is_assignable(&s));
    assert_eq!(unrouted_demand(&s), vec![1]);
    assert_eq!(assign_demand(&mut s).unwrap(), 1);
}

#[test]
fn a_negative_travel_time_cannot_be_routed() {
    let mut s = diamond();
    s.links[2].speed = d(-10.0);
    assert!(!is_assignable(&s));
    s.links[2].speed = d(10.0);
    assert!(is_assignable(&s));
    s.links[2].length = d(f64::NAN);
    assert!(!is_assignable(&s));
}

#[test]
fn of_parallel_links_the_cheapest_is_taken() {
    // 100 s on the link of the chain, 40 s and 400 s on two others beside it.
    let mut s = chain_scenario();
    s.links.push(link(2, 0, 1, 1000.0, 25.0, 1, 1.0, fd(25.0, 5.0, 0.2, 1.0)));
    s.links.push(link(3, 0, 1, 1000.0, 2.5, 1, 1.0, fd(2.5, 5.0, 0.2, 1.0)));
    let g = NetworkGraph::from_scenario(&s);
    let (cost, links) = g.shortest_path(0, 2).unwrap();
    assert_eq!((f(cost), links), (140.0, vec![2, 1]));
    s.demand.push(wish(10.0, 2, 0.0, 1.0, None));
    s.vehicles.clear();
    assert_eq!(assign_demand(&mut s).unwrap(), 1);
    assert_eq!(s.vehicles[0].path, vec![2, 1]);
}
