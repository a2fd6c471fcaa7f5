use pipe_stream::double::Double;
use pipe_stream::model::{
    Demand, FundamentalDiagram, Link, LinkAttrs, LinkStateChange, Node, NodeType, PipeSpec, Scenario,
    Vehicle, ALL_CLASSES,
};
use pipe_stream::validation::{Validate, ValidationError};

fn d(x: f64) -> Double {
    Double { bits: x.to_bits() }
}

fn fd(u: f64, w: f64, kx: f64, c: f64) -> FundamentalDiagram {
    FundamentalDiagram { u: d(u), w: d(w), kx: d(kx), c: d(c) }
}

fn node(id: usize, node_type: NodeType, incoming: Vec<usize>, outgoing: Vec<usize>, x: f64, y: f64) -> Node {
    Node {
        id,
        node_type,
        incoming_links: incoming,
        outgoing_links: outgoing,
        points: (d(x), d(y)),
        signals: vec![],
    }
}

fn link(
    id: usize,
    up: usize,
    down: usize,
    length: f64,
    speed: f64,
    lanes: u8,
    capacity: f64,
    diagram: FundamentalDiagram,
) -> Link {
    Link::new(id, up, down, d(length), d(speed), lanes, d(capacity), diagram, vec![])
}

fn scenario(nodes: Vec<Node>, links: Vec<Link>, vehicles: Vec<Vehicle>, duration: f64, classes: &[&str]) -> Scenario {
    Scenario {
        nodes,
        links,
        vehicles,
        demand: vec![],
        start_time: d(0.0),
        duration: d(duration),
        classes: classes.iter().map(|c| c.to_string()).collect(),
        link_schedule: Vec::new(),
        assignment_excluded: Vec::new(),
    }
}

fn chain() -> Vec<Node> {
    vec![
        node(0, NodeType::Entry, vec![], vec![0], 0.0, 0.0),
        node(1, NodeType::Internal, vec![0], vec![1], 1.0, 0.0),
        node(2, NodeType::Exit, vec![1], vec![], 2.0, 0.0),
    ]
}

fn valid_scenario() -> Scenario {
    scenario(
        chain(),
        vec![
            link(0, 0, 1, 1000.0, 10.0, 1, 1.0, fd(10.0, 5.0, 0.2, 1.0)),
            link(1, 1, 2, 1000.0, 10.0, 1, 1.0, fd(10.0, 5.0, 0.2, 1.0)),
        ],
        vec![],
        3600.0,
        &["car"],
    )
}

#[test]
fn valid_scenario_passes() {
    assert!(valid_scenario().validate().is_ok());
}

#[test]
fn duplicate_node_id_fails() {
    let mut s = valid_scenario();
    s.nodes[1].id = 0;
    assert!(s.validate().is_err());
}

#[test]
fn duplicate_link_id_fails() {
    let mut s = valid_scenario();
    s.links[1].id = 0;
    assert!(s.validate().is_err());
}

#[test]
fn entry_node_with_incoming_link_fails() {
    let mut s = valid_scenario();
    s.nodes[0].incoming_links.push(99);
    assert!(s.validate().is_err());
}

#[test]
fn exit_node_with_outgoing_link_fails() {
    let mut s = valid_scenario();
    s.nodes[2].outgoing_links.push(99);
    assert!(s.validate().is_err());
}

#[test]
fn link_referencing_missing_node_fails() {
    let mut s = valid_scenario();
    s.links[0].node_up = 99;
    assert!(s.validate().is_err());
}

#[test]
fn link_with_zero_speed_fails() {
    let mut s = valid_scenario();
    s.links[0].speed = d(0.0);
    assert!(s.validate().is_err());
}

#[test]
fn link_with_negative_capacity_fails() {
    let mut s = valid_scenario();
    s.links[0].capacity = d(-1.0);
    assert!(s.validate().is_err());
}

#[test]
fn link_with_zero_lanes_fails() {
    let mut s = valid_scenario();
    s.links[0].num_lanes = 0;
    assert!(s.validate().is_err());
}

#[test]
fn vehicle_with_missing_link_in_path_fails() {
    let mut s = valid_scenario();
    s.vehicles.push(Vehicle::new(0, 0, vec![99], d(0.0), 0, 2));
    assert!(s.validate().is_err());
}

#[test]
fn scenario_with_no_vehicles_passes() {
    let mut s = valid_scenario();
    s.demand.push(Demand {
        period_start: d(0.0),
        period_end: d(3600.0),
        origin: 0,
        destination: 2,
        flow: d(100.0),
        count: d(100.0),
        class: None,
    });
    assert!(s.validate().is_ok());
}

fn fault(change: impl Fn(&mut Scenario)) -> ValidationError {
    let mut s = valid_scenario();
    change(&mut s);
    s.validate().unwrap_err()
}

fn spec(lanes: u8, class_mask: u64) -> PipeSpec {
    PipeSpec { lanes, class_mask }
}

#[test]
fn faults_of_nodes_and_links() {
    assert_eq!(fault(|s| s.nodes[1].id = 0), ValidationError::DuplicateNode { node: 0 });
    assert_eq!(
        fault(|s| s.nodes[0].incoming_links.push(99)),
        ValidationError::EntryWithIncoming { node: 0 }
    );
    assert_eq!(
        fault(|s| s.nodes[2].outgoing_links.push(99)),
        ValidationError::ExitWithOutgoing { node: 2 }
    );
    assert_eq!(fault(|s| s.links[1].id = 0), ValidationError::DuplicateLink { link: 0 });
    assert_eq!(
        fault(|s| s.links[0].node_up = 99),
        ValidationError::MissingUpstream { link: 0, node: 99 }
    );
    assert_eq!(
        fault(|s| s.links[1].node_down = 98),
        ValidationError::MissingDownstream { link: 1, node: 98 }
    );
    assert_eq!(
        fault(|s| s.links[0].speed = d(0.0)),
        ValidationError::InvalidSpeed { link: 0, speed: d(0.0) }
    );
    assert_eq!(
        fault(|s| s.links[0].capacity = d(-1.0)),
        ValidationError::InvalidCapacity { link: 0, capacity: d(-1.0) }
    );
    assert_eq!(fault(|s| s.links[0].num_lanes = 0), ValidationError::NoLanes { link: 0 });
    assert_eq!(
        fault(|s| s.links[0].friction = d(1.5)),
        ValidationError::FrictionOutOfRange { link: 0, friction: d(1.5) }
    );
    assert_eq!(
        fault(|s| s.links[0].friction = d(0.0)),
        ValidationError::FrictionOutOfRange { link: 0, friction: d(0.0) }
    );
}

#[test]
fn faults_of_pipes_and_movements() {
    assert_eq!(
        fault(|s| s.links[0].pipe_specs = vec![spec(1, 1), spec(1, 1)]),
        ValidationError::LaneSumMismatch { link: 0, sum: 2, lanes: 1 }
    );
    assert_eq!(
        fault(|s| s.links[0].pipe_specs = vec![spec(1, 1), spec(0, 1)]),
        ValidationError::PipeWithoutLanes { link: 0 }
    );
    assert_eq!(
        fault(|s| s.links[0].pipe_specs = vec![spec(1, 0)]),
        ValidationError::PipeWithoutClass { link: 0 }
    );
    assert_eq!(
        fault(|s| {
            s.links[0].moves.insert(1, vec![3]);
        }),
        ValidationError::MovePipeOutOfRange { link: 0, out_link: 1, pipes: 1 }
    );
    assert_eq!(
        fault(|s| {
            s.links[0].moves.insert(1, vec![]);
        }),
        ValidationError::MoveWithoutPipe { link: 0, out_link: 1 }
    );
    assert_eq!(
        fault(|s| {
            s.links[0].moves.insert(0, vec![0]);
        }),
        ValidationError::MoveNotOutgoing { link: 0, out_link: 0, node: 1 }
    );
}

#[test]
fn faults_of_classes_and_vehicles() {
    assert_eq!(fault(|s| s.classes.clear()), ValidationError::ClassCount { count: 0 });
    assert_eq!(
        fault(|s| s.classes = vec!["x".to_string(); 65]),
        ValidationError::ClassCount { count: 65 }
    );
    let vehicle = |origin: usize, destination: usize, path: Vec<usize>, class_id: usize| {
        Vehicle::new(4, class_id, path, d(0.0), origin, destination)
    };
    assert_eq!(
        fault(|s| s.vehicles.push(vehicle(9, 2, vec![0, 1], 0))),
        ValidationError::MissingOrigin { vehicle: 4, node: 9 }
    );
    assert_eq!(
        fault(|s| s.vehicles.push(vehicle(0, 9, vec![0, 1], 0))),
        ValidationError::MissingDestination { vehicle: 4, node: 9 }
    );
    assert_eq!(
        fault(|s| s.vehicles.push(vehicle(0, 2, vec![0, 99], 0))),
        ValidationError::MissingPathLink { vehicle: 4, link: 99 }
    );
    assert_eq!(
        fault(|s| {
            s.links[0].pipe_specs = vec![spec(1, 0b01)];
            s.classes.push("bus".to_string());
            s.vehicles.push(vehicle(0, 2, vec![0, 1], 1));
        }),
        ValidationError::Untraversable { vehicle: 4, class_id: 1, link: 0, next: Some(1) }
    );
}

fn schedule(time: f64, link_id: usize, attrs: LinkAttrs) -> ValidationError {
    fault(|s| {
        s.link_schedule.push(LinkStateChange { time: d(time), link_id, attrs: attrs.clone() });
    })
}

#[test]
fn faults_of_the_schedule() {
    let none = || LinkAttrs::default();
    assert_eq!(
        schedule(f64::NAN, 0, none()),
        ValidationError::ScheduleTime { entry: 0, link: 0 }
    );
    assert_eq!(
        schedule(1.0, 7, none()),
        ValidationError::ScheduleUnknownLink { entry: 0, link: 7 }
    );
    assert_eq!(
        schedule(1.0, 0, LinkAttrs { class_masks: Some(vec![1, 1]), ..none() }),
        ValidationError::ScheduleMaskCount { entry: 0, link: 0, masks: 2, pipes: 1 }
    );
    assert_eq!(
        schedule(1.0, 0, LinkAttrs { pipe_specs: Some(vec![spec(1, 1), spec(1, 1)]), ..none() }),
        ValidationError::SchedulePipeCount { entry: 0, link: 0, specs: 2, pipes: 1 }
    );
    assert_eq!(
        fault(|s| {
            s.links[0].pipe_specs = vec![spec(1, ALL_CLASSES)];
            let attrs = LinkAttrs { pipe_specs: Some(vec![spec(0, 1)]), ..LinkAttrs::default() };
            s.link_schedule.push(LinkStateChange { time: d(1.0), link_id: 0, attrs });
        }),
        ValidationError::SchedulePipeWithoutLanes { entry: 0, link: 0 }
    );
    assert_eq!(
        schedule(1.0, 0, LinkAttrs { num_lanes: Some(0), ..none() }),
        ValidationError::ScheduleNoLanes { entry: 0, link: 0 }
    );
    assert_eq!(
        schedule(1.0, 0, LinkAttrs { speed: Some(d(0.0)), ..none() }),
        ValidationError::ScheduleSpeed { entry: 0, link: 0 }
    );
    assert_eq!(
        schedule(1.0, 0, LinkAttrs { capacity: Some(d(-1.0)), ..none() }),
        ValidationError::ScheduleCapacity { entry: 0, link: 0 }
    );
    assert_eq!(
        schedule(1.0, 0, LinkAttrs { friction: Some(d(2.0)), ..none() }),
        ValidationError::ScheduleFriction { entry: 0, link: 0 }
    );
    assert_eq!(
        fault(|s| s.assignment_excluded.push(5)),
        ValidationError::ExcludedMissing { link: 5 }
    );
}
