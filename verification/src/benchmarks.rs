//! Canonical situations with closed-form solutions.
//!
//! Each case builds a small scenario whose outcome follows by hand from
//! kinematic wave theory, runs the simulation on it, and compares what it
//! measures with the theory.
//!
//! 1. Free-flow transit: one vehicle on an empty corridor takes the sum of L/u.
//! 2. Bottleneck discharge: of N vehicles released at once, the n-th passes a
//!    bottleneck of capacity C at L/u + n/C.
//! 3. Queueing delay: with arrivals at a rate above C, vehicle n waits
//!    n (1/C - 1/rate).
//! 4. Spillback: on a link at jam the entry that an exit enables lags it by L/w.
//! 5. Merge: two branches discharge together at the capacity of the bottleneck.
//! 6. Bus lane: buses on their own pipe pass saturated cars in free flow.
//! 7. Shoulder exit: a blocked exit fills its own pipe only.
//! 8. Through traffic passes the blocked exit in free flow.
//! 9. Friction: beside a spilled pipe the others discharge with a headway of
//!    1/(phi C).

use crate::constants::{
    FIFTEEN, FIFTH, FIVE, FIVE_HUNDRED, HALF, HUNDRED, MILLION, NEAR_ZERO, NEG_INFINITY,
    ONE_PERCENT, SEVEN_TENTHS, TEN, TENTH, THIRTY, THREE, THREE_HUNDRED, THREE_HUNDREDTHS, TWENTY,
    TWO, TWO_HUNDRED, TWO_HUNDREDTHS,
};
use crate::double::{Double, INF_BITS, NAN_BITS};
use crate::model::{
    FundamentalDiagram, Link, LinkID, LinkView, Node, NodeID, NodeType, NodeView, PipeIdx, PipeSpec,
    Scenario, Vehicle, VehicleState, VehicleView, ALL_CLASSES,
};
use crate::order::sort_doubles;
use crate::simulation::Simulation;
use crate::verification::CheckStatus;
use vstd::prelude::*;

verus! {

#[derive(Debug, Clone, Copy, PartialEq, Eq, Structural)]
pub enum BenchmarkCase {
    FreeFlowTransit,
    BottleneckDischarge,
    QueueDelay,
    SpillbackWave,
    MergeThroughput,
    BusLaneImmunity,
    ShoulderExitWave,
    ShoulderExitThrough,
    FrictionThrottle,
}

impl BenchmarkCase {
    /// Short identifier.
    pub fn id(self) -> (r: &'static str)
        ensures
            r@ == match self {
                BenchmarkCase::FreeFlowTransit => "free_flow_transit"@,
                BenchmarkCase::BottleneckDischarge => "bottleneck_discharge"@,
                BenchmarkCase::QueueDelay => "queue_delay"@,
                BenchmarkCase::SpillbackWave => "spillback_wave"@,
                BenchmarkCase::MergeThroughput => "merge_throughput"@,
                BenchmarkCase::BusLaneImmunity => "bus_lane_immunity"@,
                BenchmarkCase::ShoulderExitWave => "shoulder_exit_wave"@,
                BenchmarkCase::ShoulderExitThrough => "shoulder_exit_through"@,
                BenchmarkCase::FrictionThrottle => "friction_throttle"@,
            },
    {
        match self {
            BenchmarkCase::FreeFlowTransit => "free_flow_transit",
            BenchmarkCase::BottleneckDischarge => "bottleneck_discharge",
            BenchmarkCase::QueueDelay => "queue_delay",
            BenchmarkCase::SpillbackWave => "spillback_wave",
            BenchmarkCase::MergeThroughput => "merge_throughput",
            BenchmarkCase::BusLaneImmunity => "bus_lane_immunity",
            BenchmarkCase::ShoulderExitWave => "shoulder_exit_wave",
            BenchmarkCase::ShoulderExitThrough => "shoulder_exit_through",
            BenchmarkCase::FrictionThrottle => "friction_throttle",
        }
    }

    /// Name for readers.
    pub fn name(self) -> (r: &'static str)
        ensures
            r@ == match self {
                BenchmarkCase::FreeFlowTransit => "Free-flow transit time"@,
                BenchmarkCase::BottleneckDischarge => "Bottleneck discharge timing"@,
                BenchmarkCase::QueueDelay => "Deterministic queueing delay"@,
                BenchmarkCase::SpillbackWave => "Spillback backward wave"@,
                BenchmarkCase::MergeThroughput => "Merge throughput conservation"@,
                BenchmarkCase::BusLaneImmunity => "Bus lane immunity"@,
                BenchmarkCase::ShoulderExitWave => "Shoulder-exit spillback wave"@,
                BenchmarkCase::ShoulderExitThrough => "Through traffic past a blocked exit"@,
                BenchmarkCase::FrictionThrottle => "Friction-throttled sibling discharge"@,
            },
    {
        match self {
            BenchmarkCase::FreeFlowTransit => "Free-flow transit time",
            BenchmarkCase::BottleneckDischarge => "Bottleneck discharge timing",
            BenchmarkCase::QueueDelay => "Deterministic queueing delay",
            BenchmarkCase::SpillbackWave => "Spillback backward wave",
            BenchmarkCase::MergeThroughput => "Merge throughput conservation",
            BenchmarkCase::BusLaneImmunity => "Bus lane immunity",
            BenchmarkCase::ShoulderExitWave => "Shoulder-exit spillback wave",
            BenchmarkCase::ShoulderExitThrough => "Through traffic past a blocked exit",
            BenchmarkCase::FrictionThrottle => "Friction-throttled sibling discharge",
        }
    }

    /// Unit of the analytic and measured values.
    pub fn unit(self) -> (r: &'static str)
        ensures
            r@ == match self {
                BenchmarkCase::FreeFlowTransit => "s"@,
                BenchmarkCase::BottleneckDischarge => "s"@,
                BenchmarkCase::QueueDelay => "s"@,
                BenchmarkCase::SpillbackWave => "s"@,
                BenchmarkCase::MergeThroughput => "veh/s"@,
                BenchmarkCase::BusLaneImmunity => "s"@,
                BenchmarkCase::ShoulderExitWave => "s"@,
                BenchmarkCase::ShoulderExitThrough => "s"@,
                BenchmarkCase::FrictionThrottle => "s"@,
            },
    {
        match self {
            BenchmarkCase::FreeFlowTransit => "s",
            BenchmarkCase::BottleneckDischarge => "s",
            BenchmarkCase::QueueDelay => "s",
            BenchmarkCase::SpillbackWave => "s",
            BenchmarkCase::MergeThroughput => "veh/s",
            BenchmarkCase::BusLaneImmunity => "s",
            BenchmarkCase::ShoulderExitWave => "s",
            BenchmarkCase::ShoulderExitThrough => "s",
            BenchmarkCase::FrictionThrottle => "s",
        }
    }
}

#[derive(Debug, Clone, Copy)]
pub struct BenchmarkResult {
    pub case: BenchmarkCase,
    /// The situation that the case is about did not come about.
    pub vacuous: bool,
    pub analytic: Double,
    pub measured: Double,
    pub error_pct: Double,
    pub status: CheckStatus,
}

/// Deviation from the theory in per cent.
pub open spec fn deviation(analytic: Double, measured: Double) -> Double {
    if analytic.abs().gt(Double::from_bits(NEAR_ZERO)) {
        measured.minus(analytic).over(analytic).abs().times(Double::from_bits(HUNDRED))
    } else {
        measured.minus(analytic).abs().times(Double::from_bits(HUNDRED))
    }
}

/// The simulation is deterministic and exact in its events, so that it must
/// match the theory almost perfectly.
pub open spec fn graded(error_pct: Double) -> CheckStatus {
    if error_pct.lt(Double::from_bits(HALF)) {
        CheckStatus::Pass
    } else if error_pct.lt(Double::from_bits(FIVE)) {
        CheckStatus::Warn
    } else {
        CheckStatus::Fail
    }
}

fn make_result(case: BenchmarkCase, vacuous: bool, analytic: Double, measured: Double) -> (r:
    BenchmarkResult)
    ensures
        r.case == case,
        r.vacuous == vacuous,
        r.analytic == analytic,
        r.measured == measured,
        r.error_pct == deviation(analytic, measured),
        r.status == graded(r.error_pct),
{
    let error_pct: Double = if analytic.abs().gt(Double::from_bits(NEAR_ZERO)) {
        measured.minus(analytic).over(analytic).abs().times(Double::from_bits(HUNDRED))
    } else {
        measured.minus(analytic).abs().times(Double::from_bits(HUNDRED))
    };
    let status: CheckStatus = if error_pct.lt(Double::from_bits(HALF)) {
        CheckStatus::Pass
    } else if error_pct.lt(Double::from_bits(FIVE)) {
        CheckStatus::Warn
    } else {
        CheckStatus::Fail
    };
    BenchmarkResult { case, vacuous, analytic, measured, error_pct, status }
}

// ── Parts of scenarios ───────────────────────────────────────────────────────

/// What a case sets up.
#[verifier::ext_equal]
pub ghost struct SetUp {
    pub nodes: Seq<NodeView>,
    pub links: Seq<LinkView>,
    pub vehicles: Seq<VehicleView>,
    pub classes: Seq<Seq<char>>,
}

/// The scenario is what a case sets up, with a long horizon.
pub open spec fn is_set_up(s: Scenario, u: SetUp) -> bool {
    &&& crate::io::node_views(s.nodes@) == u.nodes
    &&& crate::simulation::link_views(s.links@) == u.links
    &&& crate::simulation::vehicle_views(s.vehicles@) == u.vehicles
    &&& crate::json::text_views(s.classes@) == u.classes
    &&& s.demand@.len() == 0
    &&& s.start_time == Double::zero()
    &&& s.duration == Double::from_bits(MILLION)
    &&& s.link_schedule@.len() == 0
    &&& s.assignment_excluded@.len() == 0
}

pub open spec fn node_at(
    id: NodeID,
    node_type: NodeType,
    incoming: Seq<LinkID>,
    outgoing: Seq<LinkID>,
) -> NodeView {
    NodeView {
        id,
        node_type,
        incoming,
        outgoing,
        points: (Double::from_usize(id), Double::zero()),
        signals: Seq::empty(),
    }
}

fn make_node(
    id: NodeID,
    node_type: NodeType,
    incoming: Vec<LinkID>,
    outgoing: Vec<LinkID>,
) -> (n: Node)
    ensures
        n@ == node_at(id, node_type, incoming@, outgoing@),
{
    let n = Node {
        id,
        node_type,
        incoming_links: incoming,
        outgoing_links: outgoing,
        points: (Double::from_usize(id), Double::zero()),
        signals: Vec::new(),
    };
    assert(n@.signals =~= Seq::empty());
    n
}

/// A diagram with u = 10 m/s and w = 5 m/s.
pub open spec fn diagram(kx: Double, c: Double) -> FundamentalDiagram {
    FundamentalDiagram { u: Double::from_bits(TEN), w: Double::from_bits(FIVE), kx, c }
}

fn make_diagram(kx: Double, c: Double) -> (fd: FundamentalDiagram)
    ensures
        fd == diagram(kx, c),
{
    FundamentalDiagram { u: Double::from_bits(TEN), w: Double::from_bits(FIVE), kx, c }
}

/// A link of 100 m at 10 m/s.
pub open spec fn link_at(
    id: LinkID,
    up: NodeID,
    down: NodeID,
    lanes: u8,
    capacity: Double,
    fd: FundamentalDiagram,
) -> LinkView {
    LinkView {
        id,
        node_up: up,
        node_down: down,
        length: Double::from_bits(HUNDRED),
        speed: Double::from_bits(TEN),
        num_lanes: lanes,
        capacity,
        fd,
        points: Seq::empty(),
        priority: Double::one(),
        pipe_specs: Seq::empty(),
        moves: Map::empty(),
        friction: Double::one(),
        pipes: Seq::empty(),
    }
}

fn make_link(
    id: LinkID,
    up: NodeID,
    down: NodeID,
    lanes: u8,
    capacity: Double,
    fd: FundamentalDiagram,
) -> (l: Link)
    ensures
        l@ == link_at(id, up, down, lanes, capacity, fd),
{
    let points: Vec<(Double, Double)> = Vec::new();
    assert(points@ =~= Seq::empty());
    Link::new(
        id,
        up,
        down,
        Double::from_bits(HUNDRED),
        Double::from_bits(TEN),
        lanes,
        capacity,
        fd,
        points,
    )
}

pub open spec fn vehicle_at(
    id: usize,
    class_id: usize,
    path: Seq<LinkID>,
    start_time: Double,
    origin: NodeID,
    destination: NodeID,
) -> VehicleView {
    VehicleView {
        id,
        class_id,
        path,
        start_time,
        origin,
        destination,
        state: VehicleState::QueuedAtEntry,
        at: 0,
        node_times: Seq::empty(),
        pipes_taken: Seq::empty(),
    }
}

fn make_vehicle(
    id: usize,
    class_id: usize,
    first: LinkID,
    second: LinkID,
    start_time: Double,
    origin: NodeID,
    destination: NodeID,
) -> (v: Vehicle)
    ensures
        v@ == vehicle_at(id, class_id, seq![first, second], start_time, origin, destination),
{
    let path: Vec<LinkID> = two(first, second);
    Vehicle::new(id, class_id, path, start_time, origin, destination)
}

fn none() -> (r: Vec<LinkID>)
    ensures
        r@ == Seq::<LinkID>::empty(),
{
    let r: Vec<LinkID> = Vec::new();
    assert(r@ =~= Seq::empty());
    r
}

fn one(a: LinkID) -> (r: Vec<LinkID>)
    ensures
        r@ == seq![a],
{
    let mut r: Vec<LinkID> = Vec::new();
    r.push(a);
    assert(r@ =~= seq![a]);
    r
}

fn two(a: LinkID, b: LinkID) -> (r: Vec<LinkID>)
    ensures
        r@ == seq![a, b],
{
    let mut r: Vec<LinkID> = Vec::new();
    r.push(a);
    r.push(b);
    assert(r@ =~= seq![a, b]);
    r
}

fn make_scenario(
    nodes: Vec<Node>,
    links: Vec<Link>,
    vehicles: Vec<Vehicle>,
    classes: Vec<String>,
) -> (s: Scenario)
    ensures
        is_set_up(
            s,
            SetUp {
                nodes: crate::io::node_views(nodes@),
                links: crate::simulation::link_views(links@),
                vehicles: crate::simulation::vehicle_views(vehicles@),
                classes: crate::json::text_views(classes@),
            },
        ),
{
    Scenario {
        nodes,
        links,
        vehicles,
        demand: Vec::new(),
        start_time: Double::zero(),
        duration: Double::from_bits(MILLION),
        classes,
        link_schedule: Vec::new(),
        assignment_excluded: Vec::new(),
    }
}

// ── Scenarios ────────────────────────────────────────────────────────────────

/// Entry 0, link 0, node 1, link 1, exit 2.
pub open spec fn chain_nodes() -> Seq<NodeView> {
    seq![
        node_at(0, NodeType::Entry, Seq::empty(), seq![0]),
        node_at(1, NodeType::Internal, seq![0], seq![1]),
        node_at(2, NodeType::Exit, seq![1], Seq::empty()),
    ]
}

fn make_chain_nodes() -> (r: Vec<Node>)
    ensures
        crate::io::node_views(r@) == chain_nodes(),
{
    let mut r: Vec<Node> = Vec::new();
    r.push(make_node(0, NodeType::Entry, none(), one(0)));
    r.push(make_node(1, NodeType::Internal, one(0), one(1)));
    r.push(make_node(2, NodeType::Exit, one(1), none()));
    assert(crate::io::node_views(r@) =~= chain_nodes());
    r
}

/// A corridor of two links: the jam density of the first and the capacity of
/// the second are given.
pub open spec fn corridor(kx0: Double, c1: Double, starts: Seq<Double>) -> SetUp {
    let ten = Double::from_bits(TEN);
    SetUp {
        nodes: chain_nodes(),
        links: seq![
            link_at(0, 0, 1, 2, ten, diagram(kx0, ten)),
            link_at(1, 1, 2, 1, c1, diagram(ten, c1)),
        ],
        vehicles: Seq::new(
            starts.len(),
            |i: int| vehicle_at(i as usize, 0, seq![0, 1], starts[i], 0, 2),
        ),
        classes: seq!["car"@],
    }
}

fn make_corridor(kx0: Double, c1: Double, starts: &Vec<Double>) -> (s: Scenario)
    ensures
        is_set_up(s, corridor(kx0, c1, starts@)),
{
    let ten: Double = Double::from_bits(TEN);
    let nodes: Vec<Node> = make_chain_nodes();
    let mut links: Vec<Link> = Vec::new();
    links.push(make_link(0, 0, 1, 2, ten, make_diagram(kx0, ten)));
    links.push(make_link(1, 1, 2, 1, c1, make_diagram(ten, c1)));
    let ghost all = corridor(kx0, c1, starts@).vehicles;
    let mut vehicles: Vec<Vehicle> = Vec::new();
    let mut i: usize = 0;
    assert(crate::simulation::vehicle_views(vehicles@) =~= all.take(0));
    while i < starts.len()
        invariant
            all == corridor(kx0, c1, starts@).vehicles,
            i <= starts@.len(),
            crate::simulation::vehicle_views(vehicles@) == all.take(i as int),
        decreases starts@.len() - i,
    {
        let ghost before = crate::simulation::vehicle_views(vehicles@);
        let v: Vehicle = make_vehicle(i, 0, 0, 1, starts[i], 0, 2);
        vehicles.push(v);
        i = i + 1;
        assert(crate::simulation::vehicle_views(vehicles@) =~= before.push(v@));
        assert(crate::simulation::vehicle_views(vehicles@) =~= all.take(i as int));
    }
    let classes: Vec<String> = crate::model::default_classes();
    proof {
        assert(all.take(all.len() as int) =~= all);
        assert(crate::simulation::link_views(links@) =~= corridor(kx0, c1, starts@).links);
        assert(crate::json::text_views(classes@) =~= seq!["car"@]);
    }
    make_scenario(nodes, links, vehicles, classes)
}

/// Two entries that merge into a bottleneck.
pub open spec fn merging(c: Double, per_branch: nat) -> SetUp {
    let ten = Double::from_bits(TEN);
    SetUp {
        nodes: seq![
            node_at(0, NodeType::Entry, Seq::empty(), seq![0]),
            node_at(1, NodeType::Entry, Seq::empty(), seq![1]),
            node_at(2, NodeType::Internal, seq![0, 1], seq![2]),
            node_at(3, NodeType::Exit, seq![2], Seq::empty()),
        ],
        links: seq![
            link_at(0, 0, 2, 2, ten, diagram(ten, ten)),
            link_at(1, 1, 2, 2, ten, diagram(ten, ten)),
            link_at(2, 2, 3, 1, c, diagram(ten, c)),
        ],
        vehicles: Seq::new(
            2 * per_branch,
            |i: int|
                vehicle_at(
                    i as usize,
                    0,
                    seq![(i % 2) as usize, 2],
                    Double::zero(),
                    (i % 2) as usize,
                    3,
                ),
        ),
        classes: seq!["car"@],
    }
}

fn make_merge(c: Double, per_branch: usize) -> (s: Scenario)
    requires
        per_branch <= 1000,
    ensures
        is_set_up(s, merging(c, per_branch as nat)),
{
    let ten: Double = Double::from_bits(TEN);
    let ghost whole = merging(c, per_branch as nat);
    let mut nodes: Vec<Node> = Vec::new();
    nodes.push(make_node(0, NodeType::Entry, none(), one(0)));
    nodes.push(make_node(1, NodeType::Entry, none(), one(1)));
    nodes.push(make_node(2, NodeType::Internal, two(0, 1), one(2)));
    nodes.push(make_node(3, NodeType::Exit, one(2), none()));
    let mut links: Vec<Link> = Vec::new();
    links.push(make_link(0, 0, 2, 2, ten, make_diagram(ten, ten)));
    links.push(make_link(1, 1, 2, 2, ten, make_diagram(ten, ten)));
    links.push(make_link(2, 2, 3, 1, c, make_diagram(ten, c)));
    let n: usize = 2 * per_branch;
    let ghost all = whole.vehicles;
    let mut vehicles: Vec<Vehicle> = Vec::new();
    let mut i: usize = 0;
    assert(crate::simulation::vehicle_views(vehicles@) =~= all.take(0));
    while i < n
        invariant
            n == 2 * per_branch,
            all == merging(c, per_branch as nat).vehicles,
            i <= n,
            crate::simulation::vehicle_views(vehicles@) == all.take(i as int),
        decreases n - i,
    {
        let ghost before = crate::simulation::vehicle_views(vehicles@);
        let v: Vehicle = make_vehicle(i, 0, i % 2, 2, Double::zero(), i % 2, 3);
        vehicles.push(v);
        i = i + 1;
        assert(crate::simulation::vehicle_views(vehicles@) =~= before.push(v@));
        assert(crate::simulation::vehicle_views(vehicles@) =~= all.take(i as int));
    }
    let classes: Vec<String> = crate::model::default_classes();
    proof {
        assert(all.take(all.len() as int) =~= all);
        assert(crate::io::node_views(nodes@) =~= whole.nodes);
        assert(crate::simulation::link_views(links@) =~= whole.links);
        assert(crate::json::text_views(classes@) =~= seq!["car"@]);
    }
    make_scenario(nodes, links, vehicles, classes)
}

/// A pipe of two lanes for cars and one of one lane for buses.
pub open spec fn bus_partition() -> Seq<PipeSpec> {
    seq![PipeSpec { lanes: 2, class_mask: 1 }, PipeSpec { lanes: 1, class_mask: 2 }]
}

pub open spec fn bus_link(id: LinkID, up: NodeID, down: NodeID) -> LinkView {
    LinkView {
        pipe_specs: bus_partition(),
        ..link_at(
            id,
            up,
            down,
            3,
            Double::from_bits(THREE_HUNDREDTHS),
            diagram(Double::from_bits(TENTH), Double::from_bits(ONE_PERCENT)),
        )
    }
}

/// When bus `k` departs.
pub open spec fn bus_start(k: int) -> Double {
    if k == 0 {
        Double::from_bits(HUNDRED)
    } else if k == 1 {
        Double::from_bits(THREE_HUNDRED)
    } else {
        Double::from_bits(FIVE_HUNDRED)
    }
}

/// A corridor of two links with a bus lane: 40 cars at headways that saturate
/// their pipe, and 3 buses far apart.
pub open spec fn bus_lane() -> SetUp {
    SetUp {
        nodes: chain_nodes(),
        links: seq![bus_link(0, 0, 1), bus_link(1, 1, 2)],
        vehicles: Seq::new(
            43,
            |i: int|
                if i < 40 {
                    vehicle_at(
                        i as usize,
                        0,
                        seq![0, 1],
                        Double::from_usize(i as usize).times(Double::from_bits(TWO)),
                        0,
                        2,
                    )
                } else {
                    vehicle_at(i as usize, 1, seq![0, 1], bus_start(i - 40), 0, 2)
                },
        ),
        classes: seq!["car"@, "bus"@],
    }
}

fn make_bus_link(id: LinkID, up: NodeID, down: NodeID) -> (l: Link)
    ensures
        l@ == bus_link(id, up, down),
{
    let fd: FundamentalDiagram = make_diagram(
        Double::from_bits(TENTH),
        Double::from_bits(ONE_PERCENT),
    );
    let mut l: Link = make_link(id, up, down, 3, Double::from_bits(THREE_HUNDREDTHS), fd);
    let mut specs: Vec<PipeSpec> = Vec::new();
    specs.push(PipeSpec { lanes: 2, class_mask: 1 });
    specs.push(PipeSpec { lanes: 1, class_mask: 2 });
    l.pipe_specs = specs;
    assert(l@.pipe_specs =~= bus_partition());
    l
}

fn make_bus_lane() -> (s: Scenario)
    ensures
        is_set_up(s, bus_lane()),
{
    let nodes: Vec<Node> = make_chain_nodes();
    let mut links: Vec<Link> = Vec::new();
    links.push(make_bus_link(0, 0, 1));
    links.push(make_bus_link(1, 1, 2));
    let ghost all = bus_lane().vehicles;
    let mut vehicles: Vec<Vehicle> = Vec::new();
    let mut i: usize = 0;
    assert(crate::simulation::vehicle_views(vehicles@) =~= all.take(0));
    while i < 43
        invariant
            all == bus_lane().vehicles,
            i <= 43,
            crate::simulation::vehicle_views(vehicles@) == all.take(i as int),
        decreases 43 - i,
    {
        let ghost before = crate::simulation::vehicle_views(vehicles@);
        let v: Vehicle = if i < 40 {
            let t: Double = Double::from_usize(i).times(Double::from_bits(TWO));
            make_vehicle(i, 0, 0, 1, t, 0, 2)
        } else {
            let t: Double = if i == 40 {
                Double::from_bits(HUNDRED)
            } else if i == 41 {
                Double::from_bits(THREE_HUNDRED)
            } else {
                Double::from_bits(FIVE_HUNDRED)
            };
            make_vehicle(i, 1, 0, 1, t, 0, 2)
        };
        vehicles.push(v);
        i = i + 1;
        assert(crate::simulation::vehicle_views(vehicles@) =~= before.push(v@));
        assert(crate::simulation::vehicle_views(vehicles@) =~= all.take(i as int));
    }
    let mut classes: Vec<String> = Vec::new();
    classes.push("car".to_string());
    classes.push("bus".to_string());
    proof {
        assert(all.take(all.len() as int) =~= all);
        assert(crate::simulation::link_views(links@) =~= bus_lane().links);
        assert(crate::json::text_views(classes@) =~= seq!["car"@, "bus"@]);
    }
    make_scenario(nodes, links, vehicles, classes)
}

/// A link with a shoulder pipe for the exit and two lanes for through traffic.
pub open spec fn shoulder_link(phi: Double) -> LinkView {
    LinkView {
        pipe_specs: seq![
            PipeSpec { lanes: 1, class_mask: ALL_CLASSES },
            PipeSpec { lanes: 2, class_mask: ALL_CLASSES },
        ],
        moves: Map::<LinkID, Seq<PipeIdx>>::empty().insert(2, seq![0u8]).insert(1, seq![1u8]),
        friction: phi,
        ..link_at(
            0,
            0,
            1,
            3,
            Double::from_bits(FIFTEEN),
            diagram(Double::from_bits(TWO_HUNDREDTHS), Double::from_bits(FIVE)),
        )
    }
}

/// A diverge with an almost blocked exit: 4 vehicles to the exit, then 4
/// through.
pub open spec fn shoulder_exit(phi: Double) -> SetUp {
    let ten = Double::from_bits(TEN);
    SetUp {
        nodes: seq![
            node_at(0, NodeType::Entry, Seq::empty(), seq![0]),
            node_at(1, NodeType::Internal, seq![0], seq![1, 2]),
            node_at(2, NodeType::Exit, seq![1], Seq::empty()),
            node_at(3, NodeType::Exit, seq![2], Seq::empty()),
        ],
        links: seq![
            shoulder_link(phi),
            link_at(1, 1, 2, 2, Double::from_bits(TWENTY), diagram(ten, ten)),
            link_at(
                2,
                1,
                3,
                1,
                Double::from_bits(ONE_PERCENT),
                diagram(ten, Double::from_bits(ONE_PERCENT)),
            ),
        ],
        vehicles: Seq::new(
            8,
            |i: int|
                if i < 4 {
                    vehicle_at(i as usize, 0, seq![0, 2], Double::zero(), 0, 3)
                } else {
                    vehicle_at(i as usize, 0, seq![0, 1], Double::zero(), 0, 2)
                },
        ),
        classes: seq!["car"@],
    }
}

fn make_shoulder_link(phi: Double) -> (l: Link)
    ensures
        l@ == shoulder_link(phi),
{
    broadcast use vstd::std_specs::hash::group_hash_axioms;

    let fd: FundamentalDiagram = make_diagram(
        Double::from_bits(TWO_HUNDREDTHS),
        Double::from_bits(FIVE),
    );
    let mut l: Link = make_link(0, 0, 1, 3, Double::from_bits(FIFTEEN), fd);
    let mut specs: Vec<PipeSpec> = Vec::new();
    specs.push(PipeSpec { lanes: 1, class_mask: ALL_CLASSES });
    specs.push(PipeSpec { lanes: 2, class_mask: ALL_CLASSES });
    l.pipe_specs = specs;
    let mut shoulder: Vec<PipeIdx> = Vec::new();
    shoulder.push(0);
    let mut through: Vec<PipeIdx> = Vec::new();
    through.push(1);
    assert(shoulder@ =~= seq![0u8]);
    assert(through@ =~= seq![1u8]);
    let _ = l.moves.insert(2, shoulder);
    let _ = l.moves.insert(1, through);
    l.friction = phi;
    proof {
        assert(l@.pipe_specs =~= shoulder_link(phi).pipe_specs);
        assert(l@.moves =~= shoulder_link(phi).moves);
    }
    l
}

fn make_shoulder_exit(phi: Double) -> (s: Scenario)
    ensures
        is_set_up(s, shoulder_exit(phi)),
{
    let ten: Double = Double::from_bits(TEN);
    let ghost whole = shoulder_exit(phi);
    let mut nodes: Vec<Node> = Vec::new();
    nodes.push(make_node(0, NodeType::Entry, none(), one(0)));
    nodes.push(make_node(1, NodeType::Internal, one(0), two(1, 2)));
    nodes.push(make_node(2, NodeType::Exit, one(1), none()));
    nodes.push(make_node(3, NodeType::Exit, one(2), none()));
    let slow: Double = Double::from_bits(ONE_PERCENT);
    let mut links: Vec<Link> = Vec::new();
    links.push(make_shoulder_link(phi));
    links.push(make_link(1, 1, 2, 2, Double::from_bits(TWENTY), make_diagram(ten, ten)));
    links.push(make_link(2, 1, 3, 1, slow, make_diagram(ten, slow)));
    let ghost all = whole.vehicles;
    let mut vehicles: Vec<Vehicle> = Vec::new();
    let mut i: usize = 0;
    assert(crate::simulation::vehicle_views(vehicles@) =~= all.take(0));
    while i < 8
        invariant
            all == shoulder_exit(phi).vehicles,
            i <= 8,
            crate::simulation::vehicle_views(vehicles@) == all.take(i as int),
        decreases 8 - i,
    {
        let ghost before = crate::simulation::vehicle_views(vehicles@);
        let v: Vehicle = if i < 4 {
            make_vehicle(i, 0, 0, 2, Double::zero(), 0, 3)
        } else {
            make_vehicle(i, 0, 0, 1, Double::zero(), 0, 2)
        };
        vehicles.push(v);
        i = i + 1;
        assert(crate::simulation::vehicle_views(vehicles@) =~= before.push(v@));
        assert(crate::simulation::vehicle_views(vehicles@) =~= all.take(i as int));
    }
    let classes: Vec<String> = crate::model::default_classes();
    proof {
        assert(all.take(all.len() as int) =~= all);
        assert(crate::io::node_views(nodes@) =~= whole.nodes);
        assert(crate::simulation::link_views(links@) =~= whole.links);
        assert(crate::json::text_views(classes@) =~= seq!["car"@]);
    }
    make_scenario(nodes, links, vehicles, classes)
}

/// Equal times.
pub open spec fn zeros(n: nat) -> Seq<Double> {
    Seq::new(n, |i: int| Double::zero())
}

/// Times at a rate.
pub open spec fn at_rate(n: nat, rate: Double) -> Seq<Double> {
    Seq::new(n, |i: int| Double::from_usize(i as usize).over(rate))
}

fn make_zeros(n: usize) -> (r: Vec<Double>)
    ensures
        r@ == zeros(n as nat),
{
    let mut r: Vec<Double> = Vec::new();
    let mut i: usize = 0;
    while i < n
        invariant
            i <= n,
            r@ == zeros(n as nat).take(i as int),
        decreases n - i,
    {
        r.push(Double::zero());
        i = i + 1;
        assert(r@ =~= zeros(n as nat).take(i as int));
    }
    assert(r@ =~= zeros(n as nat));
    r
}

fn make_at_rate(n: usize, rate: Double) -> (r: Vec<Double>)
    ensures
        r@ == at_rate(n as nat, rate),
{
    let mut r: Vec<Double> = Vec::new();
    let mut i: usize = 0;
    while i < n
        invariant
            i <= n,
            r@ == at_rate(n as nat, rate).take(i as int),
        decreases n - i,
    {
        r.push(Double::from_usize(i).over(rate));
        i = i + 1;
        assert(r@ =~= at_rate(n as nat, rate).take(i as int));
    }
    assert(r@ =~= at_rate(n as nat, rate));
    r
}

/// What each case sets up.
pub open spec fn set_up_of(case: BenchmarkCase) -> SetUp {
    let ten = Double::from_bits(TEN);
    let tenth = Double::from_bits(TENTH);
    match case {
        BenchmarkCase::FreeFlowTransit => corridor(ten, ten, zeros(1)),
        BenchmarkCase::BottleneckDischarge => corridor(ten, tenth, zeros(30)),
        BenchmarkCase::QueueDelay => corridor(
            ten,
            tenth,
            at_rate(20, Double::from_bits(FIFTH)),
        ),
        BenchmarkCase::SpillbackWave => corridor(
            Double::from_bits(TWO_HUNDREDTHS),
            Double::from_bits(ONE_PERCENT),
            zeros(6),
        ),
        BenchmarkCase::MergeThroughput => merging(tenth, 20),
        BenchmarkCase::BusLaneImmunity => bus_lane(),
        BenchmarkCase::ShoulderExitWave => shoulder_exit(Double::one()),
        BenchmarkCase::ShoulderExitThrough => shoulder_exit(Double::one()),
        BenchmarkCase::FrictionThrottle => shoulder_exit(Double::from_bits(SEVEN_TENTHS)),
    }
}

fn build(case: BenchmarkCase) -> (s: Scenario)
    ensures
        is_set_up(s, set_up_of(case)),
{
    let ten: Double = Double::from_bits(TEN);
    let tenth: Double = Double::from_bits(TENTH);
    match case {
        BenchmarkCase::FreeFlowTransit => make_corridor(ten, ten, &make_zeros(1)),
        BenchmarkCase::BottleneckDischarge => make_corridor(ten, tenth, &make_zeros(30)),
        BenchmarkCase::QueueDelay => make_corridor(
            ten,
            tenth,
            &make_at_rate(20, Double::from_bits(FIFTH)),
        ),
        BenchmarkCase::SpillbackWave => make_corridor(
            Double::from_bits(TWO_HUNDREDTHS),
            Double::from_bits(ONE_PERCENT),
            &make_zeros(6),
        ),
        BenchmarkCase::MergeThroughput => make_merge(tenth, 20),
        BenchmarkCase::BusLaneImmunity => make_bus_lane(),
        BenchmarkCase::ShoulderExitWave => make_shoulder_exit(Double::one()),
        BenchmarkCase::ShoulderExitThrough => make_shoulder_exit(Double::one()),
        BenchmarkCase::FrictionThrottle => make_shoulder_exit(Double::from_bits(SEVEN_TENTHS)),
    }
}

// ── Outcomes ─────────────────────────────────────────────────────────────────

/// The vehicles are those at the end of a run of the scenario.
pub open spec fn is_outcome(s: Scenario, vehicles: Seq<VehicleView>) -> bool {
    exists|n: nat| #[trigger] ends_after(s, n, vehicles)
}

/// The run of the scenario ends after `n` events with these vehicles.
pub open spec fn ends_after(s: Scenario, n: nat, vehicles: Seq<VehicleView>) -> bool {
    let start = crate::simulation::SimView::initial(s);
    &&& forall|i: nat| i < n ==> (#[trigger] start.steps(i)).live()
    &&& n < usize::MAX ==> !start.steps(n).live()
    &&& vehicles == start.steps(n).vehicles
}

/// The scenario can be simulated: nodes stand at their ids, and no partition is
/// too fine.
pub open spec fn can_run(u: SetUp) -> bool {
    &&& forall|i: int| 0 <= i < u.nodes.len() ==> (#[trigger] u.nodes[i]).id == i
    &&& forall|l: int| 0 <= l < u.links.len() ==> (#[trigger] u.links[l]).pipe_specs.len() <= 255
}

fn simulate(scenario: Scenario, Ghost(u): Ghost<SetUp>) -> (r: Vec<Vehicle>)
    requires
        is_set_up(scenario, u),
        can_run(u),
    ensures
        is_outcome(scenario, crate::simulation::vehicle_views(r@)),
{
    proof {
        assert forall|i: int| 0 <= i < scenario.nodes@.len() implies (
        #[trigger] scenario.nodes@[i]).id == i by {
            assert(u.nodes[i] == scenario.nodes@[i]@);
        }
        assert forall|l: int| 0 <= l < scenario.links@.len() implies (
        #[trigger] scenario.links@[l])@.pipe_specs.len() <= 255 by {
            assert(u.links[l] == scenario.links@[l]@);
        }
    }
    let mut sim: Simulation = Simulation::new(scenario);
    let n: usize = sim.run();
    assert(ends_after(
        scenario,
        n as nat,
        crate::simulation::vehicle_views(sim.scenario.vehicles@),
    ));
    sim.scenario.vehicles
}

proof fn lemma_can_run(case: BenchmarkCase)
    ensures
        can_run(set_up_of(case)),
{
}

// ── Measures ─────────────────────────────────────────────────────────────────

/// No number.
pub open spec fn missing() -> Double {
    Double::from_bits(NAN_BITS)
}

/// The time at which a vehicle passed node `k` of its path.
pub open spec fn time_of(v: VehicleView, k: int) -> Double {
    if k < v.node_times.len() {
        v.node_times[k]
    } else {
        missing()
    }
}

/// The last time of a vehicle.
pub open spec fn last_time(v: VehicleView) -> Double {
    if v.node_times.len() > 0 {
        v.node_times.last()
    } else {
        missing()
    }
}

/// What a case takes from each vehicle that it looks at.
#[derive(Debug, Clone, Copy, PartialEq, Eq, Structural)]
pub enum Reading {
    /// Time at the first node.
    Entry,
    /// Time at the second node.
    Passage,
    /// Wait at the second node, against an arrival in free flow.
    Wait,
    /// Delay of a car over the whole trip, against free flow.
    CarDelay,
    /// Time of a bus for the whole trip.
    BusTrip,
    /// Time of a through vehicle on the first link.
    ThroughLink,
    /// Time of a through vehicle at the second node.
    ThroughPassage,
}

/// The vehicle takes link 1 after its first one.
pub open spec fn goes_through(v: VehicleView) -> bool {
    v.path.len() > 1 && v.path[1] == 1 && v.node_times.len() >= 2
}

/// What a reading gives for a vehicle, if it looks at it.
pub open spec fn read(r: Reading, v: VehicleView) -> Option<Double> {
    let t = v.node_times;
    match r {
        Reading::Entry => if t.len() > 0 {
            Some(t[0])
        } else {
            None
        },
        Reading::Passage => if t.len() > 1 {
            Some(t[1])
        } else {
            None
        },
        Reading::Wait => if t.len() > 1 {
            Some(
                t[1].minus(
                    t[0].plus(Double::from_bits(HUNDRED).over(Double::from_bits(TEN))),
                ).max(Double::zero()),
            )
        } else {
            None
        },
        Reading::CarDelay => if v.class_id == 0 && t.len() == 3 {
            Some(t[2].minus(v.start_time).minus(Double::from_bits(TWENTY)))
        } else {
            None
        },
        Reading::BusTrip => if v.class_id == 1 {
            Some(last_time(v).minus(time_of(v, 0)))
        } else {
            None
        },
        Reading::ThroughLink => if goes_through(v) {
            Some(t[1].minus(t[0]))
        } else {
            None
        },
        Reading::ThroughPassage => if goes_through(v) {
            Some(t[1])
        } else {
            None
        },
    }
}

/// The readings of the first `n` vehicles.
pub open spec fn readings_upto(r: Reading, vehicles: Seq<VehicleView>, n: nat) -> Seq<Double>
    decreases n,
{
    if n == 0 {
        Seq::empty()
    } else {
        crate::diagnostics::push_some(
            readings_upto(r, vehicles, (n - 1) as nat),
            read(r, vehicles[n - 1]),
        )
    }
}

pub open spec fn readings(r: Reading, vehicles: Seq<VehicleView>) -> Seq<Double> {
    readings_upto(r, vehicles, vehicles.len())
}

/// The largest of the first `n` numbers and `start`.
pub open spec fn largest_upto(start: Double, s: Seq<Double>, n: nat) -> Double
    decreases n,
{
    if n == 0 {
        start
    } else {
        largest_upto(start, s, (n - 1) as nat).max(s[n - 1])
    }
}

/// The smallest of the first `n` numbers and `start`.
pub open spec fn smallest_upto(start: Double, s: Seq<Double>, n: nat) -> Double
    decreases n,
{
    if n == 0 {
        start
    } else {
        smallest_upto(start, s, (n - 1) as nat).min(s[n - 1])
    }
}

pub open spec fn largest(start: Double, s: Seq<Double>) -> Double {
    largest_upto(start, s, s.len())
}

/// Mean rate between the first and the last of sorted times.
pub open spec fn rate_of(s: Seq<Double>) -> Double {
    if s.len() >= 2 {
        Double::from_usize(s.len() as usize).minus(Double::one()).over(s.last().minus(s[0]))
    } else {
        missing()
    }
}

/// Where cars were not held up, immunity of the buses means nothing.
pub open spec fn is_vacuous(case: BenchmarkCase, v: Seq<VehicleView>) -> bool {
    case == BenchmarkCase::BusLaneImmunity && largest(
        Double::zero(),
        readings(Reading::CarDelay, v),
    ).lt(Double::from_bits(TWO_HUNDRED))
}

/// What a case measures.
pub open spec fn measured_of(case: BenchmarkCase, v: Seq<VehicleView>) -> Double {
    let low = Double::from_bits(NEG_INFINITY);
    match case {
        BenchmarkCase::FreeFlowTransit => if v.len() > 0 {
            last_time(v[0]).minus(time_of(v[0], 0))
        } else {
            missing()
        },
        BenchmarkCase::BottleneckDischarge => largest(low, readings(Reading::Passage, v)),
        BenchmarkCase::QueueDelay => crate::diagnostics::sum_upto(
            readings(Reading::Wait, v),
            readings(Reading::Wait, v).len(),
        ),
        BenchmarkCase::SpillbackWave => {
            let entries = crate::order::in_order(readings(Reading::Entry, v));
            let passages = readings(Reading::Passage, v);
            if entries.len() > 4 {
                entries[4].minus(
                    smallest_upto(Double::from_bits(INF_BITS), passages, passages.len()),
                )
            } else {
                missing()
            }
        },
        BenchmarkCase::MergeThroughput => rate_of(
            crate::order::in_order(readings(Reading::Passage, v)),
        ),
        BenchmarkCase::BusLaneImmunity => if is_vacuous(case, v) {
            missing()
        } else {
            largest(low, readings(Reading::BusTrip, v))
        },
        BenchmarkCase::ShoulderExitWave => if v.len() > 2 {
            time_of(v[2], 0)
        } else {
            missing()
        },
        BenchmarkCase::ShoulderExitThrough => largest(low, readings(Reading::ThroughLink, v)),
        BenchmarkCase::FrictionThrottle => largest(low, readings(Reading::ThroughPassage, v)),
    }
}

/// What theory predicts.
pub open spec fn analytic_of(case: BenchmarkCase) -> Double {
    let one = Double::one();
    let ten = Double::from_bits(TEN);
    let tenth = Double::from_bits(TENTH);
    match case {
        BenchmarkCase::FreeFlowTransit => Double::from_bits(TWENTY),
        BenchmarkCase::BottleneckDischarge => Double::from_bits(HUNDRED).over(ten).plus(
            Double::from_usize(30).minus(one).over(tenth),
        ),
        BenchmarkCase::QueueDelay => one.over(tenth).minus(
            one.over(Double::from_bits(FIFTH)),
        ).times(Double::from_usize(20)).times(Double::from_usize(20).minus(one)).over(
            Double::from_bits(TWO),
        ),
        BenchmarkCase::SpillbackWave => Double::from_bits(TWENTY),
        BenchmarkCase::MergeThroughput => tenth,
        BenchmarkCase::BusLaneImmunity => Double::from_bits(TWENTY),
        BenchmarkCase::ShoulderExitWave => Double::from_bits(THIRTY),
        BenchmarkCase::ShoulderExitThrough => ten,
        BenchmarkCase::FrictionThrottle => ten.plus(
            Double::from_bits(THREE).over(Double::from_bits(SEVEN_TENTHS).times(ten)),
        ),
    }
}

fn predict(case: BenchmarkCase) -> (r: Double)
    ensures
        r == analytic_of(case),
{
    let one: Double = Double::one();
    let ten: Double = Double::from_bits(TEN);
    let tenth: Double = Double::from_bits(TENTH);
    match case {
        BenchmarkCase::FreeFlowTransit => Double::from_bits(TWENTY),
        BenchmarkCase::BottleneckDischarge => Double::from_bits(HUNDRED).over(ten).plus(
            Double::from_usize(30).minus(one).over(tenth),
        ),
        BenchmarkCase::QueueDelay => one.over(tenth).minus(
            one.over(Double::from_bits(FIFTH)),
        ).times(Double::from_usize(20)).times(Double::from_usize(20).minus(one)).over(
            Double::from_bits(TWO),
        ),
        BenchmarkCase::SpillbackWave => Double::from_bits(TWENTY),
        BenchmarkCase::MergeThroughput => tenth,
        BenchmarkCase::BusLaneImmunity => Double::from_bits(TWENTY),
        BenchmarkCase::ShoulderExitWave => Double::from_bits(THIRTY),
        BenchmarkCase::ShoulderExitThrough => ten,
        BenchmarkCase::FrictionThrottle => ten.plus(
            Double::from_bits(THREE).over(Double::from_bits(SEVEN_TENTHS).times(ten)),
        ),
    }
}

fn first_time(v: &Vehicle) -> (r: Double)
    ensures
        r == time_of(v@, 0),
{
    if v.node_times.len() > 0 {
        v.node_times[0]
    } else {
        Double::from_bits(NAN_BITS)
    }
}

fn final_time(v: &Vehicle) -> (r: Double)
    ensures
        r == last_time(v@),
{
    let n: usize = v.node_times.len();
    if n > 0 {
        v.node_times[n - 1]
    } else {
        Double::from_bits(NAN_BITS)
    }
}

fn take_reading(r: Reading, v: &Vehicle) -> (x: Option<Double>)
    ensures
        x == read(r, v@),
{
    let t: &Vec<Double> = &v.node_times;
    let through: bool = v.path.len() > 1 && v.path[1] == 1 && t.len() >= 2;
    match r {
        Reading::Entry => if t.len() > 0 {
            Some(t[0])
        } else {
            None
        },
        Reading::Passage => if t.len() > 1 {
            Some(t[1])
        } else {
            None
        },
        Reading::Wait => if t.len() > 1 {
            let free: Double = t[0].plus(Double::from_bits(HUNDRED).over(Double::from_bits(TEN)));
            Some(t[1].minus(free).max(Double::zero()))
        } else {
            None
        },
        Reading::CarDelay => if v.class_id == 0 && t.len() == 3 {
            Some(t[2].minus(v.start_time).minus(Double::from_bits(TWENTY)))
        } else {
            None
        },
        Reading::BusTrip => if v.class_id == 1 {
            Some(final_time(v).minus(first_time(v)))
        } else {
            None
        },
        Reading::ThroughLink => if through {
            Some(t[1].minus(t[0]))
        } else {
            None
        },
        Reading::ThroughPassage => if through {
            Some(t[1])
        } else {
            None
        },
    }
}

fn collect_readings(r: Reading, vehicles: &Vec<Vehicle>) -> (x: Vec<Double>)
    ensures
        x@ == readings(r, crate::simulation::vehicle_views(vehicles@)),
{
    let ghost views = crate::simulation::vehicle_views(vehicles@);
    let mut x: Vec<Double> = Vec::new();
    let mut i: usize = 0;
    assert(x@ =~= Seq::empty());
    while i < vehicles.len()
        invariant
            views == crate::simulation::vehicle_views(vehicles@),
            i <= vehicles@.len(),
            x@ == readings_upto(r, views, i as nat),
        decreases vehicles@.len() - i,
    {
        assert(views[i as int] == vehicles@[i as int]@);
        if let Some(t) = take_reading(r, &vehicles[i]) {
            x.push(t);
        }
        i = i + 1;
    }
    x
}

fn find_largest(start: Double, s: &Vec<Double>) -> (r: Double)
    ensures
        r == largest(start, s@),
{
    let mut r: Double = start;
    let mut i: usize = 0;
    while i < s.len()
        invariant
            i <= s@.len(),
            r == largest_upto(start, s@, i as nat),
        decreases s@.len() - i,
    {
        r = r.max(s[i]);
        i = i + 1;
    }
    r
}

fn find_smallest(start: Double, s: &Vec<Double>) -> (r: Double)
    ensures
        r == smallest_upto(start, s@, s@.len()),
{
    let mut r: Double = start;
    let mut i: usize = 0;
    while i < s.len()
        invariant
            i <= s@.len(),
            r == smallest_upto(start, s@, i as nat),
        decreases s@.len() - i,
    {
        r = r.min(s[i]);
        i = i + 1;
    }
    r
}

fn sum_of(s: &Vec<Double>) -> (r: Double)
    ensures
        r == crate::diagnostics::sum_upto(s@, s@.len()),
{
    let mut r: Double = Double::zero();
    let mut i: usize = 0;
    while i < s.len()
        invariant
            i <= s@.len(),
            r == crate::diagnostics::sum_upto(s@, i as nat),
        decreases s@.len() - i,
    {
        r = r.plus(s[i]);
        i = i + 1;
    }
    r
}

fn find_rate(s: &Vec<Double>) -> (r: Double)
    ensures
        r == rate_of(s@),
{
    let n: usize = s.len();
    if n >= 2 {
        Double::from_usize(n).minus(Double::one()).over(s[n - 1].minus(s[0]))
    } else {
        Double::from_bits(NAN_BITS)
    }
}

/// Measures a case on the vehicles at the end of its run; also whether it is
/// vacuous.
pub fn measure(case: BenchmarkCase, v: &Vec<Vehicle>) -> (r: (bool, Double))
    ensures
        r.0 == is_vacuous(case, crate::simulation::vehicle_views(v@)),
        r.1 == measured_of(case, crate::simulation::vehicle_views(v@)),
{
    let ghost views = crate::simulation::vehicle_views(v@);
    let low: Double = Double::from_bits(NEG_INFINITY);
    let nan: Double = Double::from_bits(NAN_BITS);
    assert(forall|i: int| 0 <= i < v@.len() ==> #[trigger] views[i] == v@[i]@);
    let measured: Double = match case {
        BenchmarkCase::FreeFlowTransit => if v.len() > 0 {
            final_time(&v[0]).minus(first_time(&v[0]))
        } else {
            nan
        },
        BenchmarkCase::BottleneckDischarge => find_largest(
            low,
            &collect_readings(Reading::Passage, v),
        ),
        BenchmarkCase::QueueDelay => sum_of(&collect_readings(Reading::Wait, v)),
        BenchmarkCase::SpillbackWave => {
            let entries: Vec<Double> = sort_doubles(&collect_readings(Reading::Entry, v));
            let passages: Vec<Double> = collect_readings(Reading::Passage, v);
            let first_exit: Double = find_smallest(Double::from_bits(INF_BITS), &passages);
            if entries.len() > 4 {
                entries[4].minus(first_exit)
            } else {
                nan
            }
        },
        BenchmarkCase::MergeThroughput => find_rate(
            &sort_doubles(&collect_readings(Reading::Passage, v)),
        ),
        BenchmarkCase::BusLaneImmunity => {
            let worst: Double = find_largest(
                Double::zero(),
                &collect_readings(Reading::CarDelay, v),
            );
            if worst.lt(Double::from_bits(TWO_HUNDRED)) {
                return (true, nan);
            }
            find_largest(low, &collect_readings(Reading::BusTrip, v))
        },
        BenchmarkCase::ShoulderExitWave => if v.len() > 2 {
            first_time(&v[2])
        } else {
            nan
        },
        BenchmarkCase::ShoulderExitThrough => find_largest(
            low,
            &collect_readings(Reading::ThroughLink, v),
        ),
        BenchmarkCase::FrictionThrottle => find_largest(
            low,
            &collect_readings(Reading::ThroughPassage, v),
        ),
    };
    (false, measured)
}

// ── The suite ────────────────────────────────────────────────────────────────

/// The result is that of a run of what the case sets up.
pub open spec fn is_result(case: BenchmarkCase, r: BenchmarkResult) -> bool {
    &&& r.case == case
    &&& r.analytic == analytic_of(case)
    &&& r.error_pct == deviation(r.analytic, r.measured)
    &&& r.status == graded(r.error_pct)
    &&& exists|s: Scenario, v: Seq<VehicleView>| #[trigger] gives(case, s, v, r)
}

/// A run of `s`, which is what the case sets up, ends with vehicles `v`, on
/// which the result was measured.
#[verifier::opaque]
pub open spec fn gives(
    case: BenchmarkCase,
    s: Scenario,
    v: Seq<VehicleView>,
    r: BenchmarkResult,
) -> bool {
    &&& is_set_up(s, set_up_of(case))
    &&& is_outcome(s, v)
    &&& r.vacuous == is_vacuous(case, v)
    &&& r.measured == measured_of(case, v)
}

/// Runs one case.
pub fn run_case(case: BenchmarkCase) -> (r: BenchmarkResult)
    ensures
        is_result(case, r),
{
    let scenario: Scenario = build(case);
    let ghost s = scenario;
    proof {
        lemma_can_run(case);
    }
    let vehicles: Vec<Vehicle> = simulate(scenario, Ghost(set_up_of(case)));
    let (vacuous, measured) = measure(case, &vehicles);
    let r: BenchmarkResult = make_result(case, vacuous, predict(case), measured);
    assert(gives(case, s, crate::simulation::vehicle_views(vehicles@), r)) by {
        reveal(gives);
    }
    r
}

/// The cases in the order in which they run.
pub open spec fn all_cases() -> Seq<BenchmarkCase> {
    seq![
        BenchmarkCase::FreeFlowTransit,
        BenchmarkCase::BottleneckDischarge,
        BenchmarkCase::QueueDelay,
        BenchmarkCase::SpillbackWave,
        BenchmarkCase::MergeThroughput,
        BenchmarkCase::BusLaneImmunity,
        BenchmarkCase::ShoulderExitWave,
        BenchmarkCase::ShoulderExitThrough,
        BenchmarkCase::FrictionThrottle,
    ]
}

/// Runs every case.
pub fn run_benchmarks() -> (r: Vec<BenchmarkResult>)
    ensures
        r@.len() == all_cases().len(),
        forall|i: int| 0 <= i < r@.len() ==> is_result(all_cases()[i], #[trigger] r@[i]),
{
    let mut r: Vec<BenchmarkResult> = Vec::new();
    r.push(run_case(BenchmarkCase::FreeFlowTransit));
    r.push(run_case(BenchmarkCase::BottleneckDischarge));
    r.push(run_case(BenchmarkCase::QueueDelay));
    r.push(run_case(BenchmarkCase::SpillbackWave));
    r.push(run_case(BenchmarkCase::MergeThroughput));
    r.push(run_case(BenchmarkCase::BusLaneImmunity));
    r.push(run_case(BenchmarkCase::ShoulderExitWave));
    r.push(run_case(BenchmarkCase::ShoulderExitThrough));
    r.push(run_case(BenchmarkCase::FrictionThrottle));
    r
}

} // verus!
