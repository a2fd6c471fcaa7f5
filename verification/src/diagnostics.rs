//! Physics-consistency diagnostics for a completed simulation.
//!
//! Three independent checks: simulated (density, flow) points against the
//! theoretical triangular diagram, conservation of flow at internal nodes, and
//! space-time trajectories.

use crate::analysis::{bin_count, compute_link_stats, LinkStats};
use crate::constants::{
    DOUBLE_MAX, HUNDRED, IDLE, KMH_PER_MS, METRES_PER_KM, SECONDS_PER_HOUR,
};
use crate::double::Double;
use crate::model::{Link, LinkID, Node, NodeID, Scenario, VehID, Vehicle, VehicleState};
use std::collections::HashMap;
use vstd::prelude::*;

verus! {

// ── Fundamental diagram ──────────────────────────────────────────────────────

#[derive(Debug, Clone, Copy, PartialEq, Eq, Structural)]
pub enum FDRegime {
    FreeFlow,
    Congested,
    /// The density exceeds the jam density: vehicles have accumulated long
    /// waiting times, and the comparison is not meaningful for this bin.
    QueueOverflow,
}

/// One simulated (density, flow) observation on a link with the theoretical
/// flow.
#[derive(Debug, Clone, Copy, PartialEq, Eq, Structural)]
pub struct FDPoint {
    pub t: Double,
    pub link_id: LinkID,
    /// veh/km, simulated.
    pub density: Double,
    /// veh/h, simulated.
    pub flow: Double,
    /// veh/h, from the triangular diagram.
    pub theoretical_flow: Double,
    /// Signed deviation in per cent: (flow - theoretical) / max(theoretical, 1).
    pub error_pct: Double,
    pub regime: FDRegime,
}

/// Fundamental-diagram parameters of one link in transport units.
#[derive(Debug, Clone, Copy, PartialEq, Eq, Structural)]
pub struct LinkFD {
    pub link_id: LinkID,
    /// Free-flow speed (km/h).
    pub u: Double,
    /// Backward wave speed (km/h).
    pub w: Double,
    /// Jam density (veh/km).
    pub kx: Double,
    /// Capacity (veh/h).
    pub c: Double,
    /// Critical density c / u (veh/km).
    pub k_crit: Double,
    pub length_km: Double,
}

/// Conservation at one internal node in one time bin.
#[derive(Debug, Clone, Copy, PartialEq, Eq, Structural)]
pub struct NodeBalance {
    pub t: Double,
    pub node_id: NodeID,
    /// veh/h, sum over incoming links.
    pub inflow: Double,
    /// veh/h, sum over outgoing links.
    pub outflow: Double,
    /// (outflow - inflow) / max(inflow, 1) in per cent. Ideal value: 0.
    pub error_pct: Double,
}

/// Time and distance from the origin at a node passage.
#[derive(Debug, Clone, Copy, PartialEq, Eq, Structural)]
pub struct TrajPoint {
    pub t: Double,
    /// Cumulative distance from the origin (km).
    pub x: Double,
}

#[derive(Debug)]
pub struct Trajectory {
    pub veh_id: VehID,
    pub origin: NodeID,
    pub destination: NodeID,
    pub path: Vec<LinkID>,
    /// One point per node passage.
    pub points: Vec<TrajPoint>,
    pub exited: bool,
}

#[derive(Debug, Clone, Copy, PartialEq, Eq, Structural)]
pub struct DiagnosticsSummary {
    pub total_vehicles: usize,
    pub exited_vehicles: usize,
    pub pct_exited: Double,
    pub pct_bins_congested: Double,
    pub fd_mean_abs_error_pct: Double,
    pub fd_max_abs_error_pct: Double,
    pub conservation_mean_abs_error_pct: Double,
    pub conservation_max_abs_error_pct: Double,
}

#[derive(Debug)]
pub struct DiagnosticsReport {
    pub fd_points: Vec<FDPoint>,
    pub links_fd: Vec<LinkFD>,
    pub node_balance: Vec<NodeBalance>,
    pub trajectories: Vec<Trajectory>,
    pub summary: DiagnosticsSummary,
}

// ── Fundamental diagram in transport units ───────────────────────────────────

/// Parameters of a triangular diagram in km/h, veh/km and veh/h.
#[derive(Debug, Clone, Copy, PartialEq, Eq, Structural)]
pub struct TransportFD {
    pub u: Double,
    pub w: Double,
    pub kx: Double,
    pub c: Double,
    pub k_crit: Double,
}

pub open spec fn spec_fd_transport(u: Double, w: Double, kx: Double, c: Double) -> TransportFD {
    let u_kmh = u.times(Double::from_bits(KMH_PER_MS));
    let c_h = c.times(Double::from_bits(SECONDS_PER_HOUR));
    TransportFD {
        u: u_kmh,
        w: w.times(Double::from_bits(KMH_PER_MS)),
        kx: kx.times(Double::from_bits(METRES_PER_KM)),
        c: c_h,
        k_crit: if u_kmh.gt(Double::zero()) {
            c_h.over(u_kmh)
        } else {
            Double::zero()
        },
    }
}

/// Converts the parameters from m/s, veh/m and veh/s.
#[verifier::when_used_as_spec(spec_fd_transport)]
pub fn fd_transport(u: Double, w: Double, kx: Double, c: Double) -> (r: TransportFD)
    ensures
        r == spec_fd_transport(u, w, kx, c),
{
    let u_kmh: Double = u.times(Double::from_bits(KMH_PER_MS));
    let c_h: Double = c.times(Double::from_bits(SECONDS_PER_HOUR));
    TransportFD {
        u: u_kmh,
        w: w.times(Double::from_bits(KMH_PER_MS)),
        kx: kx.times(Double::from_bits(METRES_PER_KM)),
        c: c_h,
        k_crit: if u_kmh.gt(Double::zero()) {
            c_h.over(u_kmh)
        } else {
            Double::zero()
        },
    }
}

impl Link {
    /// The diagram of the whole link: the jam density is given per lane, the
    /// capacity is that of the link.
    pub open spec fn spec_transport(&self) -> TransportFD {
        fd_transport(
            self.fd.u,
            self.fd.w,
            self.fd.kx.times(Double::from_u64(self.num_lanes as u64)),
            self.capacity,
        )
    }

    /// The diagram of the whole link in transport units.
    pub fn transport(&self) -> (r: TransportFD)
        ensures
            r == self.spec_transport(),
    {
        fd_transport(
            self.fd.u,
            self.fd.w,
            self.fd.kx.times(Double::from_u64(self.num_lanes as u64)),
            self.capacity,
        )
    }

    pub open spec fn link_fd(&self) -> LinkFD {
        let t = self.spec_transport();
        LinkFD {
            link_id: self.id,
            u: t.u,
            w: t.w,
            kx: t.kx,
            c: t.c,
            k_crit: t.k_crit,
            length_km: self.length.over(Double::from_bits(METRES_PER_KM)),
        }
    }
}

/// The diagram parameters of every link.
pub fn collect_links_fd(scenario: &Scenario) -> (r: Vec<LinkFD>)
    ensures
        r@ == scenario.links@.map_values(|l: Link| l.link_fd()),
{
    let mut r: Vec<LinkFD> = Vec::new();
    let mut i: usize = 0;
    while i < scenario.links.len()
        invariant
            i <= scenario.links@.len(),
            r@ == scenario.links@.take(i as int).map_values(|l: Link| l.link_fd()),
        decreases scenario.links@.len() - i,
    {
        let l: &Link = &scenario.links[i];
        let t: TransportFD = l.transport();
        r.push(
            LinkFD {
                link_id: l.id,
                u: t.u,
                w: t.w,
                kx: t.kx,
                c: t.c,
                k_crit: t.k_crit,
                length_km: l.length.over(Double::from_bits(METRES_PER_KM)),
            },
        );
        i = i + 1;
        assert(r@ =~= scenario.links@.take(i as int).map_values(|l: Link| l.link_fd()));
    }
    assert(scenario.links@.take(i as int) =~= scenario.links@);
    r
}

// ── Points on the diagram ────────────────────────────────────────────────────

impl TransportFD {
    /// The flow that the diagram predicts for a density, and the branch.
    pub open spec fn predicted(self, density: Double) -> (Double, FDRegime) {
        if density.le(self.k_crit) {
            (self.u.times(density).min(self.c), FDRegime::FreeFlow)
        } else {
            (
                self.w.times(self.kx.minus(density)).max(Double::zero()).min(self.c),
                FDRegime::Congested,
            )
        }
    }

    /// Deviation of an observed flow from the predicted one in per cent, measured
    /// against the predicted flow, but at least against 1 veh/h.
    pub open spec fn deviation(self, flow: Double, predicted: Double) -> Double {
        flow.minus(predicted).over(predicted.max(Double::one())).times(Double::from_bits(HUNDRED))
    }

    /// The observation of a bin; none where the link is idle.
    pub open spec fn observe(
        self,
        t: Double,
        link_id: LinkID,
        density: Double,
        flow: Double,
    ) -> Option<FDPoint> {
        if density.lt(Double::from_bits(IDLE)) && flow.lt(Double::from_bits(IDLE)) {
            None
        } else if density.gt(self.kx) {
            Some(
                FDPoint {
                    t,
                    link_id,
                    density,
                    flow,
                    theoretical_flow: Double::zero(),
                    error_pct: Double::zero(),
                    regime: FDRegime::QueueOverflow,
                },
            )
        } else {
            let (q, regime) = self.predicted(density);
            Some(
                FDPoint {
                    t,
                    link_id,
                    density,
                    flow,
                    theoretical_flow: q,
                    error_pct: self.deviation(flow, q),
                    regime,
                },
            )
        }
    }

    fn point(self, t: Double, link_id: LinkID, density: Double, flow: Double) -> (r: Option<
        FDPoint,
    >)
        ensures
            r == self.observe(t, link_id, density, flow),
    {
        if density.lt(Double::from_bits(IDLE)) && flow.lt(Double::from_bits(IDLE)) {
            return None;
        }
        if density.gt(self.kx) {
            return Some(
                FDPoint {
                    t,
                    link_id,
                    density,
                    flow,
                    theoretical_flow: Double::zero(),
                    error_pct: Double::zero(),
                    regime: FDRegime::QueueOverflow,
                },
            );
        }
        let (q, regime) = if density.le(self.k_crit) {
            (self.u.times(density).min(self.c), FDRegime::FreeFlow)
        } else {
            (
                self.w.times(self.kx.minus(density)).max(Double::zero()).min(self.c),
                FDRegime::Congested,
            )
        };
        let error_pct: Double = flow.minus(q).over(q.max(Double::one())).times(
            Double::from_bits(HUNDRED),
        );
        Some(FDPoint { t, link_id, density, flow, theoretical_flow: q, error_pct, regime })
    }
}

/// Statistics that cover every bin.
pub open spec fn covers_bins(stats: Map<LinkID, LinkStats>, n_bins: nat) -> bool {
    forall|id: LinkID| #[trigger]
        stats.contains_key(id) ==> stats[id].flow.values@.len() >= n_bins
            && stats[id].density.values@.len() >= n_bins
}

/// The observation of one bin of a link.
pub open spec fn fd_point_at(
    link: Link,
    stats: Map<LinkID, LinkStats>,
    start: Double,
    bin_size: Double,
    i: int,
) -> Option<FDPoint> {
    link.spec_transport().observe(
        Double::from_usize(i as usize).times(bin_size).plus(start),
        link.id,
        stats[link.id].density.values@[i],
        stats[link.id].flow.values@[i],
    )
}

/// A list with one more item, where there is one.
pub open spec fn push_some<T>(s: Seq<T>, x: Option<T>) -> Seq<T> {
    match x {
        Some(v) => s.push(v),
        None => s,
    }
}

/// The observations of the first `n` bins of a link, behind those in `acc`.
pub open spec fn fd_points_of_link(
    acc: Seq<FDPoint>,
    link: Link,
    stats: Map<LinkID, LinkStats>,
    start: Double,
    bin_size: Double,
    n: nat,
) -> Seq<FDPoint>
    decreases n,
{
    if n == 0 {
        acc
    } else {
        push_some(
            fd_points_of_link(acc, link, stats, start, bin_size, (n - 1) as nat),
            fd_point_at(link, stats, start, bin_size, n - 1),
        )
    }
}

/// The observations on the first `k` links.
pub open spec fn fd_points_upto(
    s: Scenario,
    stats: Map<LinkID, LinkStats>,
    bin_size: Double,
    n_bins: nat,
    k: nat,
) -> Seq<FDPoint>
    decreases k,
{
    if k == 0 {
        Seq::empty()
    } else {
        let acc = fd_points_upto(s, stats, bin_size, n_bins, (k - 1) as nat);
        let link = s.links@[k - 1];
        if stats.contains_key(link.id) {
            fd_points_of_link(acc, link, stats, s.start_time, bin_size, n_bins)
        } else {
            acc
        }
    }
}

/// Every bin of every link that is not idle, with the flow that its diagram
/// predicts.
pub fn compute_fd_points(
    scenario: &Scenario,
    stats: &HashMap<LinkID, LinkStats>,
    bin_size: Double,
    n_bins: usize,
) -> (points: Vec<FDPoint>)
    requires
        covers_bins(stats@, n_bins as nat),
    ensures
        points@ == fd_points_upto(
            *scenario,
            stats@,
            bin_size,
            n_bins as nat,
            scenario.links@.len(),
        ),
{
    broadcast use vstd::std_specs::hash::group_hash_axioms;

    let mut points: Vec<FDPoint> = Vec::new();
    let mut l: usize = 0;
    while l < scenario.links.len()
        invariant
            l <= scenario.links@.len(),
            covers_bins(stats@, n_bins as nat),
            points@ == fd_points_upto(*scenario, stats@, bin_size, n_bins as nat, l as nat),
        decreases scenario.links@.len() - l,
    {
        let link: &Link = &scenario.links[l];
        if let Some(s) = stats.get(&link.id) {
            assert(stats@.contains_key(link.id));
            let fd: TransportFD = link.transport();
            let ghost acc = points@;
            let mut i: usize = 0;
            while i < n_bins
                invariant
                    i <= n_bins,
                    stats@.contains_key(link.id),
                    *s == stats@[link.id],
                    covers_bins(stats@, n_bins as nat),
                    fd == link.spec_transport(),
                    points@ == fd_points_of_link(
                        acc,
                        *link,
                        stats@,
                        scenario.start_time,
                        bin_size,
                        i as nat,
                    ),
                decreases n_bins - i,
            {
                let t: Double = Double::from_usize(i).times(bin_size).plus(scenario.start_time);
                if let Some(p) = fd.point(t, link.id, s.density.values[i], s.flow.values[i]) {
                    points.push(p);
                }
                i = i + 1;
            }
        }
        l = l + 1;
    }
    points
}

// ── Sums ─────────────────────────────────────────────────────────────────────

/// Sum of the first `n` numbers, added in order.
pub open spec fn sum_upto(s: Seq<Double>, n: nat) -> Double
    decreases n,
{
    if n == 0 {
        Double::zero()
    } else {
        sum_upto(s, (n - 1) as nat).plus(s[n - 1])
    }
}

/// Arithmetic mean; zero where there is nothing.
pub open spec fn mean_of(s: Seq<Double>) -> Double {
    if s.len() == 0 {
        Double::zero()
    } else {
        sum_upto(s, s.len()).over(Double::from_usize(s.len() as usize))
    }
}

/// The largest of the first `n` numbers and zero.
pub open spec fn max_upto(s: Seq<Double>, n: nat) -> Double
    decreases n,
{
    if n == 0 {
        Double::zero()
    } else {
        max_upto(s, (n - 1) as nat).max(s[n - 1])
    }
}

/// Arithmetic mean; zero where there is nothing.
pub fn mean(values: &Vec<Double>) -> (r: Double)
    ensures
        r == mean_of(values@),
{
    if values.len() == 0 {
        return Double::zero();
    }
    let mut sum: Double = Double::zero();
    let mut i: usize = 0;
    while i < values.len()
        invariant
            i <= values@.len(),
            sum == sum_upto(values@, i as nat),
        decreases values@.len() - i,
    {
        sum = sum.plus(values[i]);
        i = i + 1;
    }
    sum.over(Double::from_usize(values.len()))
}

/// The largest number, at least zero.
pub fn largest(values: &Vec<Double>) -> (r: Double)
    ensures
        r == max_upto(values@, values@.len()),
{
    let mut m: Double = Double::zero();
    let mut i: usize = 0;
    while i < values.len()
        invariant
            i <= values@.len(),
            m == max_upto(values@, i as nat),
        decreases values@.len() - i,
    {
        m = m.max(values[i]);
        i = i + 1;
    }
    m
}

// ── Conservation at nodes ────────────────────────────────────────────────────

/// Flow over the first `k` links of a list in one bin.
pub open spec fn flow_over(
    links: Seq<LinkID>,
    stats: Map<LinkID, LinkStats>,
    i: int,
    k: nat,
) -> Double
    decreases k,
{
    if k == 0 {
        Double::zero()
    } else {
        let acc = flow_over(links, stats, i, (k - 1) as nat);
        if stats.contains_key(links[k - 1]) {
            acc.plus(stats[links[k - 1]].flow.values@[i])
        } else {
            acc
        }
    }
}

/// Shortest free-flow time over the first `k` links of a list.
pub open spec fn shortest_reach(s: Scenario, links: Seq<LinkID>, k: nat) -> Double
    decreases k,
{
    if k == 0 {
        Double::from_bits(DOUBLE_MAX)
    } else {
        let acc = shortest_reach(s, links, (k - 1) as nat);
        let l = links[k - 1];
        if l < s.links@.len() {
            acc.min(
                if s.links@[l as int].speed.gt(Double::zero()) {
                    s.links@[l as int].length.over(s.links@[l as int].speed)
                } else {
                    Double::from_bits(DOUBLE_MAX)
                },
            )
        } else {
            acc
        }
    }
}

/// Bins before the first vehicle can have passed the node.
pub open spec fn startup_bins(s: Scenario, node: Node, bin_size: Double) -> usize {
    let reach = shortest_reach(s, node.incoming_links@, node.incoming_links@.len());
    if reach.finite() {
        reach.over(bin_size).ceil().to_usize()
    } else {
        1
    }
}

/// The balance of a node in one bin; none where it is idle or not yet reached.
pub open spec fn balance_at(
    s: Scenario,
    node: Node,
    stats: Map<LinkID, LinkStats>,
    bin_size: Double,
    i: int,
) -> Option<NodeBalance> {
    let inflow = flow_over(node.incoming_links@, stats, i, node.incoming_links@.len());
    let outflow = flow_over(node.outgoing_links@, stats, i, node.outgoing_links@.len());
    if (inflow.lt(Double::from_bits(IDLE)) && outflow.lt(Double::from_bits(IDLE))) || i
        < startup_bins(s, node, bin_size) {
        None
    } else {
        Some(
            NodeBalance {
                t: Double::from_usize(i as usize).times(bin_size),
                node_id: node.id,
                inflow,
                outflow,
                error_pct: outflow.minus(inflow).over(inflow.max(Double::one())).times(
                    Double::from_bits(HUNDRED),
                ),
            },
        )
    }
}

/// The balances of a node in the first `n` bins, behind those in `acc`.
pub open spec fn balances_of_node(
    acc: Seq<NodeBalance>,
    s: Scenario,
    node: Node,
    stats: Map<LinkID, LinkStats>,
    bin_size: Double,
    n: nat,
) -> Seq<NodeBalance>
    decreases n,
{
    if n == 0 {
        acc
    } else {
        push_some(
            balances_of_node(acc, s, node, stats, bin_size, (n - 1) as nat),
            balance_at(s, node, stats, bin_size, n - 1),
        )
    }
}

/// The balances of the first `k` nodes. Boundary nodes have none.
pub open spec fn balances_upto(
    s: Scenario,
    stats: Map<LinkID, LinkStats>,
    bin_size: Double,
    n_bins: nat,
    k: nat,
) -> Seq<NodeBalance>
    decreases k,
{
    if k == 0 {
        Seq::empty()
    } else {
        let acc = balances_upto(s, stats, bin_size, n_bins, (k - 1) as nat);
        let node = s.nodes@[k - 1];
        if node.incoming_links@.len() == 0 || node.outgoing_links@.len() == 0 {
            acc
        } else {
            balances_of_node(acc, s, node, stats, bin_size, n_bins)
        }
    }
}

fn sum_flow(links: &Vec<LinkID>, stats: &HashMap<LinkID, LinkStats>, i: usize) -> (r: Double)
    requires
        covers_bins(stats@, (i + 1) as nat),
    ensures
        r == flow_over(links@, stats@, i as int, links@.len()),
{
    broadcast use vstd::std_specs::hash::group_hash_axioms;

    let mut acc: Double = Double::zero();
    let mut k: usize = 0;
    while k < links.len()
        invariant
            k <= links@.len(),
            covers_bins(stats@, (i + 1) as nat),
            acc == flow_over(links@, stats@, i as int, k as nat),
        decreases links@.len() - k,
    {
        if let Some(s) = stats.get(&links[k]) {
            assert(stats@.contains_key(links@[k as int]));
            acc = acc.plus(s.flow.values[i]);
        }
        k = k + 1;
    }
    acc
}

fn count_startup_bins(scenario: &Scenario, node: &Node, bin_size: Double) -> (n: usize)
    ensures
        n == startup_bins(*scenario, *node, bin_size),
{
    let mut reach: Double = Double::from_bits(DOUBLE_MAX);
    let mut k: usize = 0;
    while k < node.incoming_links.len()
        invariant
            k <= node.incoming_links@.len(),
            reach == shortest_reach(*scenario, node.incoming_links@, k as nat),
        decreases node.incoming_links@.len() - k,
    {
        let l: LinkID = node.incoming_links[k];
        if l < scenario.links.len() {
            let link: &Link = &scenario.links[l];
            reach = reach.min(
                if link.speed.gt(Double::zero()) {
                    link.length.over(link.speed)
                } else {
                    Double::from_bits(DOUBLE_MAX)
                },
            );
        }
        k = k + 1;
    }
    if reach.is_finite() {
        reach.over(bin_size).ceil().to_usize()
    } else {
        1
    }
}

/// Inflow against outflow of every internal node in every bin, idle bins and
/// the startup window left out.
pub fn compute_node_balance(
    scenario: &Scenario,
    stats: &HashMap<LinkID, LinkStats>,
    bin_size: Double,
    n_bins: usize,
) -> (balances: Vec<NodeBalance>)
    requires
        covers_bins(stats@, n_bins as nat),
    ensures
        balances@ == balances_upto(
            *scenario,
            stats@,
            bin_size,
            n_bins as nat,
            scenario.nodes@.len(),
        ),
{
    let mut balances: Vec<NodeBalance> = Vec::new();
    let mut n: usize = 0;
    while n < scenario.nodes.len()
        invariant
            n <= scenario.nodes@.len(),
            covers_bins(stats@, n_bins as nat),
            balances@ == balances_upto(*scenario, stats@, bin_size, n_bins as nat, n as nat),
        decreases scenario.nodes@.len() - n,
    {
        let node: &Node = &scenario.nodes[n];
        if node.incoming_links.len() > 0 && node.outgoing_links.len() > 0 {
            let startup: usize = count_startup_bins(scenario, node, bin_size);
            let ghost acc = balances@;
            let mut i: usize = 0;
            while i < n_bins
                invariant
                    i <= n_bins,
                    covers_bins(stats@, n_bins as nat),
                    startup == startup_bins(*scenario, *node, bin_size),
                    balances@ == balances_of_node(
                        acc,
                        *scenario,
                        *node,
                        stats@,
                        bin_size,
                        i as nat,
                    ),
                decreases n_bins - i,
            {
                let inflow: Double = sum_flow(&node.incoming_links, stats, i);
                let outflow: Double = sum_flow(&node.outgoing_links, stats, i);
                let idle: bool = inflow.lt(Double::from_bits(IDLE)) && outflow.lt(
                    Double::from_bits(IDLE),
                );
                if !idle && i >= startup {
                    balances.push(
                        NodeBalance {
                            t: Double::from_usize(i).times(bin_size),
                            node_id: node.id,
                            inflow,
                            outflow,
                            error_pct: outflow.minus(inflow).over(
                                inflow.max(Double::one()),
                            ).times(Double::from_bits(HUNDRED)),
                        },
                    );
                }
                i = i + 1;
            }
        }
        n = n + 1;
    }
    balances
}

// ── Trajectories ─────────────────────────────────────────────────────────────

/// Mathematical model of a [`Trajectory`].
#[verifier::ext_equal]
pub ghost struct TrajectoryView {
    pub veh_id: VehID,
    pub origin: NodeID,
    pub destination: NodeID,
    pub path: Seq<LinkID>,
    pub points: Seq<TrajPoint>,
    pub exited: bool,
}

impl View for Trajectory {
    type V = TrajectoryView;

    open spec fn view(&self) -> TrajectoryView {
        TrajectoryView {
            veh_id: self.veh_id,
            origin: self.origin,
            destination: self.destination,
            path: self.path@,
            points: self.points@,
            exited: self.exited,
        }
    }
}

/// The passages of a vehicle from the link at place `i` of its path on, behind
/// those in `points`, the last of which lies at `x`.
pub open spec fn passages_from(
    points: Seq<TrajPoint>,
    x: Double,
    v: Vehicle,
    links: Seq<Link>,
    i: nat,
) -> Seq<TrajPoint>
    decreases v.path@.len() - i,
{
    if i >= v.path@.len() || i + 1 >= v.node_times@.len() || v.path@[i as int] >= links.len() {
        points
    } else {
        let y = x.plus(links[v.path@[i as int] as int].length.over(Double::from_bits(METRES_PER_KM)));
        passages_from(
            points.push(TrajPoint { t: v.node_times@[i as int + 1], x: y }),
            y,
            v,
            links,
            i + 1,
        )
    }
}

/// The vehicle has entered the network.
pub open spec fn has_departed(v: Vehicle) -> bool {
    v.node_times@.len() > 0 && v.path@.len() > 0
}

/// The trajectory of a vehicle; none where it has passed only one node.
pub open spec fn trajectory_of(v: Vehicle, links: Seq<Link>) -> Option<TrajectoryView> {
    let points = passages_from(
        seq![TrajPoint { t: v.node_times@[0], x: Double::zero() }],
        Double::zero(),
        v,
        links,
        0,
    );
    if points.len() >= 2 {
        Some(
            TrajectoryView {
                veh_id: v.id,
                origin: v.origin,
                destination: v.destination,
                path: v.path@,
                points,
                exited: v.state == VehicleState::Exited,
            },
        )
    } else {
        None
    }
}

/// Positions of the first `n` vehicles that have entered the network.
pub open spec fn departed_upto(vehicles: Seq<Vehicle>, n: nat) -> Seq<int>
    decreases n,
{
    if n == 0 {
        Seq::empty()
    } else {
        let acc = departed_upto(vehicles, (n - 1) as nat);
        if has_departed(vehicles[n - 1]) {
            acc.push(n - 1)
        } else {
            acc
        }
    }
}

/// Distance between sampled vehicles.
pub open spec fn sample_step(n: nat, limit: nat) -> nat {
    if limit == 0 || n <= limit {
        1
    } else {
        ((n + limit - 1) / limit as int) as nat
    }
}

/// The step rounded up, and how far it reaches.
proof fn lemma_step(n: int, limit: int)
    requires
        n > limit > 0,
    ensures
        (n + limit - 1) / limit == n / limit + if n % limit == 0 {
            0int
        } else {
            1
        },
        1 <= n / limit <= n,
        n % limit != 0 ==> n / limit < n,
        ((n + limit - 1) / limit) * limit >= n,
{
    let (q, r) = (n / limit, n % limit);
    assert(n == q * limit + r && 0 <= r < limit) by {
        vstd::arithmetic::div_mod::lemma_fundamental_div_mod(n, limit);
        assert(limit * q == q * limit) by (nonlinear_arith);
    }
    assert(1 <= q) by (nonlinear_arith)
        requires
            n == q * limit + r,
            r < limit,
            n > limit,
            limit > 0,
    ;
    assert(q <= q * limit) by (nonlinear_arith)
        requires
            q >= 1,
            limit >= 1,
    ;
    if r == 0 {
        assert(n + limit - 1 == limit * q + (limit - 1)) by (nonlinear_arith)
            requires
                n == q * limit + r,
                r == 0,
        ;
        vstd::arithmetic::div_mod::lemma_fundamental_div_mod_converse(
            n + limit - 1,
            limit,
            q,
            limit - 1,
        );
    } else {
        assert(n + limit - 1 == limit * (q + 1) + (r - 1)) by (nonlinear_arith)
            requires
                n == q * limit + r,
        ;
        vstd::arithmetic::div_mod::lemma_fundamental_div_mod_converse(
            n + limit - 1,
            limit,
            q + 1,
            r - 1,
        );
        assert((q + 1) * limit == q * limit + limit) by (nonlinear_arith);
    }
}

/// Trajectories of every `step`-th vehicle of a list from place `i` on, behind
/// those in `acc`.
pub open spec fn sampled_from(
    acc: Seq<TrajectoryView>,
    s: Scenario,
    picks: Seq<int>,
    step: nat,
    i: nat,
) -> Seq<TrajectoryView>
    decreases
            if i < picks.len() {
                picks.len() - i
            } else {
                0
            },
{
    if i >= picks.len() || step == 0 {
        acc
    } else {
        sampled_from(
            push_some(acc, trajectory_of(s.vehicles@[picks[i as int]], s.links@)),
            s,
            picks,
            step,
            i + step,
        )
    }
}

/// A sample that reaches the end of the list in `m` steps holds no more than
/// `m` trajectories.
proof fn lemma_sample_size(
    acc: Seq<TrajectoryView>,
    s: Scenario,
    picks: Seq<int>,
    step: nat,
    i: nat,
    m: nat,
)
    requires
        step > 0,
        i + m * step >= picks.len(),
    ensures
        sampled_from(acc, s, picks, step, i).len() <= acc.len() + m,
    decreases m,
{
    if i < picks.len() {
        if m == 0 {
            assert(m * step == 0) by (nonlinear_arith)
                requires
                    m == 0,
            ;
        } else {
            assert((m - 1) * step == m * step - step) by (nonlinear_arith);
            lemma_sample_size(
                push_some(acc, trajectory_of(s.vehicles@[picks[i as int]], s.links@)),
                s,
                picks,
                step,
                i + step,
                (m - 1) as nat,
            );
        }
    }
}

/// No sample is larger than its limit, where there is one.
proof fn lemma_limit(s: Scenario, picks: Seq<int>, limit: nat)
    requires
        limit > 0,
    ensures
        sampled_from(Seq::empty(), s, picks, sample_step(picks.len(), limit), 0).len() <= limit,
{
    let step = sample_step(picks.len(), limit);
    if picks.len() > limit {
        lemma_step(picks.len() as int, limit as int);
        assert(limit * step == step * limit) by (nonlinear_arith);
    }
    lemma_sample_size(Seq::empty(), s, picks, step, 0, limit);
}

/// The trajectories of the first `n` vehicles, one for each vehicle that has
/// entered the network and passed a second node.
pub open spec fn traced_upto(s: Scenario, n: nat) -> Seq<TrajectoryView>
    decreases n,
{
    if n == 0 {
        Seq::empty()
    } else if has_departed(s.vehicles@[n - 1]) {
        push_some(
            traced_upto(s, (n - 1) as nat),
            trajectory_of(s.vehicles@[n - 1], s.links@),
        )
    } else {
        traced_upto(s, (n - 1) as nat)
    }
}

/// A vehicle leaves a trajectory exactly if it has entered the network on a
/// known link and passed a second node.
pub proof fn law_which_vehicles_leave_a_trajectory(v: Vehicle, links: Seq<Link>)
    requires
        has_departed(v),
    ensures
        trajectory_of(v, links) is Some <==> v.node_times@.len() >= 2 && v.path@[0] < links.len(),
{
    let first = seq![TrajPoint { t: v.node_times@[0], x: Double::zero() }];
    if v.node_times@.len() >= 2 && v.path@[0] < links.len() {
        let x = Double::zero().plus(
            links[v.path@[0] as int].length.over(Double::from_bits(METRES_PER_KM)),
        );
        lemma_passages_grow(first.push(TrajPoint { t: v.node_times@[1], x }), x, v, links, 1);
        assert(passages_from(first, Double::zero(), v, links, 0) == passages_from(
            first.push(TrajPoint { t: v.node_times@[1], x }),
            x,
            v,
            links,
            1,
        ));
    }
}

proof fn lemma_passages_grow(
    acc: Seq<TrajPoint>,
    x: Double,
    v: Vehicle,
    links: Seq<Link>,
    i: nat,
)
    ensures
        passages_from(acc, x, v, links, i).len() >= acc.len(),
    decreases v.path@.len() - i,
{
    if i < v.path@.len() && i < v.node_times@.len() - 1 && v.path@[i as int] < links.len() {
        let y = x.plus(links[v.path@[i as int] as int].length.over(Double::from_bits(METRES_PER_KM)));
        lemma_passages_grow(
            acc.push(TrajPoint { t: v.node_times@[i as int + 1], x: y }),
            y,
            v,
            links,
            i + 1,
        );
    }
}

/// Without a limit, every vehicle that has a trajectory is in the sample, once
/// and in the order of the vehicles.
pub proof fn law_no_limit_keeps_every_trajectory(s: Scenario)
    ensures
        ({
            let picks = departed_upto(s.vehicles@, s.vehicles@.len());
            sampled_from(Seq::empty(), s, picks, sample_step(picks.len(), 0), 0) == traced_upto(
                s,
                s.vehicles@.len(),
            )
        }),
{
    let n = s.vehicles@.len();
    let picks = departed_upto(s.vehicles@, n);
    lemma_unsampled(s, n);
    assert(sampled_from(traced_upto(s, n), s, picks, 1, picks.len()) == traced_upto(s, n));
}

/// Sampling each of the first vehicles in turn comes to their trajectories.
proof fn lemma_unsampled(s: Scenario, n: nat)
    requires
        n <= s.vehicles@.len(),
    ensures
        ({
            let all = departed_upto(s.vehicles@, s.vehicles@.len());
            let done = departed_upto(s.vehicles@, n).len();
            &&& done <= all.len()
            &&& sampled_from(Seq::empty(), s, all, 1, 0) == sampled_from(
                traced_upto(s, n),
                s,
                all,
                1,
                done,
            )
        }),
    decreases n,
{
    lemma_departed_prefix(s.vehicles@, n, s.vehicles@.len());
    if n > 0 {
        lemma_unsampled(s, (n - 1) as nat);
        if has_departed(s.vehicles@[n - 1]) {
            let some = departed_upto(s.vehicles@, n);
            assert(some[some.len() - 1] == n - 1);
        }
    }
}

proof fn lemma_departed_prefix(vehicles: Seq<Vehicle>, n: nat, m: nat)
    requires
        n <= m,
    ensures
        departed_upto(vehicles, n).len() <= departed_upto(vehicles, m).len(),
        forall|k: int|
            0 <= k < departed_upto(vehicles, n).len() ==> #[trigger] departed_upto(vehicles, n)[k]
                == departed_upto(vehicles, m)[k],
    decreases m,
{
    if n < m {
        lemma_departed_prefix(vehicles, n, (m - 1) as nat);
    }
}

pub open spec fn trajectory_views(t: Seq<Trajectory>) -> Seq<TrajectoryView> {
    t.map_values(|x: Trajectory| x@)
}

fn trace(v: &Vehicle, links: &Vec<Link>) -> (r: Option<Trajectory>)
    requires
        has_departed(*v),
    ensures
        match r {
            Some(t) => Some(t@) == trajectory_of(*v, links@),
            None => trajectory_of(*v, links@) is None,
        },
{
    let mut points: Vec<TrajPoint> = Vec::new();
    points.push(TrajPoint { t: v.node_times[0], x: Double::zero() });
    let mut x: Double = Double::zero();
    let mut i: usize = 0;
    assert(points@ =~= seq![TrajPoint { t: v.node_times@[0], x: Double::zero() }]);
    let ghost whole = passages_from(points@, x, *v, links@, 0);
    while i < v.path.len() && i < v.node_times.len() - 1 && v.path[i] < links.len()
        invariant
            i <= v.path@.len(),
            v.node_times@.len() > 0,
            passages_from(points@, x, *v, links@, i as nat) == whole,
        decreases v.path@.len() - i,
    {
        x = x.plus(links[v.path[i]].length.over(Double::from_bits(METRES_PER_KM)));
        points.push(TrajPoint { t: v.node_times[i + 1], x });
        i = i + 1;
    }
    assert(points@ == whole);
    if points.len() >= 2 {
        Some(
            Trajectory {
                veh_id: v.id,
                origin: v.origin,
                destination: v.destination,
                path: v.path.clone(),
                points,
                exited: v.state == VehicleState::Exited,
            },
        )
    } else {
        None
    }
}

/// Space-time trajectories of the vehicles that entered the network, sampled
/// evenly where there are more than `max_trajectories` (0 = no limit).
pub fn compute_trajectories(scenario: &Scenario, max_trajectories: usize) -> (result: Vec<
    Trajectory,
>)
    ensures
        trajectory_views(result@) == ({
            let picks = departed_upto(scenario.vehicles@, scenario.vehicles@.len());
            sampled_from(
                Seq::empty(),
                *scenario,
                picks,
                sample_step(picks.len(), max_trajectories as nat),
                0,
            )
        }),
        max_trajectories > 0 ==> result@.len() <= max_trajectories,
{
    let mut all: Vec<usize> = Vec::new();
    let mut j: usize = 0;
    while j < scenario.vehicles.len()
        invariant
            j <= scenario.vehicles@.len(),
            all@.len() == departed_upto(scenario.vehicles@, j as nat).len(),
            all@.len() <= j,
            forall|k: int|
                0 <= k < all@.len() ==> #[trigger] all@[k] == departed_upto(
                    scenario.vehicles@,
                    j as nat,
                )[k] && all@[k] < j && has_departed(scenario.vehicles@[all@[k] as int]),
        decreases scenario.vehicles@.len() - j,
    {
        let v: &Vehicle = &scenario.vehicles[j];
        if v.node_times.len() > 0 && v.path.len() > 0 {
            all.push(j);
        }
        j = j + 1;
    }
    let n: usize = all.len();
    proof {
        if max_trajectories > 0 && n > max_trajectories {
            lemma_step(n as int, max_trajectories as int);
        }
        if max_trajectories > 0 {
            lemma_limit(
                *scenario,
                departed_upto(scenario.vehicles@, scenario.vehicles@.len()),
                max_trajectories as nat,
            );
        }
    }
    let step: usize = if max_trajectories == 0 || n <= max_trajectories {
        1
    } else if n % max_trajectories == 0 {
        n / max_trajectories
    } else {
        n / max_trajectories + 1
    };
    let ghost picks = departed_upto(scenario.vehicles@, scenario.vehicles@.len());
    let mut result: Vec<Trajectory> = Vec::new();
    let mut i: usize = 0;
    let ghost whole = sampled_from(Seq::empty(), *scenario, picks, step as nat, 0);
    assert(trajectory_views(result@) =~= Seq::empty());
    while i < n
        invariant
            max_trajectories > 0 ==> whole.len() <= max_trajectories,
            n == all@.len(),
            n == picks.len(),
            step >= 1,
            picks == departed_upto(scenario.vehicles@, scenario.vehicles@.len()),
            step == sample_step(picks.len(), max_trajectories as nat),
            whole == sampled_from(Seq::empty(), *scenario, picks, step as nat, 0),
            forall|k: int|
                0 <= k < n ==> #[trigger] all@[k] == picks[k] && all@[k] < scenario.vehicles@.len()
                    && has_departed(scenario.vehicles@[all@[k] as int]),
            sampled_from(trajectory_views(result@), *scenario, picks, step as nat, i as nat)
                == whole,
        decreases n - i,
    {
        let ghost before = result@;
        let v: &Vehicle = &scenario.vehicles[all[i]];
        assert(all@[i as int] == picks[i as int]);
        match trace(v, &scenario.links) {
            Some(t) => {
                result.push(t);
                assert(trajectory_views(result@) =~= trajectory_views(before).push(t@));
            },
            None => {},
        }
        if n - i <= step {
            proof {
                assert(i + step >= n);
                assert(sampled_from(
                    trajectory_views(result@),
                    *scenario,
                    picks,
                    step as nat,
                    (i + step) as nat,
                ) == whole);
                assert(trajectory_views(result@).len() == whole.len());
            }
            return result;
        }
        i = i + step;
    }
    assert(trajectory_views(result@).len() == whole.len());
    result
}

// ── Summary ──────────────────────────────────────────────────────────────────

/// Absolute errors of the first `n` observations, queue overflow left out.
pub open spec fn fd_errors_upto(points: Seq<FDPoint>, n: nat) -> Seq<Double>
    decreases n,
{
    if n == 0 {
        Seq::empty()
    } else {
        let acc = fd_errors_upto(points, (n - 1) as nat);
        if points[n - 1].regime != FDRegime::QueueOverflow {
            acc.push(points[n - 1].error_pct.abs())
        } else {
            acc
        }
    }
}

/// Number of the first `n` observations that are not in free flow.
pub open spec fn congested_upto(points: Seq<FDPoint>, n: nat) -> nat
    decreases n,
{
    if n == 0 {
        0
    } else {
        congested_upto(points, (n - 1) as nat) + if points[n - 1].regime == FDRegime::FreeFlow {
            0nat
        } else {
            1
        }
    }
}

pub open spec fn balance_errors(balances: Seq<NodeBalance>) -> Seq<Double> {
    balances.map_values(|b: NodeBalance| b.error_pct.abs())
}

/// Number of the first `n` vehicles that have left the network.
pub open spec fn exited_upto(vehicles: Seq<Vehicle>, n: nat) -> nat
    decreases n,
{
    if n == 0 {
        0
    } else {
        exited_upto(vehicles, (n - 1) as nat) + if vehicles[n - 1].state == VehicleState::Exited {
            1nat
        } else {
            0
        }
    }
}

/// `part` of `whole` in per cent; zero of nothing.
pub open spec fn percentage(part: nat, whole: nat) -> Double {
    if whole == 0 {
        Double::zero()
    } else {
        Double::from_usize(part as usize).over(Double::from_usize(whole as usize)).times(
            Double::from_bits(HUNDRED),
        )
    }
}

fn percent(part: usize, whole: usize) -> (r: Double)
    ensures
        r == percentage(part as nat, whole as nat),
{
    if whole == 0 {
        Double::zero()
    } else {
        Double::from_usize(part).over(Double::from_usize(whole)).times(Double::from_bits(HUNDRED))
    }
}

pub open spec fn summary_of(
    s: Scenario,
    fd: Seq<FDPoint>,
    balances: Seq<NodeBalance>,
) -> DiagnosticsSummary {
    let exited = exited_upto(s.vehicles@, s.vehicles@.len());
    let errors = fd_errors_upto(fd, fd.len());
    DiagnosticsSummary {
        total_vehicles: s.vehicles@.len() as usize,
        exited_vehicles: exited as usize,
        pct_exited: percentage(exited, s.vehicles@.len()),
        pct_bins_congested: percentage(congested_upto(fd, fd.len()), fd.len()),
        fd_mean_abs_error_pct: mean_of(errors),
        fd_max_abs_error_pct: max_upto(errors, errors.len()),
        conservation_mean_abs_error_pct: mean_of(balance_errors(balances)),
        conservation_max_abs_error_pct: max_upto(balance_errors(balances), balances.len()),
    }
}

/// How many of the vehicles have left the network.
pub fn count_exited(vehicles: &Vec<Vehicle>) -> (n: usize)
    ensures
        n == exited_upto(vehicles@, vehicles@.len()),
        n <= vehicles@.len(),
{
    let mut n: usize = 0;
    let mut i: usize = 0;
    while i < vehicles.len()
        invariant
            i <= vehicles@.len(),
            n <= i,
            n == exited_upto(vehicles@, i as nat),
        decreases vehicles@.len() - i,
    {
        if vehicles[i].state == VehicleState::Exited {
            n = n + 1;
        }
        i = i + 1;
    }
    n
}

/// Shares and errors over all observations.
pub fn compute_summary(scenario: &Scenario, fd: &Vec<FDPoint>, balance: &Vec<NodeBalance>) -> (r:
    DiagnosticsSummary)
    ensures
        r == summary_of(*scenario, fd@, balance@),
{
    let exited: usize = count_exited(&scenario.vehicles);
    let mut errors: Vec<Double> = Vec::new();
    let mut congested: usize = 0;
    let mut i: usize = 0;
    while i < fd.len()
        invariant
            i <= fd@.len(),
            congested <= i,
            errors@ == fd_errors_upto(fd@, i as nat),
            congested == congested_upto(fd@, i as nat),
        decreases fd@.len() - i,
    {
        let p: FDPoint = fd[i];
        if p.regime != FDRegime::QueueOverflow {
            errors.push(p.error_pct.abs());
        }
        if p.regime != FDRegime::FreeFlow {
            congested = congested + 1;
        }
        i = i + 1;
    }
    let mut balance_errs: Vec<Double> = Vec::new();
    let mut i: usize = 0;
    while i < balance.len()
        invariant
            i <= balance@.len(),
            balance_errs@ == balance_errors(balance@).take(i as int),
        decreases balance@.len() - i,
    {
        balance_errs.push(balance[i].error_pct.abs());
        i = i + 1;
        assert(balance_errs@ =~= balance_errors(balance@).take(i as int));
    }
    assert(balance_errs@ =~= balance_errors(balance@));
    let total: usize = scenario.vehicles.len();
    DiagnosticsSummary {
        total_vehicles: total,
        exited_vehicles: exited,
        pct_exited: percent(exited, total),
        pct_bins_congested: percent(congested, fd.len()),
        fd_mean_abs_error_pct: mean(&errors),
        fd_max_abs_error_pct: largest(&errors),
        conservation_mean_abs_error_pct: mean(&balance_errs),
        conservation_max_abs_error_pct: largest(&balance_errs),
    }
}

/// Statistics of every link, as a mathematical map.
pub open spec fn stats_of(s: Scenario, bin_size: Double, stats: Map<LinkID, LinkStats>) -> bool {
    &&& forall|id: LinkID| #[trigger] stats.contains_key(id) <==> s.has_link(id)
    &&& forall|id: LinkID| #[trigger]
        stats.contains_key(id) ==> s.has_link_stats(bin_size, id, stats[id])
}

/// The report follows from statistics of the links.
pub open spec fn report_from(
    s: Scenario,
    bin_size: Double,
    max_trajectories: usize,
    stats: Map<LinkID, LinkStats>,
    r: DiagnosticsReport,
) -> bool {
    let n_bins = bin_count(s.duration, bin_size) as nat;
    let picks = departed_upto(s.vehicles@, s.vehicles@.len());
    &&& r.fd_points@ == fd_points_upto(s, stats, bin_size, n_bins, s.links@.len())
    &&& r.links_fd@ == s.links@.map_values(|l: Link| l.link_fd())
    &&& r.node_balance@ == balances_upto(s, stats, bin_size, n_bins, s.nodes@.len())
    &&& trajectory_views(r.trajectories@) == sampled_from(
        Seq::empty(),
        s,
        picks,
        sample_step(picks.len(), max_trajectories as nat),
        0,
    )
    &&& r.summary == summary_of(s, r.fd_points@, r.node_balance@)
}

/// Computes all three analyses.
pub fn run_diagnostics(scenario: &Scenario, bin_size: Double, max_trajectories: usize) -> (r:
    DiagnosticsReport)
    ensures
        exists|stats: Map<LinkID, LinkStats>|
            stats_of(*scenario, bin_size, stats) && #[trigger] report_from(
                *scenario,
                bin_size,
                max_trajectories,
                stats,
                r,
            ),
        max_trajectories > 0 ==> r.trajectories@.len() <= max_trajectories,
{
    let stats: HashMap<LinkID, LinkStats> = compute_link_stats(scenario, bin_size);
    let n_bins: usize = bin_count(scenario.duration, bin_size);
    assert(covers_bins(stats@, n_bins as nat));
    let fd_points: Vec<FDPoint> = compute_fd_points(scenario, &stats, bin_size, n_bins);
    let links_fd: Vec<LinkFD> = collect_links_fd(scenario);
    let node_balance: Vec<NodeBalance> = compute_node_balance(scenario, &stats, bin_size, n_bins);
    let trajectories: Vec<Trajectory> = compute_trajectories(scenario, max_trajectories);
    let summary: DiagnosticsSummary = compute_summary(scenario, &fd_points, &node_balance);
    let r = DiagnosticsReport { fd_points, links_fd, node_balance, trajectories, summary };
    assert(report_from(*scenario, bin_size, max_trajectories, stats@, r));
    r
}

} // verus!
