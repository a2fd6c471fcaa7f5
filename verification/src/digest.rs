//! Aggregates of a diagnostics run: travel times, per-link and per-node errors,
//! and the findings that follow from them.

use crate::constants::{
    EIGHTY, FIVE, HUNDRED, METRES_PER_KM, NINETY, NINETY_FIVE, NINETY_NINE, SECONDS_PER_HOUR,
    SEVENTY, THIRTY, TWENTY,
};
use crate::diagnostics::{
    mean, DiagnosticsReport, DiagnosticsSummary, FDPoint, FDRegime, NodeBalance,
};
use crate::double::Double;
use crate::model::{FundamentalDiagram, Link, LinkID, Node, NodeID, Scenario, VehID, Vehicle, VehicleState};
use crate::order::stable_order;
use vstd::prelude::*;
use vstd::string::StringExecFns;

verus! {

// ── Escaping ─────────────────────────────────────────────────────────────────

/// What stands for a character in XML.
pub open spec fn escaped_char(c: char) -> Seq<char> {
    if c == '&' {
        "&amp;"@
    } else if c == '"' {
        "&quot;"@
    } else if c == '\'' {
        "&apos;"@
    } else if c == '<' {
        "&lt;"@
    } else if c == '>' {
        "&gt;"@
    } else {
        seq![c]
    }
}

/// What stands for the first `n` characters of a text in XML.
pub open spec fn escaped(s: Seq<char>, n: nat) -> Seq<char>
    decreases n,
{
    if n == 0 {
        Seq::empty()
    } else {
        escaped(s, (n - 1) as nat) + escaped_char(s[n - 1])
    }
}

/// Escapes the five special characters of XML.
pub fn xe(s: &str) -> (r: String)
    ensures
        r@ == escaped(s@, s@.len()),
{
    let mut r: String = String::new();
    assert(r@ =~= Seq::empty());
    for c in it: s.chars()
        invariant
            it.seq() == s@,
            r@ == escaped(s@, it.index() as nat),
    {
        let ghost before = r@;
        if c == '&' {
            r.append("&amp;");
        } else if c == '"' {
            r.append("&quot;");
        } else if c == '\'' {
            r.append("&apos;");
        } else if c == '<' {
            r.append("&lt;");
        } else if c == '>' {
            r.append("&gt;");
        } else {
            r.push(c);
            assert(r@ =~= before + seq![c]);
        }
    }
    r
}

// ── Grades ───────────────────────────────────────────────────────────────────

/// Grade of the mean deviation from the fundamental diagram.
pub open spec fn fd_grade(mean_err: Double) -> Seq<char> {
    if mean_err.lt(Double::from_bits(FIVE)) {
        "GOOD"@
    } else if mean_err.lt(Double::from_bits(TWENTY)) {
        "ACCEPTABLE"@
    } else {
        "POOR"@
    }
}

/// Grades the mean deviation from the fundamental diagram.
pub fn fd_quality(mean_err: Double) -> (r: &'static str)
    ensures
        r@ == fd_grade(mean_err),
{
    if mean_err.lt(Double::from_bits(FIVE)) {
        "GOOD"
    } else if mean_err.lt(Double::from_bits(TWENTY)) {
        "ACCEPTABLE"
    } else {
        "POOR"
    }
}

/// Grade of the mean conservation error.
pub open spec fn conservation_grade(mean_err: Double) -> Seq<char> {
    if mean_err.lt(Double::one()) {
        "GOOD"@
    } else if mean_err.lt(Double::from_bits(FIVE)) {
        "ACCEPTABLE"@
    } else {
        "POOR"@
    }
}

/// Grades the mean conservation error.
pub fn conservation_quality(mean_err: Double) -> (r: &'static str)
    ensures
        r@ == conservation_grade(mean_err),
{
    if mean_err.lt(Double::one()) {
        "GOOD"
    } else if mean_err.lt(Double::from_bits(FIVE)) {
        "ACCEPTABLE"
    } else {
        "POOR"
    }
}

/// Grade of the share of vehicles that have left the network.
pub open spec fn exit_grade(pct_exited: Double) -> Seq<char> {
    if pct_exited.ge(Double::from_bits(NINETY_NINE)) {
        "OK"@
    } else if pct_exited.ge(Double::from_bits(NINETY)) {
        "WARN"@
    } else {
        "FAIL"@
    }
}

/// Grades the share of vehicles that have left the network.
pub fn completeness(pct_exited: Double) -> (r: &'static str)
    ensures
        r@ == exit_grade(pct_exited),
{
    if pct_exited.ge(Double::from_bits(NINETY_NINE)) {
        "OK"
    } else if pct_exited.ge(Double::from_bits(NINETY)) {
        "WARN"
    } else {
        "FAIL"
    }
}

/// The value at `p` per cent of a sorted list; zero where it is empty.
pub open spec fn percentile_of(sorted: Seq<Double>, p: Double) -> Double {
    if sorted.len() == 0 {
        Double::zero()
    } else {
        let i = p.over(Double::from_bits(HUNDRED)).times(
            Double::from_usize((sorted.len() - 1) as usize),
        ).to_usize();
        if i < sorted.len() {
            sorted[i as int]
        } else {
            sorted[sorted.len() - 1]
        }
    }
}

/// The value at `p` per cent of a sorted list; zero where it is empty.
pub fn percentile(sorted: &Vec<Double>, p: Double) -> (r: Double)
    ensures
        r == percentile_of(sorted@, p),
{
    let n: usize = sorted.len();
    if n == 0 {
        return Double::zero();
    }
    let i: usize = p.over(Double::from_bits(HUNDRED)).times(Double::from_usize(n - 1)).to_usize();
    if i < n {
        sorted[i]
    } else {
        sorted[n - 1]
    }
}

// ── Travel times ─────────────────────────────────────────────────────────────

/// Travel of one vehicle.
#[derive(Debug, Clone, Copy, PartialEq, Eq, Structural)]
pub struct VehStats {
    pub id: VehID,
    pub origin: NodeID,
    pub destination: NodeID,
    pub start_s: Double,
    pub travel_s: Double,
    pub dist_km: Double,
    pub speed_kmh: Double,
    pub exited: bool,
}

/// Kilometres over the first `k` links of a path.
pub open spec fn distance_upto(path: Seq<LinkID>, links: Seq<Link>, k: nat) -> Double
    decreases k,
{
    if k == 0 {
        Double::zero()
    } else {
        let acc = distance_upto(path, links, (k - 1) as nat);
        if path[k - 1] < links.len() {
            acc.plus(links[path[k - 1] as int].length.over(Double::from_bits(METRES_PER_KM)))
        } else {
            acc
        }
    }
}

/// Travel of a vehicle over the links that it has completed; none where it has
/// not entered the network.
pub open spec fn travel_of(v: Vehicle, links: Seq<Link>) -> Option<VehStats> {
    if !crate::diagnostics::has_departed(v) {
        None
    } else {
        let travel = v.node_times@.last().minus(v.node_times@[0]);
        let done = if v.node_times@.len() - 1 < v.path@.len() {
            (v.node_times@.len() - 1) as nat
        } else {
            v.path@.len()
        };
        let dist = distance_upto(v.path@, links, done);
        Some(
            VehStats {
                id: v.id,
                origin: v.origin,
                destination: v.destination,
                start_s: v.node_times@[0],
                travel_s: travel,
                dist_km: dist,
                speed_kmh: if travel.gt(Double::zero()) {
                    dist.over(travel).times(Double::from_bits(SECONDS_PER_HOUR))
                } else {
                    Double::zero()
                },
                exited: v.state == VehicleState::Exited,
            },
        )
    }
}

/// Travel of the first `n` vehicles.
pub open spec fn travels_upto(vehicles: Seq<Vehicle>, links: Seq<Link>, n: nat) -> Seq<VehStats>
    decreases n,
{
    if n == 0 {
        Seq::empty()
    } else {
        crate::diagnostics::push_some(
            travels_upto(vehicles, links, (n - 1) as nat),
            travel_of(vehicles[n - 1], links),
        )
    }
}

/// Travel of every vehicle that entered the network.
pub fn vehicle_travels(scenario: &Scenario) -> (r: Vec<VehStats>)
    ensures
        r@ == travels_upto(scenario.vehicles@, scenario.links@, scenario.vehicles@.len()),
{
    let mut r: Vec<VehStats> = Vec::new();
    let mut i: usize = 0;
    while i < scenario.vehicles.len()
        invariant
            i <= scenario.vehicles@.len(),
            r@ == travels_upto(scenario.vehicles@, scenario.links@, i as nat),
        decreases scenario.vehicles@.len() - i,
    {
        let v: &Vehicle = &scenario.vehicles[i];
        let n: usize = v.node_times.len();
        if n > 0 && v.path.len() > 0 {
            let start_s: Double = v.node_times[0];
            let travel_s: Double = v.node_times[n - 1].minus(start_s);
            let done: usize = if n - 1 < v.path.len() {
                n - 1
            } else {
                v.path.len()
            };
            let mut dist_km: Double = Double::zero();
            let mut k: usize = 0;
            while k < done
                invariant
                    k <= done <= v.path@.len(),
                    dist_km == distance_upto(v.path@, scenario.links@, k as nat),
                decreases done - k,
            {
                let l: LinkID = v.path[k];
                if l < scenario.links.len() {
                    dist_km = dist_km.plus(
                        scenario.links[l].length.over(Double::from_bits(METRES_PER_KM)),
                    );
                }
                k = k + 1;
            }
            r.push(
                VehStats {
                    id: v.id,
                    origin: v.origin,
                    destination: v.destination,
                    start_s,
                    travel_s,
                    dist_km,
                    speed_kmh: if travel_s.gt(Double::zero()) {
                        dist_km.over(travel_s).times(Double::from_bits(SECONDS_PER_HOUR))
                    } else {
                        Double::zero()
                    },
                    exited: v.state == VehicleState::Exited,
                },
            );
        }
        i = i + 1;
    }
    r
}

/// Travel times, and kilometres, of the first `n` vehicles that have left the
/// network.
pub open spec fn exited_times(stats: Seq<VehStats>, n: nat) -> Seq<Double>
    decreases n,
{
    if n == 0 {
        Seq::empty()
    } else {
        let acc = exited_times(stats, (n - 1) as nat);
        if stats[n - 1].exited {
            acc.push(stats[n - 1].travel_s)
        } else {
            acc
        }
    }
}

pub open spec fn exited_km(stats: Seq<VehStats>, n: nat) -> Double
    decreases n,
{
    if n == 0 {
        Double::zero()
    } else {
        let acc = exited_km(stats, (n - 1) as nat);
        if stats[n - 1].exited {
            acc.plus(stats[n - 1].dist_km)
        } else {
            acc
        }
    }
}

/// Keys by which numbers are compared.
pub open spec fn keys_of(s: Seq<Double>) -> Seq<i64> {
    s.map_values(|d: Double| d.key() as i64)
}

/// Numbers in ascending order.
pub open spec fn ascending(s: Seq<Double>) -> Seq<Double> {
    Seq::new(s.len(), |i: int| s[crate::order::origin(keys_of(s), i)])
}

/// Travel in descending order of travel time; ties keep their order.
pub open spec fn slowest_first(s: Seq<VehStats>) -> Seq<VehStats> {
    Seq::new(s.len(), |i: int| s[crate::order::origin(slowness(s), i)])
}

pub open spec fn slowness(s: Seq<VehStats>) -> Seq<i64> {
    s.map_values(|v: VehStats| -(v.travel_s.key()) as i64)
}

/// Items of the first `n` that are still in the network.
pub open spec fn unexited_upto(s: Seq<VehStats>, n: nat) -> Seq<VehStats>
    decreases n,
{
    if n == 0 {
        Seq::empty()
    } else {
        let acc = unexited_upto(s, (n - 1) as nat);
        if s[n - 1].exited {
            acc
        } else {
            acc.push(s[n - 1])
        }
    }
}

fn sort_ascending(v: &Vec<Double>) -> (r: Vec<Double>)
    ensures
        r@ == ascending(v@),
{
    let mut keys: Vec<i64> = Vec::new();
    let mut i: usize = 0;
    while i < v.len()
        invariant
            i <= v@.len(),
            keys@ == keys_of(v@).take(i as int),
        decreases v@.len() - i,
    {
        keys.push(v[i].signed_key());
        i = i + 1;
        assert(keys@ =~= keys_of(v@).take(i as int));
    }
    assert(keys@ =~= keys_of(v@));
    let order: Vec<usize> = stable_order(&keys);
    let mut r: Vec<Double> = Vec::new();
    let mut i: usize = 0;
    while i < order.len()
        invariant
            order@.len() == v@.len(),
            forall|k: int|
                0 <= k < order@.len() ==> #[trigger] order@[k] == crate::order::origin(
                    keys_of(v@),
                    k,
                ),
            forall|k: int| 0 <= k < order@.len() ==> #[trigger] order@[k] < v@.len(),
            i <= order@.len(),
            r@ == ascending(v@).take(i as int),
        decreases order@.len() - i,
    {
        r.push(v[order[i]]);
        i = i + 1;
        assert(r@ =~= ascending(v@).take(i as int));
    }
    assert(r@ =~= ascending(v@));
    r
}

fn sort_slowest_first(v: &Vec<VehStats>) -> (r: Vec<VehStats>)
    ensures
        r@ == slowest_first(v@),
{
    let mut keys: Vec<i64> = Vec::new();
    let mut i: usize = 0;
    while i < v.len()
        invariant
            i <= v@.len(),
            keys@ == slowness(v@).take(i as int),
        decreases v@.len() - i,
    {
        let k: i64 = v[i].travel_s.signed_key();
        keys.push(-k);
        i = i + 1;
        assert(keys@ =~= slowness(v@).take(i as int));
    }
    assert(keys@ =~= slowness(v@));
    let order: Vec<usize> = stable_order(&keys);
    let mut r: Vec<VehStats> = Vec::new();
    let mut i: usize = 0;
    while i < order.len()
        invariant
            order@.len() == v@.len(),
            forall|k: int|
                0 <= k < order@.len() ==> #[trigger] order@[k] == crate::order::origin(
                    slowness(v@),
                    k,
                ),
            forall|k: int| 0 <= k < order@.len() ==> #[trigger] order@[k] < v@.len(),
            i <= order@.len(),
            r@ == slowest_first(v@).take(i as int),
        decreases order@.len() - i,
    {
        r.push(v[order[i]]);
        i = i + 1;
        assert(r@ =~= slowest_first(v@).take(i as int));
    }
    assert(r@ =~= slowest_first(v@));
    r
}

/// Travel-time distribution.
#[derive(Debug)]
pub struct TravelDigest {
    /// Travel times of the vehicles that have left, ascending.
    pub times: Vec<Double>,
    pub mean_travel_s: Double,
    pub mean_speed_kmh: Double,
    /// At most twenty vehicles with the longest travel times.
    pub slowest: Vec<VehStats>,
    /// Vehicles still in the network, slowest first.
    pub unexited: Vec<VehStats>,
}

impl TravelDigest {
    /// What the distribution says of a scenario.
    pub open spec fn describes(self, s: Scenario) -> bool {
        let all = travels_upto(s.vehicles@, s.links@, s.vehicles@.len());
        let times = ascending(exited_times(all, all.len()));
        let ranked = slowest_first(all);
        &&& self.times@ == times
        &&& self.mean_travel_s == crate::diagnostics::mean_of(times)
        &&& self.mean_speed_kmh == if self.mean_travel_s.gt(Double::zero()) {
            exited_km(all, all.len()).over(Double::from_usize(times.len() as usize)).over(
                self.mean_travel_s,
            ).times(Double::from_bits(SECONDS_PER_HOUR))
        } else {
            Double::zero()
        }
        &&& self.slowest@ == if ranked.len() < 20 {
            ranked
        } else {
            ranked.take(20)
        }
        &&& self.unexited@ == unexited_upto(ranked, ranked.len())
    }
}

/// Travel-time distribution of a completed simulation.
pub fn digest_travel(scenario: &Scenario) -> (r: TravelDigest)
    ensures
        r.describes(*scenario),
{
    let all: Vec<VehStats> = vehicle_travels(scenario);
    let mut exited: Vec<Double> = Vec::new();
    let mut km: Double = Double::zero();
    let mut i: usize = 0;
    while i < all.len()
        invariant
            i <= all@.len(),
            exited@ == exited_times(all@, i as nat),
            km == exited_km(all@, i as nat),
        decreases all@.len() - i,
    {
        if all[i].exited {
            exited.push(all[i].travel_s);
            km = km.plus(all[i].dist_km);
        }
        i = i + 1;
    }
    let times: Vec<Double> = sort_ascending(&exited);
    let mean_travel_s: Double = mean(&times);
    let mean_speed_kmh: Double = if mean_travel_s.gt(Double::zero()) {
        km.over(Double::from_usize(times.len())).over(mean_travel_s).times(
            Double::from_bits(SECONDS_PER_HOUR),
        )
    } else {
        Double::zero()
    };
    let ranked: Vec<VehStats> = sort_slowest_first(&all);
    let mut slowest: Vec<VehStats> = Vec::new();
    let mut unexited: Vec<VehStats> = Vec::new();
    let mut i: usize = 0;
    while i < ranked.len()
        invariant
            i <= ranked@.len(),
            slowest@ == ranked@.take(if i < 20 {
                i as int
            } else {
                20
            }),
            unexited@ == unexited_upto(ranked@, i as nat),
        decreases ranked@.len() - i,
    {
        let v: VehStats = ranked[i];
        if i < 20 {
            slowest.push(v);
        }
        if !v.exited {
            unexited.push(v);
        }
        i = i + 1;
        assert(slowest@ =~= ranked@.take(if i < 20 {
            i as int
        } else {
            20
        }));
    }
    assert(ranked@.take(ranked@.len() as int) =~= ranked@);
    TravelDigest { times, mean_travel_s, mean_speed_kmh, slowest, unexited }
}

// ── Errors per link and node ─────────────────────────────────────────────────

/// Deviations of one link from its fundamental diagram.
#[derive(Debug, Clone, Copy, PartialEq, Eq, Structural)]
pub struct LinkAgg {
    pub free_bins: usize,
    pub cong_bins: usize,
    pub overflow_bins: usize,
    pub mean_err: Double,
    pub max_err: Double,
    /// The bin with the largest error.
    pub worst: Option<FDPoint>,
}

impl LinkAgg {
    pub open spec fn none() -> LinkAgg {
        LinkAgg {
            free_bins: 0,
            cong_bins: 0,
            overflow_bins: 0,
            mean_err: Double::zero(),
            max_err: Double::zero(),
            worst: None,
        }
    }

    /// One observation more; `mean_err` holds the sum of the errors.
    pub open spec fn with_point(self, p: FDPoint) -> LinkAgg {
        let err = p.error_pct.abs();
        match p.regime {
            FDRegime::QueueOverflow => LinkAgg {
                overflow_bins: (self.overflow_bins + 1) as usize,
                ..self
            },
            _ => LinkAgg {
                free_bins: if p.regime == FDRegime::FreeFlow {
                    (self.free_bins + 1) as usize
                } else {
                    self.free_bins
                },
                cong_bins: if p.regime == FDRegime::Congested {
                    (self.cong_bins + 1) as usize
                } else {
                    self.cong_bins
                },
                mean_err: self.mean_err.plus(err),
                max_err: if err.gt(self.max_err) {
                    err
                } else {
                    self.max_err
                },
                worst: if err.gt(self.max_err) {
                    Some(p)
                } else {
                    self.worst
                },
                ..self
            },
        }
    }

    /// Over the first `n` observations, those on link `id`; none where there is
    /// no such.
    pub open spec fn over_points(points: Seq<FDPoint>, id: LinkID, n: nat) -> Option<LinkAgg>
        decreases n,
    {
        if n == 0 {
            None
        } else {
            let acc = LinkAgg::over_points(points, id, (n - 1) as nat);
            if points[n - 1].link_id != id {
                acc
            } else {
                match acc {
                    Some(a) => Some(a.with_point(points[n - 1])),
                    None => Some(LinkAgg::none().with_point(points[n - 1])),
                }
            }
        }
    }

    /// The sum of the errors made a mean.
    pub open spec fn averaged(self) -> LinkAgg {
        let total = Double::from_usize((self.free_bins + self.cong_bins) as usize);
        if total.gt(Double::zero()) {
            LinkAgg { mean_err: self.mean_err.over(total), ..self }
        } else {
            self
        }
    }
}

pub open spec fn link_agg_of(points: Seq<FDPoint>, id: LinkID) -> Option<LinkAgg> {
    match LinkAgg::over_points(points, id, points.len()) {
        Some(a) => Some(a.averaged()),
        None => None,
    }
}

/// Deviations of one link; none where nothing was observed on it.
pub fn aggregate_link(points: &Vec<FDPoint>, id: LinkID) -> (r: Option<LinkAgg>)
    ensures
        r == link_agg_of(points@, id),
{
    let mut agg: Option<LinkAgg> = None;
    let mut i: usize = 0;
    while i < points.len()
        invariant
            i <= points@.len(),
            agg == LinkAgg::over_points(points@, id, i as nat),
            agg matches Some(a) ==> a.free_bins + a.cong_bins + a.overflow_bins <= i,
        decreases points@.len() - i,
    {
        let p: FDPoint = points[i];
        if p.link_id == id {
            let mut a: LinkAgg = match agg {
                Some(a) => a,
                None => LinkAgg {
                    free_bins: 0,
                    cong_bins: 0,
                    overflow_bins: 0,
                    mean_err: Double::zero(),
                    max_err: Double::zero(),
                    worst: None,
                },
            };
            if p.regime == FDRegime::QueueOverflow {
                a.overflow_bins = a.overflow_bins + 1;
            } else {
                if p.regime == FDRegime::FreeFlow {
                    a.free_bins = a.free_bins + 1;
                } else {
                    a.cong_bins = a.cong_bins + 1;
                }
                let err: Double = p.error_pct.abs();
                a.mean_err = a.mean_err.plus(err);
                if err.gt(a.max_err) {
                    a.max_err = err;
                    a.worst = Some(p);
                }
            }
            agg = Some(a);
        }
        i = i + 1;
    }
    match agg {
        Some(mut a) => {
            let total: Double = Double::from_usize(a.free_bins + a.cong_bins);
            if total.gt(Double::zero()) {
                a.mean_err = a.mean_err.over(total);
            }
            Some(a)
        },
        None => None,
    }
}

/// Conservation errors of one node.
#[derive(Debug, Clone, Copy, PartialEq, Eq, Structural)]
pub struct NodeAgg {
    pub bins: usize,
    pub mean_err: Double,
    pub max_err: Double,
    /// The bin with the largest error.
    pub worst: Option<NodeBalance>,
}

impl NodeAgg {
    /// Over the first `n` balances, those of node `id`; `mean_err` holds the sum
    /// of the errors.
    pub open spec fn over_balances(balances: Seq<NodeBalance>, id: NodeID, n: nat) -> Option<
        NodeAgg,
    >
        decreases n,
    {
        if n == 0 {
            None
        } else {
            let acc = NodeAgg::over_balances(balances, id, (n - 1) as nat);
            let b = balances[n - 1];
            if b.node_id != id {
                acc
            } else {
                let a = match acc {
                    Some(a) => a,
                    None => NodeAgg {
                        bins: 0,
                        mean_err: Double::zero(),
                        max_err: Double::zero(),
                        worst: None,
                    },
                };
                let err = b.error_pct.abs();
                Some(
                    NodeAgg {
                        bins: (a.bins + 1) as usize,
                        mean_err: a.mean_err.plus(err),
                        max_err: if err.gt(a.max_err) {
                            err
                        } else {
                            a.max_err
                        },
                        worst: if err.gt(a.max_err) {
                            Some(b)
                        } else {
                            a.worst
                        },
                    },
                )
            }
        }
    }
}

pub open spec fn node_agg_of(balances: Seq<NodeBalance>, id: NodeID) -> Option<NodeAgg> {
    match NodeAgg::over_balances(balances, id, balances.len()) {
        Some(a) => Some(
            NodeAgg { mean_err: a.mean_err.over(Double::from_usize(a.bins)), ..a },
        ),
        None => None,
    }
}

/// Conservation errors of one node; none where no flow was observed at it.
pub fn aggregate_node(balances: &Vec<NodeBalance>, id: NodeID) -> (r: Option<NodeAgg>)
    ensures
        r == node_agg_of(balances@, id),
{
    let mut agg: Option<NodeAgg> = None;
    let mut i: usize = 0;
    while i < balances.len()
        invariant
            i <= balances@.len(),
            agg == NodeAgg::over_balances(balances@, id, i as nat),
            agg matches Some(a) ==> a.bins <= i,
        decreases balances@.len() - i,
    {
        let b: NodeBalance = balances[i];
        if b.node_id == id {
            let mut a: NodeAgg = match agg {
                Some(a) => a,
                None => NodeAgg {
                    bins: 0,
                    mean_err: Double::zero(),
                    max_err: Double::zero(),
                    worst: None,
                },
            };
            let err: Double = b.error_pct.abs();
            a.bins = a.bins + 1;
            a.mean_err = a.mean_err.plus(err);
            if err.gt(a.max_err) {
                a.max_err = err;
                a.worst = Some(b);
            }
            agg = Some(a);
        }
        i = i + 1;
    }
    match agg {
        Some(mut a) => {
            a.mean_err = a.mean_err.over(Double::from_usize(a.bins));
            Some(a)
        },
        None => None,
    }
}

// ── Findings ─────────────────────────────────────────────────────────────────

#[derive(Debug, Clone, Copy, PartialEq, Eq, Structural)]
pub enum Severity {
    Info,
    Warning,
    Critical,
}

/// What stands out in a run.
#[derive(Debug, Clone, Copy, PartialEq, Eq, Structural)]
pub enum Finding {
    /// Less than 80 % of the vehicles left the network.
    ManyUnexited { pct_left: Double },
    /// Less than 95 % of the vehicles left the network.
    SomeUnexited { count: usize, pct_left: Double },
    FdDeviationHigh,
    FdDeviationModerate,
    FdDeviationLow,
    ConservationPoor,
    ConservationResidual,
    ConservationGood,
    CongestionHigh { pct: Double },
    CongestionNotable { pct: Double },
    /// The link with the largest single-bin deviation.
    WorstLink { link: LinkID, max_err: Double },
}

impl Finding {
    pub open spec fn spec_severity(self) -> Severity {
        match self {
            Finding::ManyUnexited { .. } => Severity::Critical,
            Finding::SomeUnexited { .. } => Severity::Warning,
            Finding::FdDeviationHigh => Severity::Warning,
            Finding::ConservationPoor => Severity::Warning,
            Finding::CongestionHigh { .. } => Severity::Warning,
            _ => Severity::Info,
        }
    }

    pub fn severity(self) -> (r: Severity)
        ensures
            r == self.spec_severity(),
    {
        match self {
            Finding::ManyUnexited { .. } => Severity::Critical,
            Finding::SomeUnexited { .. } => Severity::Warning,
            Finding::FdDeviationHigh => Severity::Warning,
            Finding::ConservationPoor => Severity::Warning,
            Finding::CongestionHigh { .. } => Severity::Warning,
            _ => Severity::Info,
        }
    }
}

/// The first of the first `n` observations with the largest deviation above
/// zero, queue overflow left out.
pub open spec fn worst_upto(points: Seq<FDPoint>, n: nat) -> Option<FDPoint>
    decreases n,
{
    if n == 0 {
        None
    } else {
        let acc = worst_upto(points, (n - 1) as nat);
        let p = points[n - 1];
        let bar = match acc {
            Some(a) => a.error_pct.abs(),
            None => Double::zero(),
        };
        if p.regime != FDRegime::QueueOverflow && p.error_pct.abs().gt(bar) {
            Some(p)
        } else {
            acc
        }
    }
}

pub open spec fn exit_finding(s: DiagnosticsSummary) -> Option<Finding> {
    let left = Double::from_bits(HUNDRED).minus(s.pct_exited);
    if s.pct_exited.lt(Double::from_bits(EIGHTY)) {
        Some(Finding::ManyUnexited { pct_left: left })
    } else if s.pct_exited.lt(Double::from_bits(NINETY_FIVE)) {
        Some(
            Finding::SomeUnexited {
                count: (s.total_vehicles - s.exited_vehicles) as usize,
                pct_left: left,
            },
        )
    } else {
        None
    }
}

pub open spec fn fd_finding(err: Double) -> Finding {
    if err.gt(Double::from_bits(TWENTY)) {
        Finding::FdDeviationHigh
    } else if err.gt(Double::from_bits(FIVE)) {
        Finding::FdDeviationModerate
    } else {
        Finding::FdDeviationLow
    }
}

pub open spec fn conservation_finding(err: Double) -> Finding {
    if err.gt(Double::from_bits(FIVE)) {
        Finding::ConservationPoor
    } else if err.gt(Double::one()) {
        Finding::ConservationResidual
    } else {
        Finding::ConservationGood
    }
}

pub open spec fn congestion_finding(pct: Double) -> Option<Finding> {
    if pct.gt(Double::from_bits(SEVENTY)) {
        Some(Finding::CongestionHigh { pct })
    } else if pct.gt(Double::from_bits(THIRTY)) {
        Some(Finding::CongestionNotable { pct })
    } else {
        None
    }
}

pub open spec fn worst_finding(points: Seq<FDPoint>) -> Option<Finding> {
    match worst_upto(points, points.len()) {
        Some(p) => if p.error_pct.abs().gt(Double::from_bits(THIRTY)) {
            Some(Finding::WorstLink { link: p.link_id, max_err: p.error_pct.abs() })
        } else {
            None
        },
        None => None,
    }
}

/// All findings, in a fixed order.
pub open spec fn findings_of(s: DiagnosticsSummary, points: Seq<FDPoint>) -> Seq<Finding> {
    let a = crate::diagnostics::push_some(Seq::empty(), exit_finding(s));
    let b = a.push(fd_finding(s.fd_mean_abs_error_pct)).push(
        conservation_finding(s.conservation_mean_abs_error_pct),
    );
    let c = crate::diagnostics::push_some(b, congestion_finding(s.pct_bins_congested));
    crate::diagnostics::push_some(c, worst_finding(points))
}

/// Where the vehicles that are left are counted, no more have left than there
/// are.
pub open spec fn countable(s: DiagnosticsSummary) -> bool {
    exit_finding(s) matches Some(Finding::SomeUnexited { .. }) ==> s.exited_vehicles
        <= s.total_vehicles
}

/// What stands out in a run.
pub fn find_anomalies(report: &DiagnosticsReport) -> (r: Vec<Finding>)
    requires
        countable(report.summary),
    ensures
        r@ == findings_of(report.summary, report.fd_points@),
{
    let s: DiagnosticsSummary = report.summary;
    let mut r: Vec<Finding> = Vec::new();
    assert(r@ =~= Seq::empty());
    let left: Double = Double::from_bits(HUNDRED).minus(s.pct_exited);
    if s.pct_exited.lt(Double::from_bits(EIGHTY)) {
        r.push(Finding::ManyUnexited { pct_left: left });
    } else if s.pct_exited.lt(Double::from_bits(NINETY_FIVE)) {
        r.push(
            Finding::SomeUnexited {
                count: s.total_vehicles - s.exited_vehicles,
                pct_left: left,
            },
        );
    }
    let fd_err: Double = s.fd_mean_abs_error_pct;
    r.push(
        if fd_err.gt(Double::from_bits(TWENTY)) {
            Finding::FdDeviationHigh
        } else if fd_err.gt(Double::from_bits(FIVE)) {
            Finding::FdDeviationModerate
        } else {
            Finding::FdDeviationLow
        },
    );
    let cons_err: Double = s.conservation_mean_abs_error_pct;
    r.push(
        if cons_err.gt(Double::from_bits(FIVE)) {
            Finding::ConservationPoor
        } else if cons_err.gt(Double::one()) {
            Finding::ConservationResidual
        } else {
            Finding::ConservationGood
        },
    );
    let pct: Double = s.pct_bins_congested;
    if pct.gt(Double::from_bits(SEVENTY)) {
        r.push(Finding::CongestionHigh { pct });
    } else if pct.gt(Double::from_bits(THIRTY)) {
        r.push(Finding::CongestionNotable { pct });
    }
    let mut worst: Option<FDPoint> = None;
    let mut i: usize = 0;
    while i < report.fd_points.len()
        invariant
            i <= report.fd_points@.len(),
            worst == worst_upto(report.fd_points@, i as nat),
        decreases report.fd_points@.len() - i,
    {
        let p: FDPoint = report.fd_points[i];
        let bar: Double = match worst {
            Some(a) => a.error_pct.abs(),
            None => Double::zero(),
        };
        if p.regime != FDRegime::QueueOverflow && p.error_pct.abs().gt(bar) {
            worst = Some(p);
        }
        i = i + 1;
    }
    if let Some(p) = worst {
        if p.error_pct.abs().gt(Double::from_bits(THIRTY)) {
            r.push(Finding::WorstLink { link: p.link_id, max_err: p.error_pct.abs() });
        }
    }
    r
}

// ── The whole digest ─────────────────────────────────────────────────────────

/// One link in a digest.
#[derive(Debug, Clone, Copy)]
pub struct LinkSection {
    pub id: LinkID,
    pub length_km: Double,
    pub fd: FundamentalDiagram,
    /// Jam density of a lane in veh/km.
    pub jam_veh_km: Double,
    /// Capacity of a lane in veh/h.
    pub capacity_veh_h: Double,
    /// Critical density c / u of a lane in veh/km; zero where there is no
    /// free-flow speed.
    pub k_crit: Double,
    /// None where nothing was observed on the link.
    pub observed: Option<LinkAgg>,
}

/// Where a node stands in the network.
#[derive(Debug, Clone, Copy, PartialEq, Eq, Structural)]
pub enum Position {
    /// No link leads to it.
    Entry,
    /// No link leads from it.
    Exit,
    Internal,
}

/// One node in a digest.
#[derive(Debug, Clone, Copy, PartialEq, Eq, Structural)]
pub struct NodeSection {
    pub id: NodeID,
    pub position: Position,
    pub incoming: usize,
    pub outgoing: usize,
    /// None where conservation does not apply, or no flow was observed.
    pub conservation: Option<NodeAgg>,
}

/// All that a report of a run says.
#[derive(Debug)]
pub struct RunDigest {
    pub internal_nodes: usize,
    pub links: Vec<LinkSection>,
    pub nodes: Vec<NodeSection>,
    pub travel: TravelDigest,
    /// Travel times that a given share of the vehicles does not exceed.
    pub percentiles: Vec<(u8, Double)>,
    pub findings: Vec<Finding>,
}

impl Link {
    pub open spec fn section(self, points: Seq<FDPoint>) -> LinkSection {
        LinkSection {
            id: self.id,
            length_km: self.length.over(Double::from_bits(METRES_PER_KM)),
            fd: self.fd,
            jam_veh_km: self.fd.kx.times(Double::from_bits(METRES_PER_KM)),
            capacity_veh_h: self.fd.c.times(Double::from_bits(SECONDS_PER_HOUR)),
            k_crit: if self.fd.u.gt(Double::zero()) {
                self.fd.c.over(self.fd.u).times(Double::from_bits(METRES_PER_KM))
            } else {
                Double::zero()
            },
            observed: link_agg_of(points, self.id),
        }
    }
}

impl Node {
    pub open spec fn position(self) -> Position {
        if self.incoming_links@.len() == 0 {
            Position::Entry
        } else if self.outgoing_links@.len() == 0 {
            Position::Exit
        } else {
            Position::Internal
        }
    }

    pub open spec fn section(self, balances: Seq<NodeBalance>) -> NodeSection {
        NodeSection {
            id: self.id,
            position: self.position(),
            incoming: self.incoming_links@.len() as usize,
            outgoing: self.outgoing_links@.len() as usize,
            conservation: if self.position() == Position::Internal {
                node_agg_of(balances, self.id)
            } else {
                None
            },
        }
    }
}

/// Internal nodes among the first `n`.
pub open spec fn internal_upto(nodes: Seq<Node>, n: nat) -> nat
    decreases n,
{
    if n == 0 {
        0
    } else {
        internal_upto(nodes, (n - 1) as nat) + if nodes[n - 1].position() == Position::Internal {
            1nat
        } else {
            0
        }
    }
}

/// The shares of which a digest gives the travel times, in per cent.
pub open spec fn shares() -> Seq<u8> {
    seq![10u8, 25u8, 50u8, 75u8, 90u8, 95u8, 99u8]
}

impl RunDigest {
    /// What the digest says of a run and the report on it.
    pub open spec fn describes(self, report: DiagnosticsReport, s: Scenario) -> bool {
        &&& self.internal_nodes == internal_upto(s.nodes@, s.nodes@.len())
        &&& self.links@ == s.links@.map_values(|l: Link| l.section(report.fd_points@))
        &&& self.nodes@ == s.nodes@.map_values(|n: Node| n.section(report.node_balance@))
        &&& self.travel.describes(s)
        &&& self.percentiles@ == shares().map_values(
            |p: u8| (p, percentile_of(self.travel.times@, Double::from_u64(p as u64))),
        )
        &&& self.findings@ == findings_of(report.summary, report.fd_points@)
    }
}

fn locate_node(node: &Node) -> (r: Position)
    ensures
        r == node.position(),
{
    if node.incoming_links.len() == 0 {
        Position::Entry
    } else if node.outgoing_links.len() == 0 {
        Position::Exit
    } else {
        Position::Internal
    }
}

fn digest_links(links: &Vec<Link>, points: &Vec<FDPoint>) -> (r: Vec<LinkSection>)
    ensures
        r@ == links@.map_values(|l: Link| l.section(points@)),
{
    let mut r: Vec<LinkSection> = Vec::new();
    let mut i: usize = 0;
    while i < links.len()
        invariant
            i <= links@.len(),
            r@.len() == i,
            forall|k: int| 0 <= k < i ==> #[trigger] r@[k] == links@[k].section(points@),
        decreases links@.len() - i,
    {
        let link: &Link = &links[i];
        let k_crit: Double = if link.fd.u.gt(Double::zero()) {
            link.fd.c.over(link.fd.u).times(Double::from_bits(METRES_PER_KM))
        } else {
            Double::zero()
        };
        r.push(
            LinkSection {
                id: link.id,
                length_km: link.length.over(Double::from_bits(METRES_PER_KM)),
                fd: link.fd,
                jam_veh_km: link.fd.kx.times(Double::from_bits(METRES_PER_KM)),
                capacity_veh_h: link.fd.c.times(Double::from_bits(SECONDS_PER_HOUR)),
                k_crit,
                observed: aggregate_link(points, link.id),
            },
        );
        i = i + 1;
    }
    assert(r@ =~= links@.map_values(|l: Link| l.section(points@)));
    r
}

fn digest_nodes(nodes: &Vec<Node>, balances: &Vec<NodeBalance>) -> (r: (usize, Vec<NodeSection>))
    ensures
        r.0 == internal_upto(nodes@, nodes@.len()),
        r.1@ == nodes@.map_values(|n: Node| n.section(balances@)),
{
    let mut internal: usize = 0;
    let mut r: Vec<NodeSection> = Vec::new();
    let mut i: usize = 0;
    while i < nodes.len()
        invariant
            i <= nodes@.len(),
            internal <= i,
            internal == internal_upto(nodes@, i as nat),
            r@.len() == i,
            forall|k: int| 0 <= k < i ==> #[trigger] r@[k] == nodes@[k].section(balances@),
        decreases nodes@.len() - i,
    {
        let node: &Node = &nodes[i];
        let position: Position = locate_node(node);
        let conservation: Option<NodeAgg> = if position == Position::Internal {
            internal = internal + 1;
            aggregate_node(balances, node.id)
        } else {
            None
        };
        r.push(
            NodeSection {
                id: node.id,
                position,
                incoming: node.incoming_links.len(),
                outgoing: node.outgoing_links.len(),
                conservation,
            },
        );
        i = i + 1;
    }
    assert(r@ =~= nodes@.map_values(|n: Node| n.section(balances@)));
    (internal, r)
}

fn digest_percentiles(times: &Vec<Double>) -> (r: Vec<(u8, Double)>)
    ensures
        r@ == shares().map_values(
            |p: u8| (p, percentile_of(times@, Double::from_u64(p as u64))),
        ),
{
    let list: Vec<u8> = vec![10, 25, 50, 75, 90, 95, 99];
    let mut r: Vec<(u8, Double)> = Vec::new();
    let mut i: usize = 0;
    assert(list@ =~= shares());
    while i < list.len()
        invariant
            list@ == shares(),
            i <= list@.len(),
            r@.len() == i,
            forall|k: int|
                0 <= k < i ==> #[trigger] r@[k] == (
                    shares()[k],
                    percentile_of(times@, Double::from_u64(shares()[k] as u64)),
                ),
        decreases list@.len() - i,
    {
        let p: u8 = list[i];
        r.push((p, percentile(times, Double::from_u64(p as u64))));
        i = i + 1;
    }
    assert(r@ =~= shares().map_values(
        |p: u8| (p, percentile_of(times@, Double::from_u64(p as u64))),
    ));
    r
}

/// All that a report of a run says, but for the series of its links.
pub fn digest_run(report: &DiagnosticsReport, scenario: &Scenario) -> (r: RunDigest)
    requires
        countable(report.summary),
    ensures
        r.describes(*report, *scenario),
{
    let (internal_nodes, nodes) = digest_nodes(&scenario.nodes, &report.node_balance);
    let travel: TravelDigest = digest_travel(scenario);
    let percentiles: Vec<(u8, Double)> = digest_percentiles(&travel.times);
    RunDigest {
        internal_nodes,
        links: digest_links(&scenario.links, &report.fd_points),
        nodes,
        travel,
        percentiles,
        findings: find_anomalies(report),
    }
}

} // verus!
