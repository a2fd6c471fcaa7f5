//! Space-time diagrams of links, by Newell's cumulative curves and Edie's
//! definitions.
//!
//! The times at which vehicles enter and leave a link, sorted, are its
//! cumulative curves. Between the ends the passage of the n-th vehicle is the
//! later of the free-flow wave from the entry and the backward wave from the
//! exit. For each cell of the grid, flow and density are the distance travelled
//! and the time spent in it over its area.

use crate::constants::{
    FIFTY, KMH_PER_MS, METRES_PER_KM, NEAR_ZERO, NEG_INFINITY, SECONDS_PER_HOUR, SIXTY, TIME_SLACK,
};
use crate::double::{whole, Double, TWO_53};
use crate::model::{Link, LinkID, PipeIdx, Scenario, Vehicle, VehicleView};
use crate::order::sort_doubles;
use vstd::prelude::*;

verus! {

/// Resolution of the grid.
#[derive(Debug, Clone, Copy)]
pub struct XTParams {
    /// Width of a cell in metres.
    pub dx_m: Double,
    /// Width of a cell in seconds.
    pub dt_s: Double,
}

impl Default for XTParams {
    fn default() -> (p: Self)
        ensures
            p.dx_m == Double::from_bits(FIFTY),
            p.dt_s == Double::from_bits(SIXTY),
    {
        XTParams { dx_m: Double::from_bits(FIFTY), dt_s: Double::from_bits(SIXTY) }
    }
}

/// The diagram of a link. `flow`, `density` and `speed` are indexed by cell
/// along the link, then by cell in time.
#[derive(Debug)]
pub struct XTDiagram {
    pub link_id: LinkID,
    /// The pipe that the diagram is of; `None` = the whole link.
    pub pipe: Option<PipeIdx>,
    /// Upstream edges of the cells, in metres from the start of the link.
    pub x_bins: Vec<Double>,
    /// Earlier edges of the cells, in absolute seconds.
    pub t_bins: Vec<Double>,
    /// End of the simulated time, in absolute seconds.
    pub t_end: Double,
    /// veh/h.
    pub flow: Vec<Vec<Double>>,
    /// veh/km.
    pub density: Vec<Vec<Double>>,
    /// km/h.
    pub speed: Vec<Vec<Double>>,
    /// Free-flow speed in km/h.
    pub u_kmh: Double,
    /// Jam density in veh/km.
    pub kx_veh_km: Double,
    /// Capacity in veh/h.
    pub capacity_veh_h: Double,
}

/// Mathematical model of an [`XTDiagram`].
#[verifier::ext_equal]
pub ghost struct XTView {
    pub link_id: LinkID,
    pub pipe: Option<PipeIdx>,
    pub x_bins: Seq<Double>,
    pub t_bins: Seq<Double>,
    pub t_end: Double,
    pub flow: Seq<Seq<Double>>,
    pub density: Seq<Seq<Double>>,
    pub speed: Seq<Seq<Double>>,
    pub u_kmh: Double,
    pub kx_veh_km: Double,
    pub capacity_veh_h: Double,
}

pub open spec fn rows(v: Seq<Vec<Double>>) -> Seq<Seq<Double>> {
    v.map_values(|r: Vec<Double>| r@)
}

impl View for XTDiagram {
    type V = XTView;

    open spec fn view(&self) -> XTView {
        XTView {
            link_id: self.link_id,
            pipe: self.pipe,
            x_bins: self.x_bins@,
            t_bins: self.t_bins@,
            t_end: self.t_end,
            flow: rows(self.flow@),
            density: rows(self.density@),
            speed: rows(self.speed@),
            u_kmh: self.u_kmh,
            kx_veh_km: self.kx_veh_km,
            capacity_veh_h: self.capacity_veh_h,
        }
    }
}

// ── Searching ────────────────────────────────────────────────────────────────

/// `a` counts as before `t`: at most `t`, or below it.
pub open spec fn counts(a: Double, t: Double, inclusive: bool) -> bool {
    if inclusive {
        a.le(t)
    } else {
        a.lt(t)
    }
}

/// Where bisection between `lo` and `hi` finds the first number that does not
/// count as before `t`.
pub open spec fn bisected(s: Seq<Double>, t: Double, inclusive: bool, lo: nat, hi: nat) -> nat
    decreases hi - lo,
{
    if lo >= hi {
        lo
    } else {
        let mid = (lo + hi) / 2;
        if counts(s[mid as int], t, inclusive) {
            bisected(s, t, inclusive, mid + 1, hi)
        } else {
            bisected(s, t, inclusive, lo, mid)
        }
    }
}

/// The number of leading numbers that count as before `t`.
pub open spec fn leading(s: Seq<Double>, t: Double, inclusive: bool) -> nat {
    bisected(s, t, inclusive, 0, s.len())
}

fn count_leading(s: &Vec<Double>, t: Double, inclusive: bool) -> (r: usize)
    ensures
        r == leading(s@, t, inclusive),
        r <= s@.len(),
{
    let mut lo: usize = 0;
    let mut hi: usize = s.len();
    while lo < hi
        invariant
            lo <= hi <= s@.len(),
            leading(s@, t, inclusive) == bisected(s@, t, inclusive, lo as nat, hi as nat),
        decreases hi - lo,
    {
        let mid: usize = lo + (hi - lo) / 2;
        assert(mid == (lo + hi) / 2);
        let before: bool = if inclusive {
            s[mid].le(t)
        } else {
            s[mid].lt(t)
        };
        if before {
            lo = mid + 1;
        } else {
            hi = mid;
        }
    }
    lo
}

// ── Grid ─────────────────────────────────────────────────────────────────────

/// Edges of cells from `x` on, behind those in `acc`: a step apart, up to a
/// limit. Where a step no longer leads on, it is the last.
pub open spec fn edges_from(
    acc: Seq<Double>,
    x: Double,
    limit: Double,
    step: Double,
) -> Seq<Double>
    decreases
            if x.lt(limit) {
                limit.key() - x.key()
            } else {
                0
            },
{
    if !x.lt(limit) {
        acc
    } else {
        let next = x.plus(step);
        if next.gt(x) {
            edges_from(acc.push(x), next, limit, step)
        } else {
            acc.push(x)
        }
    }
}

/// Edges of the cells between two ends; the last one is exactly the end.
pub open spec fn bins_of(start: Double, end: Double, step: Double) -> Seq<Double> {
    edges_from(Seq::empty(), start, end.minus(Double::from_bits(TIME_SLACK)), step).push(end)
}

/// Builds the edges of the cells between two ends.
pub fn build_bins(start: Double, end: Double, step: Double) -> (bins: Vec<Double>)
    ensures
        bins@ == bins_of(start, end, step),
        bins@.len() >= 1,
{
    let limit: Double = end.minus(Double::from_bits(TIME_SLACK));
    let ghost whole = edges_from(Seq::empty(), start, limit, step);
    let mut bins: Vec<Double> = Vec::new();
    let mut x: Double = start;
    let mut going: bool = x.lt(limit);
    assert(bins@ =~= Seq::empty());
    while going
        invariant
            going ==> x.lt(limit) && whole == edges_from(bins@, x, limit, step),
            !going ==> whole == bins@,
        decreases
                if going {
                    limit.key() - x.key() + 1
                } else {
                    0
                },
    {
        bins.push(x);
        let next: Double = x.plus(step);
        if next.gt(x) {
            x = next;
            going = x.lt(limit);
        } else {
            going = false;
        }
    }
    bins.push(end);
    bins
}

/// The cell in time that contains `t`; none before the first cell, or at or
/// after the end.
pub open spec fn bin_at(t_bins: Seq<Double>, t_end: Double, t: Double) -> Option<nat> {
    let n = leading(t_bins, t, true);
    if t_bins.len() == 0 || t.lt(t_bins[0]) || t.ge(t_end) {
        None
    } else if n == 0 {
        Some(0)
    } else {
        Some((n - 1) as nat)
    }
}

/// Finds the cell in time that contains `t_abs`.
pub fn time_bin_index(t_bins: &Vec<Double>, t_end: Double, t_abs: Double) -> (r: Option<usize>)
    ensures
        match r {
            Some(i) => bin_at(t_bins@, t_end, t_abs) == Some(i as nat) && i < t_bins@.len(),
            None => bin_at(t_bins@, t_end, t_abs) is None,
        },
{
    if t_bins.len() == 0 || t_abs.lt(t_bins[0]) || t_abs.ge(t_end) {
        return None;
    }
    let n: usize = count_leading(t_bins, t_abs, true);
    if n == 0 {
        Some(0)
    } else {
        Some(n - 1)
    }
}

// ── Cumulative curves ────────────────────────────────────────────────────────

/// The pipe is the one asked for, if one is.
pub open spec fn pipe_ok(v: VehicleView, i: int, pipe: Option<PipeIdx>) -> bool {
    pipe matches Some(p) ==> crate::analysis::pipe_taken(v, i) == p
}

/// Times at which a vehicle enters and leaves a link, over the first `k` links
/// of its path, behind those in `acc`.
pub open spec fn curves_along(
    acc: (Seq<Double>, Seq<Double>),
    v: VehicleView,
    link: LinkID,
    pipe: Option<PipeIdx>,
    t0: Double,
    k: nat,
) -> (Seq<Double>, Seq<Double>)
    decreases k,
{
    if k == 0 {
        acc
    } else {
        let (a, b) = curves_along(acc, v, link, pipe, t0, (k - 1) as nat);
        let i = k - 1;
        if v.path[i] == link && pipe_ok(v, i, pipe) && i + 1 < v.node_times.len() {
            (a.push(v.node_times[i].minus(t0)), b.push(v.node_times[i + 1].minus(t0)))
        } else {
            (a, b)
        }
    }
}

/// The same over the first `n` vehicles.
pub open spec fn curves_upto(
    vehicles: Seq<VehicleView>,
    link: LinkID,
    pipe: Option<PipeIdx>,
    t0: Double,
    n: nat,
) -> (Seq<Double>, Seq<Double>)
    decreases n,
{
    if n == 0 {
        (Seq::empty(), Seq::empty())
    } else {
        let v = vehicles[n - 1];
        curves_along(
            curves_upto(vehicles, link, pipe, t0, (n - 1) as nat),
            v,
            link,
            pipe,
            t0,
            v.path.len(),
        )
    }
}

/// Sorted entry and exit times of a link, from the start of the simulated time:
/// the n-th vehicle to enter is the n-th to leave.
pub open spec fn curves_of(s: Scenario, link: LinkID, pipe: Option<PipeIdx>) -> (
    Seq<Double>,
    Seq<Double>,
) {
    let v = crate::simulation::vehicle_views(s.vehicles@);
    let (a, b) = curves_upto(v, link, pipe, s.start_time, v.len());
    (crate::order::in_order(a), crate::order::in_order(b))
}

/// Collects the sorted entry and exit times of a link.
pub fn collect_link_cvcs(scenario: &Scenario, link_id: LinkID, pipe: Option<PipeIdx>) -> (r: (
    Vec<Double>,
    Vec<Double>,
))
    ensures
        (r.0@, r.1@) == curves_of(*scenario, link_id, pipe),
        r.0@.len() == r.1@.len(),
{
    let ghost views = crate::simulation::vehicle_views(scenario.vehicles@);
    let t0: Double = scenario.start_time;
    let mut entries: Vec<Double> = Vec::new();
    let mut exits: Vec<Double> = Vec::new();
    let mut j: usize = 0;
    assert(entries@ =~= Seq::empty());
    assert(exits@ =~= Seq::empty());
    while j < scenario.vehicles.len()
        invariant
            views == crate::simulation::vehicle_views(scenario.vehicles@),
            j <= scenario.vehicles@.len(),
            entries@.len() == exits@.len(),
            (entries@, exits@) == curves_upto(views, link_id, pipe, t0, j as nat),
        decreases scenario.vehicles@.len() - j,
    {
        let veh: &Vehicle = &scenario.vehicles[j];
        let ghost v = veh@;
        assert(views[j as int] == v);
        let ghost acc = (entries@, exits@);
        let n: usize = veh.node_times.len();
        let mut i: usize = 0;
        while i < veh.path.len()
            invariant
                v == veh@,
                n == v.node_times.len(),
                i <= v.path.len(),
                entries@.len() == exits@.len(),
                (entries@, exits@) == curves_along(acc, v, link_id, pipe, t0, i as nat),
            decreases v.path.len() - i,
        {
            let taken: PipeIdx = if i < veh.pipes_taken.len() {
                veh.pipes_taken[i]
            } else {
                0
            };
            let ok: bool = match pipe {
                Some(p) => taken == p,
                None => true,
            };
            if veh.path[i] == link_id && ok && n > 0 && i < n - 1 {
                entries.push(veh.node_times[i].minus(t0));
                exits.push(veh.node_times[i + 1].minus(t0));
            }
            i = i + 1;
        }
        j = j + 1;
    }
    (sort_doubles(&entries), sort_doubles(&exits))
}

/// Place, among the exits, of the vehicle whose backward wave holds vehicle `i`.
pub open spec fn wave_place(i: nat, n: nat, shift: Double) -> Double {
    Double::from_usize(i as usize).plus(Double::one()).minus(shift).max(Double::zero()).min(
        Double::from_usize(n as usize),
    )
}

/// A place held between the first and the last of `n`.
pub open spec fn held(lo: nat, n: nat) -> nat {
    if lo < 1 {
        1
    } else if lo > n {
        n
    } else {
        lo
    }
}

/// The supply at a place among the exits: interpolated between neighbours, and
/// none before the first.
pub open spec fn supply_at(cvc_out: Seq<Double>, place: Double) -> Double {
    if place.lt(Double::one()) {
        Double::from_bits(NEG_INFINITY)
    } else {
        let lo = held(place.floor().to_usize() as nat, cvc_out.len());
        let frac = place.minus(Double::from_usize(lo as usize));
        let t_lo = cvc_out[lo - 1];
        let t_hi = if lo < cvc_out.len() {
            cvc_out[lo as int]
        } else {
            t_lo
        };
        t_lo.plus(frac.times(t_hi.minus(t_lo)))
    }
}

/// A stretch of road as waves see it.
#[derive(Debug, Clone, Copy)]
pub struct Stretch {
    /// Length in metres.
    pub length: Double,
    /// Free-flow speed in m/s.
    pub u: Double,
    /// Speed of backward waves in m/s.
    pub w: Double,
    /// Jam density in veh/m over all its lanes.
    pub kx: Double,
}

/// Passage of vehicle `i` at `x` between the ends: the later of demand and
/// supply.
pub open spec fn passage(
    cvc_in: Seq<Double>,
    cvc_out: Seq<Double>,
    x: Double,
    road: Stretch,
    i: int,
) -> Double {
    let rest = road.length.minus(x);
    let demand = cvc_in[i].plus(x.over(road.u));
    let place = wave_place(i as nat, cvc_in.len(), road.kx.times(rest));
    demand.max(supply_at(cvc_out, place).plus(rest.over(road.w)))
}

/// The cumulative curve at `x`. At the ends it is that of the end.
pub open spec fn curve_at(
    cvc_in: Seq<Double>,
    cvc_out: Seq<Double>,
    x: Double,
    road: Stretch,
) -> Seq<Double> {
    if x.lt(Double::from_bits(TIME_SLACK)) {
        cvc_in
    } else if x.minus(road.length).abs().lt(Double::from_bits(TIME_SLACK)) {
        cvc_out
    } else {
        Seq::new(cvc_in.len(), |i: int| passage(cvc_in, cvc_out, x, road, i))
    }
}

fn compute_supply(cvc_out: &Vec<Double>, place: Double) -> (r: Double)
    requires
        cvc_out@.len() > 0,
    ensures
        r == supply_at(cvc_out@, place),
{
    if place.lt(Double::one()) {
        return Double::from_bits(NEG_INFINITY);
    }
    let n: usize = cvc_out.len();
    let at: usize = place.floor().to_usize();
    let lo: usize = if at < 1 {
        1
    } else if at > n {
        n
    } else {
        at
    };
    let frac: Double = place.minus(Double::from_usize(lo));
    let t_lo: Double = cvc_out[lo - 1];
    let t_hi: Double = if lo < n {
        cvc_out[lo]
    } else {
        t_lo
    };
    t_lo.plus(frac.times(t_hi.minus(t_lo)))
}

/// The cumulative curve at `x`, by the later of demand and supply.
pub fn cvc_at_x(cvc_in: &Vec<Double>, cvc_out: &Vec<Double>, x: Double, road: &Stretch) -> (r: Vec<
    Double,
>)
    requires
        cvc_in@.len() == cvc_out@.len(),
    ensures
        r@ == curve_at(cvc_in@, cvc_out@, x, *road),
        r@.len() == cvc_in@.len(),
{
    if x.lt(Double::from_bits(TIME_SLACK)) {
        return cvc_in.clone();
    }
    if x.minus(road.length).abs().lt(Double::from_bits(TIME_SLACK)) {
        return cvc_out.clone();
    }
    let n: usize = cvc_in.len();
    let rest: Double = road.length.minus(x);
    let shift: Double = road.kx.times(rest);
    let t_back: Double = rest.over(road.w);
    let ghost whole = Seq::new(n as nat, |i: int| passage(cvc_in@, cvc_out@, x, *road, i));
    let mut r: Vec<Double> = Vec::new();
    let mut i: usize = 0;
    while i < n
        invariant
            n == cvc_in@.len(),
            n == cvc_out@.len(),
            i <= n,
            rest == road.length.minus(x),
            shift == road.kx.times(rest),
            t_back == rest.over(road.w),
            whole == Seq::new(n as nat, |i: int| passage(cvc_in@, cvc_out@, x, *road, i)),
            r@ == whole.take(i as int),
        decreases n - i,
    {
        let demand: Double = cvc_in[i].plus(x.over(road.u));
        let place: Double = Double::from_usize(i).plus(Double::one()).minus(shift).max(
            Double::zero(),
        ).min(Double::from_usize(n));
        let supply: Double = compute_supply(cvc_out, place);
        r.push(demand.max(supply.plus(t_back)));
        i = i + 1;
        assert(r@ =~= whole.take(i as int));
    }
    assert(r@ =~= whole);
    r
}

// ── Cells ────────────────────────────────────────────────────────────────────

/// Distance travelled and time spent in a cell by one vehicle, added to those
/// of others.
pub open spec fn with_presence(
    acc: (Double, Double),
    t_in: Double,
    t_out: Double,
    t_start: Double,
    t_end: Double,
    dx: Double,
) -> (Double, Double) {
    let travel = t_out.minus(t_in);
    let from = t_in.max(t_start);
    let until = t_out.min(t_end);
    if travel.le(Double::zero()) || !until.gt(from) {
        acc
    } else {
        let presence = until.minus(from);
        (
            acc.0.plus(dx.over(travel).times(presence)),
            acc.1.plus(presence),
        )
    }
}

/// The sums over the vehicles from `from` to `n`.
pub open spec fn edie_upto(
    up: Seq<Double>,
    down: Seq<Double>,
    t_start: Double,
    t_end: Double,
    dx: Double,
    from: nat,
    n: nat,
) -> (Double, Double)
    decreases n,
{
    if n <= from {
        (Double::zero(), Double::zero())
    } else {
        with_presence(
            edie_upto(up, down, t_start, t_end, dx, from, (n - 1) as nat),
            up[n - 1],
            down[n - 1],
            t_start,
            t_end,
            dx,
        )
    }
}

/// Distance travelled and time spent in a cell: over the vehicles that pass its
/// upstream edge before its end and its downstream edge after its start.
pub open spec fn edie_of(
    up: Seq<Double>,
    down: Seq<Double>,
    t_start: Double,
    t_end: Double,
    dx: Double,
) -> (Double, Double) {
    edie_upto(
        up,
        down,
        t_start,
        t_end,
        dx,
        leading(down, t_start, true),
        leading(up, t_end, false),
    )
}

/// Computes the distance travelled and the time spent in a cell.
pub fn edie_cell(
    cvc_up: &Vec<Double>,
    cvc_down: &Vec<Double>,
    t_start: Double,
    t_end: Double,
    dx_m: Double,
) -> (r: (Double, Double))
    requires
        cvc_up@.len() == cvc_down@.len(),
    ensures
        r == edie_of(cvc_up@, cvc_down@, t_start, t_end, dx_m),
{
    let n1: usize = count_leading(cvc_up, t_end, false);
    let n2: usize = count_leading(cvc_down, t_start, true);
    let mut dt: Double = Double::zero();
    let mut pt: Double = Double::zero();
    if n2 >= n1 {
        return (dt, pt);
    }
    let mut i: usize = n2;
    while i < n1
        invariant
            n2 <= i <= n1,
            n1 <= cvc_up@.len(),
            cvc_up@.len() == cvc_down@.len(),
            (dt, pt) == edie_upto(
                cvc_up@,
                cvc_down@,
                t_start,
                t_end,
                dx_m,
                n2 as nat,
                i as nat,
            ),
        decreases n1 - i,
    {
        let t_in: Double = cvc_up[i];
        let t_out: Double = cvc_down[i];
        let travel: Double = t_out.minus(t_in);
        if !travel.le(Double::zero()) {
            let from: Double = t_in.max(t_start);
            let until: Double = t_out.min(t_end);
            if until.gt(from) {
                let presence: Double = until.minus(from);
                pt = pt.plus(presence);
                dt = dt.plus(dx_m.over(travel).times(presence));
            }
        }
        i = i + 1;
    }
    (dt, pt)
}

/// Flow, density and speed of a cell from its sums. An empty cell has the
/// free-flow speed.
pub open spec fn cell_of(sums: (Double, Double), area: Double, free: Double) -> (
    Double,
    Double,
    Double,
) {
    if sums.1.lt(Double::from_bits(NEAR_ZERO)) {
        (Double::zero(), Double::zero(), free)
    } else {
        let q = sums.0.over(area);
        let k = sums.1.over(area);
        (
            q.times(Double::from_bits(SECONDS_PER_HOUR)),
            k.times(Double::from_bits(METRES_PER_KM)),
            if k.gt(Double::from_bits(TIME_SLACK)) {
                q.over(k).times(Double::from_bits(KMH_PER_MS))
            } else {
                free
            },
        )
    }
}

fn compute_cell(sums: (Double, Double), area: Double, free: Double) -> (r: (
    Double,
    Double,
    Double,
))
    ensures
        r == cell_of(sums, area, free),
{
    if sums.1.lt(Double::from_bits(NEAR_ZERO)) {
        return (Double::zero(), Double::zero(), free);
    }
    let q: Double = sums.0.over(area);
    let k: Double = sums.1.over(area);
    let speed: Double = if k.gt(Double::from_bits(TIME_SLACK)) {
        q.over(k).times(Double::from_bits(KMH_PER_MS))
    } else {
        free
    };
    (
        q.times(Double::from_bits(SECONDS_PER_HOUR)),
        k.times(Double::from_bits(METRES_PER_KM)),
        speed,
    )
}

// ── Diagrams ─────────────────────────────────────────────────────────────────

/// The inputs of a diagram.
#[verifier::ext_equal]
pub ghost struct GridView {
    pub x_edges: Seq<Double>,
    pub t_edges: Seq<Double>,
    pub cvc_in: Seq<Double>,
    pub cvc_out: Seq<Double>,
    pub road: Stretch,
    pub params: XTParams,
}

impl GridView {
    /// Cell `ti` in time of cell `xi` along the link.
    pub open spec fn cell(self, xi: int, ti: int) -> (Double, Double, Double) {
        cell_of(
            edie_of(
                curve_at(self.cvc_in, self.cvc_out, self.x_edges[xi], self.road),
                curve_at(self.cvc_in, self.cvc_out, self.x_edges[xi + 1], self.road),
                self.t_edges[ti],
                self.t_edges[ti + 1],
                self.params.dx_m,
            ),
            self.params.dx_m.times(self.params.dt_s),
            self.road.u.times(Double::from_bits(KMH_PER_MS)),
        )
    }

    pub open spec fn nx(self) -> nat {
        (self.x_edges.len() - 1) as nat
    }

    pub open spec fn nt(self) -> nat {
        (self.t_edges.len() - 1) as nat
    }

    pub open spec fn flow_row(self, xi: int) -> Seq<Double> {
        Seq::new(self.nt(), |ti: int| self.cell(xi, ti).0)
    }

    pub open spec fn density_row(self, xi: int) -> Seq<Double> {
        Seq::new(self.nt(), |ti: int| self.cell(xi, ti).1)
    }

    pub open spec fn speed_row(self, xi: int) -> Seq<Double> {
        Seq::new(self.nt(), |ti: int| self.cell(xi, ti).2)
    }

    /// The diagram over the grid.
    pub open spec fn diagram(
        self,
        link_id: LinkID,
        pipe: Option<PipeIdx>,
        capacity: Double,
        start: Double,
        t_end: Double,
    ) -> XTView {
        XTView {
            link_id,
            pipe,
            x_bins: self.x_edges.drop_last(),
            t_bins: self.t_edges.drop_last().map_values(|t: Double| t.plus(start)),
            t_end,
            flow: Seq::new(self.nx(), |xi: int| self.flow_row(xi)),
            density: Seq::new(self.nx(), |xi: int| self.density_row(xi)),
            speed: Seq::new(self.nx(), |xi: int| self.speed_row(xi)),
            u_kmh: self.road.u.times(Double::from_bits(KMH_PER_MS)),
            kx_veh_km: self.road.kx.times(Double::from_bits(METRES_PER_KM)),
            capacity_veh_h: capacity.times(Double::from_bits(SECONDS_PER_HOUR)),
        }
    }
}

/// The diagram of a link, or of one of its pipes, with the lanes and the
/// capacity that the vehicles share.
pub open spec fn diagram_of(
    s: Scenario,
    link_id: LinkID,
    pipe: Option<PipeIdx>,
    lanes: u8,
    capacity: Double,
    params: XTParams,
) -> XTView {
    let link = s.links@[link_id as int];
    let (cvc_in, cvc_out) = curves_of(s, link_id, pipe);
    (GridView {
        x_edges: bins_of(Double::zero(), link.length, params.dx_m),
        t_edges: bins_of(Double::zero(), s.duration, params.dt_s),
        cvc_in,
        cvc_out,
        road: Stretch {
            length: link.length,
            u: link.fd.u,
            w: link.fd.w,
            kx: link.fd.kx.times(Double::from_u64(lanes as u64)),
        },
        params,
    }).diagram(link_id, pipe, capacity, s.start_time, s.start_time.plus(s.duration))
}

/// The diagram of a whole link.
pub open spec fn link_diagram(s: Scenario, link_id: LinkID, params: XTParams) -> XTView {
    let link = s.links@[link_id as int];
    diagram_of(s, link_id, None, link.num_lanes, link.capacity, params)
}

/// The diagram of a pipe; of one that does not exist, with the lanes and the
/// capacity of the link.
pub open spec fn pipe_diagram(
    s: Scenario,
    link_id: LinkID,
    pipe: PipeIdx,
    params: XTParams,
) -> XTView {
    let link = s.links@[link_id as int];
    if (pipe as int) < link.pipes@.len() {
        let p = link.pipes@[pipe as int];
        diagram_of(s, link_id, Some(pipe), p.lanes, p.capacity, params)
    } else {
        diagram_of(s, link_id, Some(pipe), link.num_lanes, link.capacity, params)
    }
}

/// Cells of one row: flow, density and speed.
fn compute_row(
    up: &Vec<Double>,
    down: &Vec<Double>,
    t_edges: &Vec<Double>,
    params: &XTParams,
    free: Double,
) -> (r: (Vec<Double>, Vec<Double>, Vec<Double>))
    requires
        up@.len() == down@.len(),
        t_edges@.len() >= 1,
    ensures
        ({
            let n = (t_edges@.len() - 1) as nat;
            let area = params.dx_m.times(params.dt_s);
            &&& r.0@.len() == n
            &&& r.1@.len() == n
            &&& r.2@.len() == n
            &&& forall|i: int|
                0 <= i < n ==> (#[trigger] r.0@[i], r.1@[i], r.2@[i]) == cell_of(
                    edie_of(up@, down@, t_edges@[i], t_edges@[i + 1], params.dx_m),
                    area,
                    free,
                )
        }),
{
    let n: usize = t_edges.len() - 1;
    let area: Double = params.dx_m.times(params.dt_s);
    let mut flow: Vec<Double> = Vec::new();
    let mut density: Vec<Double> = Vec::new();
    let mut speed: Vec<Double> = Vec::new();
    let mut i: usize = 0;
    while i < n
        invariant
            up@.len() == down@.len(),
            n == t_edges@.len() - 1,
            i <= n,
            area == params.dx_m.times(params.dt_s),
            flow@.len() == i,
            density@.len() == i,
            speed@.len() == i,
            forall|k: int|
                0 <= k < i ==> (#[trigger] flow@[k], density@[k], speed@[k]) == cell_of(
                    edie_of(up@, down@, t_edges@[k], t_edges@[k + 1], params.dx_m),
                    area,
                    free,
                ),
        decreases n - i,
    {
        let sums: (Double, Double) = edie_cell(up, down, t_edges[i], t_edges[i + 1], params.dx_m);
        let (q, k, v) = compute_cell(sums, area, free);
        flow.push(q);
        density.push(k);
        speed.push(v);
        i = i + 1;
    }
    (flow, density, speed)
}

fn compute_xt_core(
    scenario: &Scenario,
    link_id: LinkID,
    pipe: Option<PipeIdx>,
    lanes: u8,
    capacity: Double,
    params: &XTParams,
) -> (r: XTDiagram)
    requires
        link_id < scenario.links@.len(),
    ensures
        r@ == diagram_of(*scenario, link_id, pipe, lanes, capacity, *params),
{
    let link: &Link = &scenario.links[link_id];
    let (cvc_in, cvc_out) = collect_link_cvcs(scenario, link_id, pipe);
    let x_edges: Vec<Double> = build_bins(Double::zero(), link.length, params.dx_m);
    let t_edges: Vec<Double> = build_bins(Double::zero(), scenario.duration, params.dt_s);
    let road = Stretch {
        length: link.length,
        u: link.fd.u,
        w: link.fd.w,
        kx: link.fd.kx.times(Double::from_u64(lanes as u64)),
    };
    let ghost grid = GridView {
        x_edges: x_edges@,
        t_edges: t_edges@,
        cvc_in: cvc_in@,
        cvc_out: cvc_out@,
        road,
        params: *params,
    };
    let nx: usize = x_edges.len() - 1;
    let nt: usize = t_edges.len() - 1;
    let free: Double = road.u.times(Double::from_bits(KMH_PER_MS));
    let mut x_bins: Vec<Double> = Vec::new();
    let mut flow: Vec<Vec<Double>> = Vec::new();
    let mut density: Vec<Vec<Double>> = Vec::new();
    let mut speed: Vec<Vec<Double>> = Vec::new();
    let mut up: Vec<Double> = cvc_at_x(&cvc_in, &cvc_out, x_edges[0], &road);
    let mut xi: usize = 0;
    while xi < nx
        invariant
            cvc_in@.len() == cvc_out@.len(),
            grid == (GridView {
                x_edges: x_edges@,
                t_edges: t_edges@,
                cvc_in: cvc_in@,
                cvc_out: cvc_out@,
                road,
                params: *params,
            }),
            nx == x_edges@.len() - 1,
            t_edges@.len() >= 1,
            free == road.u.times(Double::from_bits(KMH_PER_MS)),
            xi <= nx,
            up@ == curve_at(cvc_in@, cvc_out@, x_edges@[xi as int], road),
            up@.len() == cvc_in@.len(),
            x_bins@ == x_edges@.take(xi as int),
            flow@.len() == xi,
            density@.len() == xi,
            speed@.len() == xi,
            forall|k: int| 0 <= k < xi ==> (#[trigger] flow@[k])@ == grid.flow_row(k),
            forall|k: int| 0 <= k < xi ==> (#[trigger] density@[k])@ == grid.density_row(k),
            forall|k: int| 0 <= k < xi ==> (#[trigger] speed@[k])@ == grid.speed_row(k),
        decreases nx - xi,
    {
        let down: Vec<Double> = cvc_at_x(&cvc_in, &cvc_out, x_edges[xi + 1], &road);
        let (q, k, v) = compute_row(&up, &down, &t_edges, params, free);
        proof {
            assert forall|i: int| 0 <= i < grid.nt() implies (#[trigger] q@[i], k@[i], v@[i])
                == grid.cell(xi as int, i) by {}
            assert(q@ =~= grid.flow_row(xi as int));
            assert forall|i: int| 0 <= i < grid.nt() implies #[trigger] k@[i] == grid.cell(
                xi as int,
                i,
            ).1 by {
                assert((q@[i], k@[i], v@[i]) == grid.cell(xi as int, i));
            }
            assert(k@ =~= grid.density_row(xi as int));
            assert forall|i: int| 0 <= i < grid.nt() implies #[trigger] v@[i] == grid.cell(
                xi as int,
                i,
            ).2 by {
                assert((q@[i], k@[i], v@[i]) == grid.cell(xi as int, i));
            }
            assert(v@ =~= grid.speed_row(xi as int));
        }
        flow.push(q);
        density.push(k);
        speed.push(v);
        x_bins.push(x_edges[xi]);
        up = down;
        xi = xi + 1;
        assert(x_bins@ =~= x_edges@.take(xi as int));
    }
    let start: Double = scenario.start_time;
    let ghost shifted = t_edges@.drop_last().map_values(|t: Double| t.plus(start));
    let mut t_bins: Vec<Double> = Vec::new();
    let mut ti: usize = 0;
    while ti < nt
        invariant
            nt == t_edges@.len() - 1,
            shifted == t_edges@.drop_last().map_values(|t: Double| t.plus(start)),
            ti <= nt,
            t_bins@ == shifted.take(ti as int),
        decreases nt - ti,
    {
        t_bins.push(t_edges[ti].plus(start));
        ti = ti + 1;
        assert(t_bins@ =~= shifted.take(ti as int));
    }
    let r = XTDiagram {
        link_id,
        pipe,
        x_bins,
        t_bins,
        t_end: start.plus(scenario.duration),
        flow,
        density,
        speed,
        u_kmh: free,
        kx_veh_km: road.kx.times(Double::from_bits(METRES_PER_KM)),
        capacity_veh_h: capacity.times(Double::from_bits(SECONDS_PER_HOUR)),
    };
    proof {
        let d = grid.diagram(link_id, pipe, capacity, start, start.plus(scenario.duration));
        assert(r@.x_bins =~= d.x_bins);
        assert(r@.t_bins =~= d.t_bins);
        assert(r@.flow =~= d.flow);
        assert(r@.density =~= d.density);
        assert(r@.speed =~= d.speed);
    }
    r
}

/// Computes the diagram of a link. The jam density is that of all its lanes,
/// since the curves count the vehicles of the whole link.
pub fn compute_xt_link(scenario: &Scenario, link_id: LinkID, params: &XTParams) -> (r: XTDiagram)
    requires
        link_id < scenario.links@.len(),
    ensures
        r@ == link_diagram(*scenario, link_id, *params),
{
    let link: &Link = &scenario.links[link_id];
    compute_xt_core(scenario, link_id, None, link.num_lanes, link.capacity, params)
}

/// Computes the diagram of one pipe: of the vehicles that took it, with its
/// lanes and its capacity.
pub fn compute_xt_link_pipe(
    scenario: &Scenario,
    link_id: LinkID,
    pipe: PipeIdx,
    params: &XTParams,
) -> (r: XTDiagram)
    requires
        link_id < scenario.links@.len(),
    ensures
        r@ == pipe_diagram(*scenario, link_id, pipe, *params),
{
    let link: &Link = &scenario.links[link_id];
    if (pipe as usize) < link.pipes.len() {
        let p = &link.pipes[pipe as usize];
        compute_xt_core(scenario, link_id, Some(pipe), p.lanes, p.capacity, params)
    } else {
        compute_xt_core(scenario, link_id, Some(pipe), link.num_lanes, link.capacity, params)
    }
}

/// Computes the diagrams of all pipes of a link; at least one.
pub fn compute_xt_pipes(scenario: &Scenario, link_id: LinkID, params: &XTParams) -> (r: Vec<
    XTDiagram,
>)
    requires
        link_id < scenario.links@.len(),
    ensures
        r@.len() == crate::model::at_least_one(scenario.links@[link_id as int].pipes@.len()),
        forall|p: int|
            0 <= p < r@.len() ==> (#[trigger] r@[p])@ == pipe_diagram(
                *scenario,
                link_id,
                (p % 256) as u8,
                *params,
            ),
{
    let n: usize = if scenario.links[link_id].pipes.len() == 0 {
        1
    } else {
        scenario.links[link_id].pipes.len()
    };
    let mut r: Vec<XTDiagram> = Vec::new();
    let mut p: usize = 0;
    while p < n
        invariant
            link_id < scenario.links@.len(),
            p <= n,
            r@.len() == p,
            forall|k: int|
                0 <= k < p ==> (#[trigger] r@[k])@ == pipe_diagram(
                    *scenario,
                    link_id,
                    (k % 256) as u8,
                    *params,
                ),
        decreases n - p,
    {
        let d: XTDiagram = compute_xt_link_pipe(scenario, link_id, (p % 256) as u8, params);
        r.push(d);
        p = p + 1;
    }
    r
}

// ── Profiles ─────────────────────────────────────────────────────────────────

/// A column of a table.
pub open spec fn column(table: Seq<Seq<Double>>, ti: int) -> Seq<Double> {
    table.map_values(|row: Seq<Double>| row[ti])
}

/// Every row of the table has an entry for each cell in time.
pub open spec fn covers(table: Seq<Seq<Double>>, nt: nat) -> bool {
    forall|xi: int| 0 <= xi < table.len() ==> (#[trigger] table[xi]).len() == nt
}

pub open spec fn profile_view(r: Option<Vec<Double>>) -> Option<Seq<Double>> {
    match r {
        Some(v) => Some(v@),
        None => None,
    }
}

impl XTView {
    /// A column of a table at a time; none outside the simulated time.
    pub open spec fn profile(self, table: Seq<Seq<Double>>, t: Double) -> Option<Seq<Double>> {
        match bin_at(self.t_bins, self.t_end, t) {
            Some(ti) => Some(column(table, ti as int)),
            None => None,
        }
    }

    /// A speed over the free-flow speed, within 0 and 1.
    pub open spec fn normalised(self, v: Double) -> Double {
        v.over(self.u_kmh).min(Double::one()).max(Double::zero())
    }
}

fn take_column(table: &Vec<Vec<Double>>, ti: usize) -> (r: Vec<Double>)
    requires
        forall|xi: int| 0 <= xi < table@.len() ==> ti < (#[trigger] table@[xi])@.len(),
    ensures
        r@ == column(rows(table@), ti as int),
{
    let mut r: Vec<Double> = Vec::new();
    let mut xi: usize = 0;
    while xi < table.len()
        invariant
            forall|xi: int| 0 <= xi < table@.len() ==> ti < (#[trigger] table@[xi])@.len(),
            xi <= table@.len(),
            r@ == column(rows(table@), ti as int).take(xi as int),
        decreases table@.len() - xi,
    {
        r.push(table[xi][ti]);
        xi = xi + 1;
        assert(r@ =~= column(rows(table@), ti as int).take(xi as int));
    }
    assert(r@ =~= column(rows(table@), ti as int));
    r
}

impl XTDiagram {
    /// Speeds along the link (km/h) in the cell that contains `t_abs`; none
    /// outside the simulated time.
    pub fn speed_at_time(&self, t_abs: Double) -> (r: Option<Vec<Double>>)
        requires
            covers(self@.speed, self.t_bins@.len()),
        ensures
            profile_view(r) == self@.profile(self@.speed, t_abs),
    {
        match time_bin_index(&self.t_bins, self.t_end, t_abs) {
            None => None,
            Some(ti) => {
                assert forall|xi: int| 0 <= xi < self.speed@.len() implies ti < (
                #[trigger] self.speed@[xi])@.len() by {
                    assert(self@.speed[xi] == self.speed@[xi]@);
                }
                Some(take_column(&self.speed, ti))
            },
        }
    }

    /// The same over the free-flow speed, within 0 and 1.
    pub fn normalised_speed_at_time(&self, t_abs: Double) -> (r: Option<Vec<Double>>)
        requires
            covers(self@.speed, self.t_bins@.len()),
        ensures
            profile_view(r) == match self@.profile(self@.speed, t_abs) {
                Some(p) => Some(p.map_values(|v: Double| self@.normalised(v))),
                None => None,
            },
    {
        let speeds: Vec<Double> = match self.speed_at_time(t_abs) {
            None => {
                return None;
            },
            Some(speeds) => speeds,
        };
        let ghost whole = speeds@.map_values(|v: Double| self@.normalised(v));
        let mut r: Vec<Double> = Vec::new();
        let mut i: usize = 0;
        while i < speeds.len()
            invariant
                whole == speeds@.map_values(|v: Double| self@.normalised(v)),
                i <= speeds@.len(),
                r@ == whole.take(i as int),
            decreases speeds@.len() - i,
        {
            r.push(speeds[i].over(self.u_kmh).min(Double::one()).max(Double::zero()));
            i = i + 1;
            assert(r@ =~= whole.take(i as int));
        }
        assert(r@ =~= whole);
        Some(r)
    }

    /// Densities along the link (veh/km) in the cell that contains `t_abs`; none
    /// outside the simulated time.
    pub fn density_at_time(&self, t_abs: Double) -> (r: Option<Vec<Double>>)
        requires
            covers(self@.density, self.t_bins@.len()),
        ensures
            profile_view(r) == self@.profile(self@.density, t_abs),
    {
        match time_bin_index(&self.t_bins, self.t_end, t_abs) {
            None => None,
            Some(ti) => {
                assert forall|xi: int| 0 <= xi < self.density@.len() implies ti < (
                #[trigger] self.density@[xi])@.len() by {
                    assert(self@.density[xi] == self.density@[xi]@);
                }
                Some(take_column(&self.density, ti))
            },
        }
    }
}

// ── Laws ─────────────────────────────────────────────────────────────────────

/// Numbers in ascending order.
pub open spec fn ascending(s: Seq<Double>) -> bool {
    forall|i: int, j: int| 0 <= i <= j < s.len() ==> (#[trigger] s[i]).le(#[trigger] s[j])
}

proof fn lemma_bisected(s: Seq<Double>, t: Double, inclusive: bool, lo: nat, hi: nat)
    requires
        lo <= hi <= s.len(),
        ascending(s),
        forall|i: int| 0 <= i < lo ==> counts(#[trigger] s[i], t, inclusive),
        forall|i: int| hi <= i < s.len() ==> !counts(#[trigger] s[i], t, inclusive),
    ensures
        ({
            let n = bisected(s, t, inclusive, lo, hi);
            &&& lo <= n <= hi
            &&& forall|i: int| 0 <= i < n ==> counts(#[trigger] s[i], t, inclusive)
            &&& forall|i: int| n <= i < s.len() ==> !counts(#[trigger] s[i], t, inclusive)
        }),
    decreases hi - lo,
{
    if lo < hi {
        let mid = (lo + hi) / 2;
        if counts(s[mid as int], t, inclusive) {
            assert forall|i: int| 0 <= i < mid + 1 implies counts(#[trigger] s[i], t, inclusive) by {
                assert(s[i].le(s[mid as int]));
            }
            lemma_bisected(s, t, inclusive, mid + 1, hi);
        } else {
            assert forall|i: int| mid <= i < s.len() implies !counts(
                #[trigger] s[i],
                t,
                inclusive,
            ) by {
                assert(s[mid as int].le(s[i]));
                assert(s[i].le(s[i]));
            }
            lemma_bisected(s, t, inclusive, lo, mid);
        }
    }
}

/// On a sorted curve the search finds the one place that parts what comes
/// before a time from what comes after it.
pub proof fn law_search_parts_a_curve(s: Seq<Double>, t: Double, inclusive: bool)
    requires
        ascending(s),
    ensures
        ({
            let n = leading(s, t, inclusive);
            &&& n <= s.len()
            &&& forall|i: int| 0 <= i < n ==> counts(#[trigger] s[i], t, inclusive)
            &&& forall|i: int| n <= i < s.len() ==> !counts(#[trigger] s[i], t, inclusive)
        }),
{
    lemma_bisected(s, t, inclusive, 0, s.len());
}

/// A grid ends exactly at its end, and begins at its start wherever the two are
/// apart.
pub proof fn law_grid_spans_its_range(start: Double, end: Double, step: Double)
    ensures
        bins_of(start, end, step).last() == end,
        start.lt(end.minus(Double::from_bits(TIME_SLACK))) ==> bins_of(start, end, step).len() >= 2
            && bins_of(start, end, step)[0] == start,
{
    let limit = end.minus(Double::from_bits(TIME_SLACK));
    if start.lt(limit) {
        let first = Seq::<Double>::empty().push(start);
        lemma_edges_keep(first, start.plus(step), limit, step);
        let all = edges_from(Seq::empty(), start, limit, step);
        assert(first.is_prefix_of(all));
        assert(first[0] == all[0]);
    }
}

proof fn lemma_edges_keep(acc: Seq<Double>, x: Double, limit: Double, step: Double)
    ensures
        acc.is_prefix_of(edges_from(acc, x, limit, step)),
    decreases
            if x.lt(limit) {
                limit.key() - x.key()
            } else {
                0
            },
{
    if x.lt(limit) {
        let next = x.plus(step);
        if next.gt(x) {
            lemma_edges_keep(acc.push(x), next, limit, step);
        }
    }
}

/// Every table of a diagram has a row for each cell along the link, and every
/// row an entry for each cell in time, so that a profile can be taken at any
/// time within the simulated one.
pub proof fn law_tables_cover_the_grid(
    grid: GridView,
    link_id: LinkID,
    pipe: Option<PipeIdx>,
    capacity: Double,
    start: Double,
    t_end: Double,
)
    requires
        grid.x_edges.len() >= 1,
        grid.t_edges.len() >= 1,
    ensures
        ({
            let d = grid.diagram(link_id, pipe, capacity, start, t_end);
            &&& d.flow.len() == d.x_bins.len()
            &&& d.density.len() == d.x_bins.len()
            &&& d.speed.len() == d.x_bins.len()
            &&& covers(d.flow, d.t_bins.len())
            &&& covers(d.density, d.t_bins.len())
            &&& covers(d.speed, d.t_bins.len())
        }),
{
}

/// No vehicle passes a point before the free-flow wave from the entry, nor
/// before the backward wave from the exit.
pub proof fn law_passage_obeys_both_waves(
    cvc_in: Seq<Double>,
    cvc_out: Seq<Double>,
    x: Double,
    road: Stretch,
    i: int,
)
    requires
        0 <= i < cvc_in.len(),
    ensures
        ({
            let rest = road.length.minus(x);
            let demand = cvc_in[i].plus(x.over(road.u));
            let place = wave_place(i as nat, cvc_in.len(), road.kx.times(rest));
            let supply = supply_at(cvc_out, place).plus(rest.over(road.w));
            let t = passage(cvc_in, cvc_out, x, road, i);
            &&& t == demand || t == supply
            &&& !demand.nan() ==> t.ge(demand)
            &&& !supply.nan() && !demand.nan() ==> t.ge(supply)
        }),
{
}

/// A curve of finite times, in ascending order, whose gaps are finite.
pub open spec fn proper(s: Seq<Double>) -> bool {
    &&& ascending(s)
    &&& forall|i: int| 0 <= i < s.len() ==> (#[trigger] s[i]).finite()
    &&& forall|i: int| 0 < i < s.len() ==> s[i].minus(#[trigger] s[i - 1]).finite()
}

/// The supply at a place from the first on lies between its neighbours.
proof fn lemma_supply(out: Seq<Double>, place: Double)
    requires
        proper(out),
        0 < out.len() < TWO_53,
        out.len() <= usize::MAX,
        place.ge(Double::one()),
        place.le(whole(out.len())),
    ensures
        ({
            let lo = place.trunc();
            let part = place.minus(whole(lo as nat));
            let (low, high) = (
                out[lo - 1],
                if lo < out.len() {
                    out[lo]
                } else {
                    out[lo - 1]
                },
            );
            let s = supply_at(out, place);
            &&& 1 <= lo <= out.len()
            &&& part.finite()
            &&& part.key() >= 0
            &&& high.minus(low).finite()
            &&& high.minus(low).key() >= 0
            &&& s == low.plus(part.times(high.minus(low)))
            &&& s.finite()
            &&& low.le(s)
            &&& s.le(high)
        }),
{
    let n = out.len();
    crate::double::law_zero_and_one_are_whole();
    crate::double::law_whole_numbers_ascend(1, n);
    crate::double::law_integer_parts_ascend(whole(1), place);
    crate::double::law_integer_parts_ascend(place, whole(n));
    let lo = place.trunc();
    crate::double::law_fraction_is_below_one(place, lo as nat);
    let part = place.minus(whole(lo as nat));
    let low = out[lo - 1];
    let high = if lo < n {
        out[lo]
    } else {
        low
    };
    if lo < n {
        assert(out[lo].minus(out[lo - 1]).finite());
        assert(out[lo - 1].le(out[lo]));
    } else {
        crate::double::law_difference_with_itself_vanishes(low);
    }
    crate::double::law_indices_are_whole(lo as usize, place.floor());
    assert(held(lo as nat, n) == lo);
    crate::double::law_interpolation_stays_between(low, high, part);
}

proof fn lemma_supply_ascends(out: Seq<Double>, a: Double, b: Double)
    requires
        proper(out),
        0 < out.len() < TWO_53,
        out.len() <= usize::MAX,
        a.ge(Double::one()),
        a.le(b),
        b.le(whole(out.len())),
    ensures
        supply_at(out, a).le(supply_at(out, b)),
{
    lemma_supply(out, a);
    lemma_supply(out, b);
    crate::double::law_whole_numbers_ascend(1, out.len());
    crate::double::law_integer_parts_ascend(a, b);
    let (lo, hi) = (a.trunc(), b.trunc());
    if lo == hi {
        let base = whole(lo as nat);
        let (p, q) = (a.minus(base), b.minus(base));
        crate::double::law_whole_numbers_ascend(lo as nat, out.len());
        crate::double::law_sum_monotone(a, b, base.spec_negated());
        let low = out[lo - 1];
        let high = if lo < out.len() {
            out[lo]
        } else {
            low
        };
        crate::double::law_product_monotone(p, q, high.minus(low));
        crate::double::law_sum_monotone_right(
            low,
            p.times(high.minus(low)),
            q.times(high.minus(low)),
        );
    } else {
        assert(out[lo].le(out[hi - 1]));
    }
}

/// Places among the exits ascend.
proof fn lemma_places_ascend(i: nat, j: nat, n: nat, shift: Double)
    requires
        i <= j < n < TWO_53,
        n <= usize::MAX,
        !shift.nan(),
    ensures
        wave_place(i, n, shift).le(wave_place(j, n, shift)),
        wave_place(j, n, shift).le(whole(n)),
{
    let one = Double::one();
    crate::double::law_whole_numbers_ascend(i, j);
    crate::double::law_whole_numbers_ascend(i + 1, j + 1);
    crate::double::law_whole_numbers_ascend(j + 1, n);
    crate::double::law_zero_and_one_are_whole();
    crate::double::law_whole_numbers_add_up(i, 1);
    crate::double::law_whole_numbers_add_up(j, 1);
    crate::double::law_whole_numbers_ascend(0, n);
    crate::double::law_indices_are_whole(i as usize, whole(0));
    crate::double::law_indices_are_whole(j as usize, whole(0));
    crate::double::law_indices_are_whole(n as usize, whole(0));
    crate::double::law_sum_monotone(whole(i + 1), whole(j + 1), shift.spec_negated());
}

/// Inside a link its curve ascends where the curves at both ends do: of two vehicles,
/// the one that enters and leaves first passes no later at any point between. The
/// numbers of the road are such that the two waves can be told.
pub proof fn law_inner_curve_ascends(
    cvc_in: Seq<Double>,
    cvc_out: Seq<Double>,
    x: Double,
    road: Stretch,
)
    requires
        cvc_in.len() == cvc_out.len(),
        cvc_in.len() < TWO_53,
        cvc_in.len() <= usize::MAX,
        ascending(cvc_in),
        forall|i: int| 0 <= i < cvc_in.len() ==> (#[trigger] cvc_in[i]).finite(),
        proper(cvc_out),
        !x.over(road.u).nan(),
        road.length.minus(x).over(road.w).finite(),
        !road.kx.times(road.length.minus(x)).nan(),
    ensures
        ascending(curve_at(cvc_in, cvc_out, x, road)),
{
    let n = cvc_in.len();
    let rest = road.length.minus(x);
    let shift = road.kx.times(rest);
    let back = rest.over(road.w);
    let curve = Seq::new(n, |i: int| passage(cvc_in, cvc_out, x, road, i));
    assert forall|i: int, j: int| 0 <= i <= j < n implies (#[trigger] curve[i]).le(
        #[trigger] curve[j],
    ) by {
        assert(cvc_in[i].le(cvc_in[j]));
        crate::double::law_sum_monotone(cvc_in[i], cvc_in[j], x.over(road.u));
        lemma_places_ascend(i as nat, j as nat, n, shift);
        let (p, q) = (wave_place(i as nat, n, shift), wave_place(j as nat, n, shift));
        let (s, t) = (supply_at(cvc_out, p), supply_at(cvc_out, q));
        assert(s.plus(back).le(t.plus(back))) by {
            if q.ge(Double::one()) {
                lemma_supply(cvc_out, q);
                if p.ge(Double::one()) {
                    lemma_supply(cvc_out, p);
                    lemma_supply_ascends(cvc_out, p, q);
                    crate::double::law_sum_monotone(s, t, back);
                } else {
                    crate::double::law_sum_in_range(t, back);
                    reveal(Double::spec_plus);
                }
            } else {
                reveal(Double::spec_plus);
            }
        }
    }
}

/// A link on which no vehicle was seen has no flow and no density, and its
/// free-flow speed everywhere.
pub proof fn law_empty_link_is_free(grid: GridView, xi: int, ti: int)
    requires
        grid.cvc_in.len() == 0,
        grid.cvc_out.len() == 0,
        0 <= xi < grid.nx(),
        0 <= ti < grid.nt(),
    ensures
        grid.cell(xi, ti) == (
            Double::zero(),
            Double::zero(),
            grid.road.u.times(Double::from_bits(KMH_PER_MS)),
        ),
{
    let up = curve_at(grid.cvc_in, grid.cvc_out, grid.x_edges[xi], grid.road);
    let down = curve_at(grid.cvc_in, grid.cvc_out, grid.x_edges[xi + 1], grid.road);
    assert(up.len() == 0);
    assert(down.len() == 0);
    assert(leading(up, grid.t_edges[ti + 1], false) == 0);
    assert(Double::zero().lt(Double::from_bits(NEAR_ZERO)));
}

/// The supply at a whole place is the exit at that place.
proof fn lemma_supply_at_whole(out: Seq<Double>, m: nat)
    requires
        proper(out),
        1 <= m <= out.len(),
        out.len() < TWO_53,
        out.len() <= usize::MAX,
    ensures
        supply_at(out, whole(m)).finite(),
        supply_at(out, whole(m)).key() == out[m - 1].key(),
{
    crate::double::law_zero_and_one_are_whole();
    crate::double::law_whole_numbers_ascend(1, m);
    crate::double::law_whole_numbers_ascend(m, out.len());
    lemma_supply(out, whole(m));
    crate::double::law_difference_with_itself_vanishes(whole(m));
    let low = out[m - 1];
    let high = if m < out.len() {
        out[m as int]
    } else {
        low
    };
    crate::double::law_nothing_adds_nothing(low, high.minus(low));
}

/// A vehicle `i` passes a point inside a link no earlier than the free-flow wave of its
/// own entry, and no earlier than the backward wave of the exit that is `kx * (L - x)`
/// vehicles before it: where that number lies between `k` and `j`, no earlier than exit
/// `i - j` plus `(L - x) / w`, and, unless the free-flow wave is later, no later than
/// exit `i - k` plus `(L - x) / w`. Where the number is whole, the two are one exit. A
/// vehicle with fewer before it than that is held back by no exit.
pub proof fn law_backward_wave_comes_from_its_exit(
    cvc_in: Seq<Double>,
    cvc_out: Seq<Double>,
    x: Double,
    road: Stretch,
    i: int,
    k: nat,
    j: nat,
)
    requires
        cvc_in.len() == cvc_out.len(),
        cvc_in.len() < TWO_53,
        cvc_in.len() <= usize::MAX,
        0 <= i < cvc_in.len(),
        proper(cvc_out),
        !cvc_in[i].plus(x.over(road.u)).nan(),
        road.length.minus(x).over(road.w).finite(),
        whole(k).le(road.kx.times(road.length.minus(x))),
        k <= j < TWO_53,
        road.kx.times(road.length.minus(x)).le(whole(j)),
        x.ge(Double::from_bits(TIME_SLACK)),
        x.minus(road.length).abs().ge(Double::from_bits(TIME_SLACK)),
    ensures
        ({
            let t = curve_at(cvc_in, cvc_out, x, road)[i];
            let free = cvc_in[i].plus(x.over(road.u));
            let back = road.length.minus(x).over(road.w);
            &&& t.ge(free)
            &&& j <= i ==> t.ge(cvc_out[i - j].plus(back))
            &&& j <= i ==> t.le(free) || t.le(cvc_out[i - k].plus(back))
            &&& k > i ==> t.same(free)
        }),
{
    let n = cvc_in.len();
    let rest = road.length.minus(x);
    let shift = road.kx.times(rest);
    let back = rest.over(road.w);
    let place = wave_place(i as nat, n, shift);
    let free = cvc_in[i].plus(x.over(road.u));
    crate::double::law_zero_and_one_are_whole();
    crate::double::law_whole_numbers_ascend(i as nat, n);
    crate::double::law_whole_numbers_ascend((i + 1) as nat, n);
    crate::double::law_whole_numbers_ascend(0, (i + 1) as nat);
    crate::double::law_whole_numbers_ascend(k, j);
    crate::double::law_indices_are_whole(i as usize, whole(0));
    crate::double::law_indices_are_whole(n as usize, whole(0));
    crate::double::law_whole_numbers_add_up(i as nat, 1);
    let all = whole((i + 1) as nat);
    let raw = all.minus(shift);
    if j <= i {
        let (a, b) = ((i + 1 - j) as nat, (i + 1 - k) as nat);
        crate::double::law_whole_numbers_subtract((i + 1) as nat, j);
        crate::double::law_whole_numbers_subtract((i + 1) as nat, k);
        crate::double::law_sum_monotone_right(all, whole(j).spec_negated(), shift.spec_negated());
        crate::double::law_sum_monotone_right(all, shift.spec_negated(), whole(k).spec_negated());
        crate::double::law_whole_numbers_ascend(1, a);
        crate::double::law_whole_numbers_ascend(a, b);
        crate::double::law_whole_numbers_ascend(b, n);
        assert(whole(a).le(raw) && raw.le(whole(b)));
        assert(place == raw);
        lemma_supply_at_whole(cvc_out, a);
        lemma_supply_at_whole(cvc_out, b);
        lemma_supply_ascends(cvc_out, whole(a), place);
        lemma_supply_ascends(cvc_out, place, whole(b));
        lemma_supply(cvc_out, place);
        let s = supply_at(cvc_out, place);
        assert(cvc_out[i - j].finite() && cvc_out[i - k].finite());
        crate::double::law_sum_monotone(cvc_out[i - j], s, back);
        crate::double::law_sum_monotone(s, cvc_out[i - k], back);
    }
    if k > i {
        crate::double::law_whole_numbers_ascend((i + 1) as nat, k);
        crate::double::law_difference_with_itself_vanishes(all);
        crate::double::law_sum_monotone_right(all, shift.spec_negated(), all.spec_negated());
        assert(raw.le(Double::zero()));
        assert(place.lt(Double::one()));
        reveal(Double::spec_plus);
        assert(supply_at(cvc_out, place).plus(back) == Double::from_bits(NEG_INFINITY));
    }
}


/// Between two exits the supply goes at an even pace: a fraction of the way from one exit
/// to the next is the same fraction of the time between them. Where the exits are at whole
/// seconds and the fraction of the time is a whole number of seconds, nothing is rounded.
pub proof fn law_supply_goes_evenly_between_exits(
    out: Seq<Double>,
    place: Double,
    lo: nat,
    a: nat,
    d: nat,
    m: nat,
)
    requires
        1 <= lo < out.len() <= usize::MAX,
        a + d < TWO_53,
        m <= d,
        out[lo - 1] == whole(a),
        out[lo as int] == whole(a + d),
        place.ge(Double::one()),
        place.floor().to_usize() == lo,
        place.minus(Double::from_usize(lo as usize)).times(whole(d)) == whole(m),
    ensures
        supply_at(out, place) == whole(a + m),
{
    crate::double::law_whole_numbers_subtract(a + d, a);
    crate::double::law_whole_numbers_add_up(a, m);
    assert((a + d - a) as nat == d);
}

} // verus!
