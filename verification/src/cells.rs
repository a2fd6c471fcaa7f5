//! What the cells of a space-time diagram measure, told by the times of vehicles.

use crate::double::{normal, p2, units, whole, Double};
use crate::model::{LinkID, PipeIdx, VehicleView};
use crate::rates::near;
use crate::xt_analysis::{
    ascending, bin_at, bins_of, cell_of, curves_along, edges_from, edie_of, leading,
    with_presence, XTView,
};
use vstd::prelude::*;

verus! {

// ── The grid ─────────────────────────────────────────────────────────────────

/// The cell in time that a time falls into begins no later than it and ends after it; a
/// time before the first cell, or at the end of the last or beyond, falls into none.
pub proof fn law_times_fall_into_their_cell(t_bins: Seq<Double>, t_end: Double, t: Double)
    requires
        ascending(t_bins),
        t_bins.len() > 0,
        !t.nan(),
        !t_end.nan(),
    ensures
        match bin_at(t_bins, t_end, t) {
            Some(i) => {
                &&& i < t_bins.len()
                &&& t_bins[i as int].le(t)
                &&& i + 1 < t_bins.len() ==> t.lt(t_bins[i as int + 1])
                &&& t.lt(t_end)
            },
            None => t.lt(t_bins[0]) || t.ge(t_end),
        },
{
    crate::xt_analysis::law_search_parts_a_curve(t_bins, t, true);
    let n = leading(t_bins, t, true);
    assert(t_bins[0].le(t_bins[0]));
    if !t.lt(t_bins[0]) && n == 0 {
        assert(!crate::xt_analysis::counts(t_bins[0], t, true));
    }
    if n > 0 {
        assert(crate::xt_analysis::counts(t_bins[n - 1], t, true));
        if n < t_bins.len() {
            assert(!crate::xt_analysis::counts(t_bins[n as int], t, true));
            assert(t_bins[n as int].le(t_bins[n as int]));
        }
    }
}

/// Two edges of a grid in a row are a step apart, but for the last one, which is the end.
pub open spec fn stepped(s: Seq<Double>, step: Double, k: int) -> bool {
    s[k + 1] == s[k].plus(step)
}

proof fn lemma_edges(acc: Seq<Double>, x: Double, limit: Double, step: Double)
    requires
        acc.len() > 0 ==> x == acc[acc.len() - 1].plus(step),
        forall|k: int| 0 <= k < acc.len() - 1 ==> #[trigger] stepped(acc, step, k),
        forall|k: int| 0 <= k < acc.len() ==> (#[trigger] acc[k]).lt(limit),
    ensures
        ({
            let r = edges_from(acc, x, limit, step);
            &&& forall|k: int| 0 <= k < r.len() - 1 ==> #[trigger] stepped(r, step, k)
            &&& forall|k: int| 0 <= k < r.len() ==> (#[trigger] r[k]).lt(limit)
        }),
    decreases
            if x.lt(limit) {
                limit.key() - x.key()
            } else {
                0
            },
{
    if x.lt(limit) {
        let more = acc.push(x);
        assert forall|k: int| 0 <= k < more.len() - 1 implies #[trigger] stepped(more, step, k) by {
            if k < acc.len() - 1 {
                assert(stepped(acc, step, k));
            }
        }
        assert forall|k: int| 0 <= k < more.len() implies (#[trigger] more[k]).lt(limit) by {
            if k < acc.len() {
                assert(acc[k].lt(limit));
            }
        }
        let next = x.plus(step);
        if next.gt(x) {
            lemma_edges(more, next, limit, step);
            assert(edges_from(acc, x, limit, step) == edges_from(more, next, limit, step));
        } else {
            assert(edges_from(acc, x, limit, step) == more);
        }
    }
}

/// A grid goes from its start to its end in steps, and all its edges but the last lie
/// before the end, by more than a billionth.
pub proof fn law_grid_goes_in_steps(start: Double, end: Double, step: Double, k: int)
    requires
        0 <= k < bins_of(start, end, step).len() - 1,
    ensures
        ({
            let s = bins_of(start, end, step);
            &&& s[k].lt(end.minus(whole(1).over(whole(1_000_000_000))))
            &&& k + 1 < s.len() - 1 ==> s[k + 1] == s[k].plus(step)
        }),
{
    crate::constants::law_fraction_constants();
    let limit = end.minus(whole(1).over(whole(1_000_000_000)));
    lemma_edges(Seq::empty(), start, limit, step);
    let inner = edges_from(Seq::empty(), start, limit, step);
    assert(inner[k].lt(limit));
    if k + 1 < inner.len() {
        assert(stepped(inner, step, k));
    }
}

// ── Cells ────────────────────────────────────────────────────────────────────

/// A vehicle counts in a cell by the time that it spends in it: all of it where it passes
/// both edges within the cell, the length of the cell where it passes neither, and the
/// part inside where it passes one. It covers the length of the cell at an even speed.
/// One that is there at no time counts nothing.
pub proof fn law_vehicles_count_by_their_time_in_the_cell(
    acc: (Double, Double),
    a: Double,
    b: Double,
    t0: Double,
    t1: Double,
    dx: Double,
)
    requires
        a.lt(b),
        t0.lt(t1),
        b.minus(a).gt(Double::zero()),
    ensures
        ({
            let r = with_presence(acc, a, b, t0, t1, dx);
            let pace = dx.over(b.minus(a));
            &&& t0.lt(a) && b.lt(t1) ==> r == (
                acc.0.plus(pace.times(b.minus(a))),
                acc.1.plus(b.minus(a)),
            )
            &&& a.lt(t0) && t1.lt(b) ==> r == (
                acc.0.plus(pace.times(t1.minus(t0))),
                acc.1.plus(t1.minus(t0)),
            )
            &&& a.lt(t0) && t0.lt(b) && b.lt(t1) ==> r == (
                acc.0.plus(pace.times(b.minus(t0))),
                acc.1.plus(b.minus(t0)),
            )
            &&& t0.lt(a) && a.lt(t1) && t1.lt(b) ==> r == (
                acc.0.plus(pace.times(t1.minus(a))),
                acc.1.plus(t1.minus(a)),
            )
            &&& b.le(t0) || t1.le(a) ==> r == acc
        }),
{
}

/// The vehicles that count in a cell are those that have passed its upstream edge before
/// its end and its downstream edge after its start: without any, nothing is summed.
pub proof fn law_cells_without_vehicles_sum_nothing(
    up: Seq<Double>,
    down: Seq<Double>,
    t0: Double,
    t1: Double,
    dx: Double,
)
    requires
        ascending(up),
        ascending(down),
        up.len() == down.len(),
        forall|i: int| 0 <= i < up.len() ==> !(#[trigger] up[i]).lt(t1) || down[i].le(t0),
    ensures
        edie_of(up, down, t0, t1, dx) == (Double::zero(), Double::zero()),
{
    crate::xt_analysis::law_search_parts_a_curve(up, t1, false);
    crate::xt_analysis::law_search_parts_a_curve(down, t0, true);
    let (n, m) = (leading(up, t1, false), leading(down, t0, true));
    if m < n {
        assert(crate::xt_analysis::counts(up[m as int], t1, false));
        assert(!crate::xt_analysis::counts(down[m as int], t0, true));
    }
}

/// The rates of a cell: its density, over a thousand metres, times its area is the time
/// that was spent in it, its flow, over an hour, times its area the distance, and its
/// speed the one over the other, in km/h; all up to rounding. An empty cell has the
/// free-flow speed.
pub proof fn law_cells_measure_distance_and_time(sums: (Double, Double), area: Double, free: Double)
    requires
        sums.0.finite() && sums.0.gt(Double::zero()),
        sums.1.finite() && sums.1.ge(whole(1).over(whole(1_000_000_000_000))),
        area.finite() && area.gt(Double::zero()),
        normal(sums.0.over(area)),
        normal(sums.1.over(area)),
        normal(cell_of(sums, area, free).0),
        normal(cell_of(sums, area, free).1),
    ensures
        ({
            let (q, k, v) = cell_of(sums, area, free);
            &&& near(units(q) * units(area), units(sums.0) * 3600 * p2(1074), 3)
            &&& near(units(k) * units(area), units(sums.1) * 1000 * p2(1074), 3)
            &&& sums.1.over(area).gt(whole(1).over(whole(1_000_000_000))) ==> v == sums.0.over(
                area,
            ).over(sums.1.over(area)).times(whole(18).over(whole(5)))
            &&& !sums.1.over(area).gt(whole(1).over(whole(1_000_000_000))) ==> v == free
        }),
{
    crate::constants::law_whole_constants();
    crate::constants::law_fraction_constants();
    let zero = Double::zero();
    crate::double::law_zero_has_no_units();
    crate::double::law_zero_and_one_are_whole();
    crate::double::law_whole_numbers_have_their_value(1);
    crate::double::law_whole_numbers_have_their_value(1_000_000_000_000);
    crate::double::law_whole_quotients_compare(1, 1_000_000_000_000, 0);
    assert(sums.1.gt(zero)) by {
        crate::double::law_least_fraction(1, 1_000_000_000_000);
    }
    lemma_rate(sums.0, area, 3600);
    lemma_rate(sums.1, area, 1000);
}

pub(crate) proof fn lemma_rate(x: Double, area: Double, n: nat)
    requires
        x.finite() && x.gt(Double::zero()),
        area.finite() && area.gt(Double::zero()),
        0 < n < 10000,
        normal(x.over(area)),
        normal(x.over(area).times(whole(n))),
    ensures
        near(units(x.over(area).times(whole(n))) * units(area), units(x) * n * p2(1074), 3),
{
    let q = x.over(area);
    let r = q.times(whole(n));
    crate::double::law_zero_has_no_units();
    crate::double::law_whole_numbers_have_their_value(n);
    crate::double::law_quotient_is_nearly_exact(x, area);
    crate::double::law_product_is_nearly_exact(q, whole(n));
    crate::double::law_order_is_that_of_values(Double::zero(), x);
    crate::double::law_order_is_that_of_values(Double::zero(), area);
    crate::double::law_order_is_that_of_values(Double::zero(), q);
    vstd::arithmetic::power2::lemma_pow2_pos(1074);
    let (a, b, c, d, w) = (units(r), units(q), units(x), units(area), p2(1074));
    // One rounding each, of the quotient and of the product.
    assert(b * (n * w) == (b * n) * w) by (nonlinear_arith);
    crate::rates::lemma_near_reduced(a, b * n, 1, w);
    crate::rates::lemma_near_scaled(a, b * n, 1, d);
    crate::rates::lemma_near_scaled(b * d, c * w, 1, n as int);
    assert((b * n) * d == (b * d) * n) by (nonlinear_arith);
    assert((c * w) * n == c * n * w) by (nonlinear_arith);
    assert(c * n * w >= 0) by (nonlinear_arith)
        requires
            c >= 0,
            n >= 0,
            w >= 0,
    ;
    crate::rates::lemma_near_chain(a * d, (b * d) * n, c * n * w, 1, 1);
}

/// Normalised speeds lie between nothing and one, and are one from the free-flow speed on.
pub proof fn law_normalised_speeds_are_shares(d: XTView, v: Double)
    requires
        v.finite() && v.ge(Double::zero()) && !v.negative(),
        d.u_kmh.finite() && d.u_kmh.gt(Double::zero()),
    ensures
        d.normalised(v).ge(Double::zero()),
        d.normalised(v).le(Double::one()),
        v.ge(d.u_kmh) ==> d.normalised(v).same(Double::one()),
        v.le(d.u_kmh) ==> d.normalised(v).same(v.over(d.u_kmh)),
{
    let u = d.u_kmh;
    let one = Double::one();
    crate::double::law_zero_and_one_are_whole();
    crate::double::law_whole_numbers_have_their_value(1);
    crate::double::law_whole_numbers_ascend(0, 1);
    crate::double::law_quotient_keeps_order(v, u, one);
    crate::double::law_quotient_keeps_order(v, u, Double::zero());
    crate::double::law_order_is_that_of_values(u, v);
    crate::double::law_order_is_that_of_values(v, u);
    vstd::arithmetic::power2::lemma_pow2_pos(1074);
    let (a, b, w) = (units(v), units(u), p2(1074));
    assert(b <= a ==> (1 * w) * b <= a * w) by (nonlinear_arith)
        requires
            w >= 0,
    ;
    assert(a <= b ==> a * w <= (1 * w) * b) by (nonlinear_arith)
        requires
            w >= 0,
    ;
}

// ── Curves ───────────────────────────────────────────────────────────────────

/// A vehicle adds its entry and its exit to the curves of a link, counted from the start
/// of the run, for every time that it has completed the link, on the pipe that is asked
/// for, if one is.
pub proof fn law_curves_hold_completed_traversals(
    acc: (Seq<Double>, Seq<Double>),
    v: VehicleView,
    link: LinkID,
    pipe: Option<PipeIdx>,
    t0: Double,
    k: nat,
)
    requires
        k < v.path.len(),
        k + 1 < v.node_times.len() ==> k < v.pipes_taken.len(),
    ensures
        ({
            let before = curves_along(acc, v, link, pipe, t0, k);
            let after = curves_along(acc, v, link, pipe, t0, k + 1);
            if v.path[k as int] == link && k + 1 < v.node_times.len() && (pipe is None
                || v.pipes_taken[k as int] == pipe->0) {
                &&& after.0 == before.0.push(v.node_times[k as int].minus(t0))
                &&& after.1 == before.1.push(v.node_times[k as int + 1].minus(t0))
            } else {
                after == before
            }
        }),
{
}

/// The diagram of a pipe has the jam density of its own lanes and its own capacity, that of
/// a link those of all of it, in km and hours; times are those of the run.
pub proof fn law_diagrams_carry_their_parameters(
    s: crate::model::Scenario,
    id: LinkID,
    p: PipeIdx,
    params: crate::xt_analysis::XTParams,
)
    requires
        id < s.links@.len(),
        p < s.links@[id as int].pipes@.len(),
    ensures
        ({
            let link = s.links@[id as int];
            let pipe = link.pipes@[p as int];
            let (a, b) = (
                crate::xt_analysis::link_diagram(s, id, params),
                crate::xt_analysis::pipe_diagram(s, id, p, params),
            );
            &&& a.link_id == id && a.pipe is None
            &&& b.link_id == id && b.pipe == Some(p)
            &&& a.u_kmh == link.fd.u.times(whole(18).over(whole(5))) && b.u_kmh == a.u_kmh
            &&& a.kx_veh_km == link.fd.kx.times(Double::from_u64(link.num_lanes as u64)).times(
                whole(1000),
            )
            &&& b.kx_veh_km == link.fd.kx.times(Double::from_u64(pipe.lanes as u64)).times(
                whole(1000),
            )
            &&& a.capacity_veh_h == link.capacity.times(whole(3600))
            &&& b.capacity_veh_h == pipe.capacity.times(whole(3600))
            &&& a.t_end == s.start_time.plus(s.duration) && b.t_end == a.t_end
        }),
{
    crate::constants::law_whole_constants();
    crate::constants::law_fraction_constants();
}

/// A profile is the column of a table in the cell that the time falls into: one value for
/// each cell along the link.
pub proof fn law_profile_is_a_column(d: XTView, table: Seq<Seq<Double>>, t: Double, xi: int)
    requires
        ascending(d.t_bins),
        d.t_bins.len() > 0,
        !t.nan(),
        !d.t_end.nan(),
        0 <= xi < table.len(),
    ensures
        d.profile(table, t) is None <==> t.lt(d.t_bins[0]) || t.ge(d.t_end),
        d.profile(table, t) matches Some(r) ==> r.len() == table.len() && exists|i: int|
            0 <= i < d.t_bins.len() && (#[trigger] d.t_bins[i]).le(t) && (i + 1 < d.t_bins.len()
                ==> t.lt(d.t_bins[i + 1])) && r[xi] == table[xi][i],
{
    law_times_fall_into_their_cell(d.t_bins, d.t_end, t);
    if let Some(i) = bin_at(d.t_bins, d.t_end, t) {
        assert(d.t_bins[i as int].le(t));
        assert(d.profile(table, t)->0[xi] == table[xi][i as int]);
    }
}

} // verus!
