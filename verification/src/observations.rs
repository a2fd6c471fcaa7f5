//! What the diagnostics of a run say, told by its flows, densities and vehicles.

use crate::analysis::LinkStats;
use crate::diagnostics::{
    balance_at, congested_upto, departed_upto, exited_upto, fd_errors_upto, flow_over,
    has_departed, max_upto, mean_of, passages_from, percentage, sample_step, shortest_reach,
    startup_bins, sum_upto, trajectory_of, FDPoint, FDRegime, TrajPoint, TransportFD,
};
use crate::double::{normal, p2, units, whole, Double, TWO_52, TWO_53};
use crate::model::{Link, LinkID, Node, Scenario, Vehicle, VehicleState};
use crate::rates::near;
use vstd::prelude::*;

verus! {

// ── The diagram ──────────────────────────────────────────────────────────────

/// What the triangular diagram predicts never exceeds the capacity and is never negative.
/// Up to the critical density it is free flow and rises with the density; above it is
/// congested and falls with it, to nothing at the jam density.
pub proof fn law_diagram_is_a_triangle(fd: TransportFD, k: Double, more: Double)
    requires
        k.finite() && k.ge(Double::zero()),
        more.finite() && k.le(more) && more.le(fd.kx),
        fd.u.finite() && fd.u.ge(Double::zero()),
        fd.w.finite() && fd.w.ge(Double::zero()),
        fd.c.finite() && fd.c.ge(Double::zero()),
        fd.kx.finite(),
        fd.kx.minus(k).finite(),
        !fd.k_crit.nan(),
    ensures
        fd.predicted(k).0.le(fd.c),
        fd.predicted(k).0.ge(Double::zero()),
        fd.predicted(k).1 == if k.le(fd.k_crit) {
            FDRegime::FreeFlow
        } else {
            FDRegime::Congested
        },
        more.le(fd.k_crit) ==> fd.predicted(k).0.le(fd.predicted(more).0),
        fd.k_crit.lt(k) ==> fd.predicted(more).0.le(fd.predicted(k).0),
        fd.kx.gt(fd.k_crit) ==> fd.predicted(fd.kx).0.same(Double::zero()),
        k.le(fd.k_crit) && fd.u.times(k).lt(fd.c) ==> fd.predicted(k).0 == fd.u.times(k),
        fd.k_crit.lt(k) && fd.w.times(fd.kx.minus(k)).lt(fd.c) ==> fd.predicted(k).0.same(
            fd.w.times(fd.kx.minus(k)),
        ),
{
    let zero = Double::zero();
    crate::double::law_product_monotone(k, more, fd.u);
    crate::double::law_product_commutes(fd.u, k);
    crate::double::law_product_commutes(fd.u, more);
    let (a, b) = (fd.kx.minus(k), fd.kx.minus(more));
    crate::double::law_sum_monotone_right(fd.kx, more.spec_negated(), k.spec_negated());
    crate::double::law_sum_monotone_right(fd.kx, fd.kx.spec_negated(), more.spec_negated());
    crate::double::law_difference_with_itself_vanishes(fd.kx);
    assert(zero.le(b) && b.le(a));
    crate::double::law_product_monotone(b, a, fd.w);
    crate::double::law_product_commutes(fd.w, a);
    crate::double::law_product_commutes(fd.w, b);
    crate::double::law_nothing_adds_nothing(zero, fd.w);
    crate::double::law_product_commutes(fd.w, zero);
}

/// A bin is an observation unless next to nothing happened in it: both its density and
/// its flow are below a thousandth. One whose density exceeds the jam density is an
/// overflowing queue and has no error; any other is held against the diagram: its error
/// is not negative where the flow is above what is predicted, and none where it is just
/// that.
pub proof fn law_observations_are_held_against_the_diagram(
    fd: TransportFD,
    t: Double,
    id: LinkID,
    density: Double,
    flow: Double,
)
    requires
        flow.finite(),
        density.finite(),
        !fd.kx.nan(),
        fd.predicted(density).0.finite(),
    ensures
        ({
            let idle = whole(1).over(whole(1000));
            let q = fd.predicted(density).0;
            match fd.observe(t, id, density, flow) {
                None => density.lt(idle) && flow.lt(idle),
                Some(p) => {
                    &&& !(density.lt(idle) && flow.lt(idle))
                    &&& p.t == t && p.link_id == id && p.density == density && p.flow == flow
                    &&& p.regime == FDRegime::QueueOverflow <==> density.gt(fd.kx)
                    &&& density.gt(fd.kx) ==> p.error_pct.same(Double::zero())
                    &&& !density.gt(fd.kx) ==> p.theoretical_flow == q
                    &&& !density.gt(fd.kx) && flow == q ==> p.error_pct.same(Double::zero())
                    &&& !density.gt(fd.kx) && flow.gt(q) && flow.minus(q).finite()
                        && flow.minus(q).over(q.max(Double::one())).finite() ==> p.error_pct.ge(
                        Double::zero(),
                    )
                },
            }
        }),
{
    crate::constants::law_whole_constants();
    crate::constants::law_fraction_constants();
    let q = fd.predicted(density).0;
    let base = q.max(Double::one());
    crate::double::law_zero_and_one_are_whole();
    crate::double::law_whole_numbers_have_their_value(1);
    crate::double::law_whole_numbers_have_their_value(100);
    crate::double::law_whole_numbers_ascend(0, 1);
    assert(fd.predicted(density).1 != FDRegime::QueueOverflow);
    if flow == q {
        crate::double::law_difference_with_itself_vanishes(q);
        crate::double::law_zero_has_no_units();
        assert(base.finite() && !base.negative() && !base.vanishes());
        crate::double::law_quotient_keeps_order(Double::zero(), base, Double::zero());
        assert(0 * units(base) == 0) by (nonlinear_arith);
        crate::double::law_nothing_adds_nothing(Double::zero(), whole(100));
    }
    if flow.gt(q) {
        crate::double::law_difference_not_negative(flow, q);
        let d = flow.minus(q);
        crate::double::law_quotient_not_negative(d, base);
        if d.over(base).finite() {
            crate::double::law_product_monotone(d.over(base), d.over(base), whole(100));
        }
    }
}

/// The diagram of a link in km and hours: the critical density times the free-flow speed
/// is the capacity, up to a rounding; the jam density is that of all its lanes.
pub proof fn law_critical_density_carries_the_capacity(link: Link)
    requires
        link.spec_transport().u.finite() && link.spec_transport().u.gt(Double::zero()),
        link.spec_transport().c.finite() && link.spec_transport().c.gt(Double::zero()),
        normal(link.spec_transport().k_crit),
    ensures
        ({
            let fd = link.spec_transport();
            &&& fd.u == link.fd.u.times(whole(18).over(whole(5)))
            &&& fd.w == link.fd.w.times(whole(18).over(whole(5)))
            &&& fd.kx == link.fd.kx.times(Double::from_u64(link.num_lanes as u64)).times(
                whole(1000),
            )
            &&& fd.c == link.capacity.times(whole(3600))
            &&& near(units(fd.k_crit) * units(fd.u), units(fd.c) * p2(1074), 1)
        }),
{
    crate::constants::law_whole_constants();
    crate::constants::law_fraction_constants();
    let fd = link.spec_transport();
    crate::double::law_quotient_is_nearly_exact(fd.c, fd.u);
}

// ── Balances ─────────────────────────────────────────────────────────────────

/// The flow over a set of links adds up the flow of every one of them that has
/// statistics, in that bin.
pub proof fn law_flow_adds_up_over_links(
    links: Seq<LinkID>,
    stats: Map<LinkID, LinkStats>,
    i: int,
    k: nat,
    counts: Seq<nat>,
)
    requires
        k <= links.len(),
        counts.len() == links.len(),
        forall|j: int|
            0 <= j < k ==> #[trigger] stats.contains_key(links[j]) && stats[links[j]].flow.values@[i]
                == whole(counts[j]),
        counts.take(k as int).fold_left(0nat, |a: nat, b: nat| a + b) < TWO_53,
    ensures
        flow_over(links, stats, i, k) == whole(
            counts.take(k as int).fold_left(0nat, |a: nat, b: nat| a + b),
        ),
    decreases k,
{
    let sum = |a: nat, b: nat| a + b;
    if k > 0 {
        let (all, less) = (counts.take(k as int), counts.take(k - 1));
        assert(all.drop_last() =~= less);
        assert(all.last() == counts[k - 1]);
        assert(all.fold_left(0nat, sum) == less.fold_left(0nat, sum) + counts[k - 1]);
        law_flow_adds_up_over_links(links, stats, i, (k - 1) as nat, counts);
        assert(stats.contains_key(links[k - 1]));
        crate::double::law_whole_numbers_add_up(less.fold_left(0nat, sum), counts[k - 1]);
    } else {
        assert(counts.take(0) =~= Seq::<nat>::empty());
        crate::double::law_zero_and_one_are_whole();
    }
}

/// A bin of a node is left out exactly where next to nothing flows in or out, or where
/// nobody can have come through yet; elsewhere it is balanced where what flows out is what
/// flows in, and its error is not negative where more flows out.
pub proof fn law_balance_compares_out_with_in(
    s: Scenario,
    node: Node,
    stats: Map<LinkID, LinkStats>,
    bin_size: Double,
    i: int,
)
    requires
        flow_over(node.incoming_links@, stats, i, node.incoming_links@.len()).finite(),
        flow_over(node.outgoing_links@, stats, i, node.outgoing_links@.len()).finite(),
    ensures
        ({
            let idle = whole(1).over(whole(1000));
            let inflow = flow_over(node.incoming_links@, stats, i, node.incoming_links@.len());
            let outflow = flow_over(node.outgoing_links@, stats, i, node.outgoing_links@.len());
            match balance_at(s, node, stats, bin_size, i) {
                None => (inflow.lt(idle) && outflow.lt(idle)) || i < startup_bins(s, node, bin_size),
                Some(b) => {
                    &&& !(inflow.lt(idle) && outflow.lt(idle)) && i >= startup_bins(
                        s,
                        node,
                        bin_size,
                    )
                    &&& b.node_id == node.id
                    &&& b.inflow == inflow && b.outflow == outflow
                    &&& inflow == outflow ==> b.error_pct.same(Double::zero())
                    &&& outflow.gt(inflow) && outflow.minus(inflow).over(
                        inflow.max(Double::one()),
                    ).finite() ==> b.error_pct.ge(Double::zero())
                },
            }
        }),
{
    crate::constants::law_whole_constants();
    crate::constants::law_fraction_constants();
    let inflow = flow_over(node.incoming_links@, stats, i, node.incoming_links@.len());
    let outflow = flow_over(node.outgoing_links@, stats, i, node.outgoing_links@.len());
    let base = inflow.max(Double::one());
    crate::double::law_zero_and_one_are_whole();
    crate::double::law_whole_numbers_have_their_value(1);
    crate::double::law_whole_numbers_have_their_value(100);
    crate::double::law_whole_numbers_ascend(0, 1);
    if inflow == outflow {
        crate::double::law_difference_with_itself_vanishes(inflow);
        crate::double::law_zero_has_no_units();
        crate::double::law_quotient_keeps_order(Double::zero(), base, Double::zero());
        assert(0 * units(base) == 0) by (nonlinear_arith);
        crate::double::law_nothing_adds_nothing(Double::zero(), whole(100));
    }
    if outflow.gt(inflow) {
        crate::double::law_difference_not_negative(outflow, inflow);
        let d = outflow.minus(inflow);
        crate::double::law_quotient_not_negative(d, base);
        if d.over(base).finite() {
            crate::double::law_product_monotone(d.over(base), d.over(base), whole(100));
        }
    }
}

/// The shortest way into a node is no longer than any link into it takes at its speed.
pub proof fn law_reach_is_that_of_the_fastest_link(s: Scenario, links: Seq<LinkID>, k: nat, j: int)
    requires
        0 <= j < k <= links.len(),
        links[j] < s.links@.len(),
        s.links@[links[j] as int].speed.gt(Double::zero()),
        !s.links@[links[j] as int].length.over(s.links@[links[j] as int].speed).nan(),
    ensures
        shortest_reach(s, links, k).le(
            s.links@[links[j] as int].length.over(s.links@[links[j] as int].speed),
        ),
    decreases k,
{
    if j < k - 1 {
        law_reach_is_that_of_the_fastest_link(s, links, (k - 1) as nat, j);
    }
}

// ── Trajectories ─────────────────────────────────────────────────────────────

proof fn lemma_passages(
    acc: Seq<TrajPoint>,
    x: Double,
    v: Vehicle,
    links: Seq<Link>,
    i: nat,
)
    requires
        acc.len() == i + 1,
        acc[i as int].x == x,
    ensures
        ({
            let r = passages_from(acc, x, v, links, i);
            &&& r.len() >= acc.len()
            &&& forall|k: int| 0 <= k <= i ==> #[trigger] r[k] == acc[k]
            &&& forall|k: int|
                i < k < r.len() ==> (#[trigger] r[k]).t == v.node_times@[k] && k < v.node_times@.len()
                    && k <= v.path@.len() && v.path@[k - 1] < links.len() && r[k].x == r[k - 1].x.plus(
                    links[v.path@[k - 1] as int].length.over(whole(1000)),
                )
            &&& r.len() == v.node_times@.len() || r.len() > v.path@.len() || v.path@[r.len() - 1]
                >= links.len() || i + 1 >= v.node_times@.len()
        }),
    decreases v.path@.len() - i,
{
    crate::constants::law_whole_constants();
    if !(i >= v.path@.len() || i + 1 >= v.node_times@.len() || v.path@[i as int] >= links.len()) {
        let y = x.plus(links[v.path@[i as int] as int].length.over(whole(1000)));
        let more = acc.push(TrajPoint { t: v.node_times@[i as int + 1], x: y });
        lemma_passages(more, y, v, links, i + 1);
        let r = passages_from(more, y, v, links, i + 1);
        assert forall|k: int| i < k < r.len() implies (#[trigger] r[k]).t == v.node_times@[k] && k
            < v.node_times@.len() && k <= v.path@.len() && v.path@[k - 1] < links.len() && r[k].x
            == r[k - 1].x.plus(links[v.path@[k - 1] as int].length.over(whole(1000))) by {
            if k == i + 1 {
                assert(r[k] == more[k]);
                assert(r[k - 1] == more[k - 1]);
            }
        }
        assert forall|k: int| 0 <= k <= i implies #[trigger] r[k] == acc[k] by {
            assert(r[k] == more[k]);
        }
    }
}

/// A trajectory starts at nothing when the vehicle enters, and has one more point for
/// every link that the vehicle has completed: at the time at which it passed the node
/// there, and further by the length of that link in kilometres.
pub proof fn law_trajectory_follows_the_vehicle(v: Vehicle, links: Seq<Link>)
    requires
        has_departed(v),
    ensures
        trajectory_of(v, links) matches Some(r) ==> {
            &&& r.veh_id == v.id && r.origin == v.origin && r.destination == v.destination
            &&& r.path == v.path@
            &&& r.exited == (v.state == VehicleState::Exited)
            &&& r.points[0].t == v.node_times@[0] && r.points[0].x == Double::zero()
            &&& forall|k: int|
                0 < k < r.points.len() ==> (#[trigger] r.points[k]).t == v.node_times@[k] && k
                    < v.node_times@.len() && k <= v.path@.len() && r.points[k].x == r.points[k
                    - 1].x.plus(links[v.path@[k - 1] as int].length.over(whole(1000)))
            &&& (forall|k: int| 0 <= k < v.path@.len() ==> #[trigger] v.path@[k] < links.len())
                && v.node_times@.len() == v.path@.len() + 1 ==> r.points.len()
                == v.node_times@.len()
        },
{
    let first = seq![TrajPoint { t: v.node_times@[0], x: Double::zero() }];
    lemma_passages(first, Double::zero(), v, links, 0);
    let r = passages_from(first, Double::zero(), v, links, 0);
    if r.len() >= 2 {
        assert(r[r.len() - 1].t == v.node_times@[r.len() - 1]);
    }
    assert(r[0] == first[0]);
}

proof fn lemma_departed(vehicles: Seq<Vehicle>, n: nat)
    requires
        n <= vehicles.len(),
    ensures
        forall|k: int|
            0 <= k < departed_upto(vehicles, n).len() ==> 0 <= #[trigger] departed_upto(vehicles, n)[k] < n
                && has_departed(vehicles[departed_upto(vehicles, n)[k]]),
        forall|j: int|
            0 <= j < n && has_departed(#[trigger] vehicles[j]) ==> departed_upto(
                vehicles,
                n,
            ).contains(j),
    decreases n,
{
    if n > 0 {
        lemma_departed(vehicles, (n - 1) as nat);
        let (less, all) = (departed_upto(vehicles, (n - 1) as nat), departed_upto(vehicles, n));
        assert forall|j: int| 0 <= j < n && has_departed(#[trigger] vehicles[j]) implies all.contains(
            j,
        ) by {
            if j < n - 1 {
                assert(less.contains(j));
                let k = choose|k: int| 0 <= k < less.len() && less[k] == j;
                assert(all[k] == j);
            } else {
                assert(all[all.len() - 1] == j);
            }
        }
    }
}

/// The vehicles whose trajectories can be drawn are those that have entered the network.
pub proof fn law_departed_vehicles_are_picked(vehicles: Seq<Vehicle>, j: int)
    requires
        0 <= j < vehicles.len(),
    ensures
        departed_upto(vehicles, vehicles.len()).contains(j) <==> vehicles[j].node_times@.len() > 0
            && vehicles[j].path@.len() > 0,
{
    lemma_departed(vehicles, vehicles.len());
    let all = departed_upto(vehicles, vehicles.len());
    if all.contains(j) {
        let k = choose|k: int| 0 <= k < all.len() && all[k] == j;
        assert(has_departed(vehicles[all[k]]));
    }
    assert(has_departed(vehicles[j]) ==> all.contains(j));
}

/// A limited sample is within its limit, and as dense as that allows: steps of one less
/// would exceed it.
pub proof fn law_sampling_keeps_to_the_limit(n: nat, limit: nat)
    requires
        limit > 0,
    ensures
        ({
            let step = sample_step(n, limit);
            &&& step >= 1
            &&& step * limit >= n
            &&& n > limit ==> (step - 1) * limit < n
            &&& n <= limit ==> step == 1
        }),
{
    if n > limit {
        let (a, l) = (n + limit - 1, limit as int);
        vstd::arithmetic::div_mod::lemma_fundamental_div_mod(a, l);
        let q = a / l;
        assert(q >= 1 && q * l >= n && (q - 1) * l < n) by (nonlinear_arith)
            requires
                a == l * q + a % l,
                0 <= a % l < l,
                a == n + l - 1,
                n > l,
                l > 0,
        ;
    } else {
        assert(1 * limit == limit);
    }
}

// ── Summaries ────────────────────────────────────────────────────────────────

/// The vehicles that count as having left are those in that state.
pub proof fn law_exits_are_counted(vehicles: Seq<Vehicle>, n: nat)
    requires
        n <= vehicles.len(),
    ensures
        exited_upto(vehicles, n) == vehicles.take(n as int).filter(
            |v: Vehicle| v.state == VehicleState::Exited,
        ).len(),
    decreases n,
{
    reveal(Seq::filter);
    if n > 0 {
        law_exits_are_counted(vehicles, (n - 1) as nat);
        assert(vehicles.take(n as int).drop_last() =~= vehicles.take(n - 1));
    } else {
        assert(vehicles.take(0) =~= Seq::<Vehicle>::empty());
    }
}

/// Observations that are not in free flow count as congested, overflowing queues among
/// them.
pub proof fn law_congested_bins_are_counted(points: Seq<FDPoint>, n: nat)
    requires
        n <= points.len(),
    ensures
        congested_upto(points, n) == points.take(n as int).filter(
            |p: FDPoint| p.regime == FDRegime::Congested || p.regime == FDRegime::QueueOverflow,
        ).len(),
    decreases n,
{
    reveal(Seq::filter);
    if n > 0 {
        law_congested_bins_are_counted(points, (n - 1) as nat);
        assert(points.take(n as int).drop_last() =~= points.take(n - 1));
    } else {
        assert(points.take(0) =~= Seq::<FDPoint>::empty());
    }
}

/// Errors are those of all observations but overflowing queues, by their size.
pub proof fn law_errors_leave_overflow_out(points: Seq<FDPoint>, n: nat)
    requires
        n <= points.len(),
    ensures
        fd_errors_upto(points, n) == points.take(n as int).filter(
            |p: FDPoint| p.regime != FDRegime::QueueOverflow,
        ).map_values(|p: FDPoint| p.error_pct.abs()),
    decreases n,
{
    reveal(Seq::filter);
    let f = |p: FDPoint| p.regime != FDRegime::QueueOverflow;
    let g = |p: FDPoint| p.error_pct.abs();
    if n > 0 {
        law_errors_leave_overflow_out(points, (n - 1) as nat);
        let (part, less) = (points.take(n as int), points.take(n - 1));
        assert(part.drop_last() =~= less);
        assert(less.filter(f).push(part.last()).map_values(g) =~= less.filter(f).map_values(
            g,
        ).push(g(part.last())));
    } else {
        assert(points.take(0) =~= Seq::<FDPoint>::empty());
        assert(points.take(0).filter(f).map_values(g) =~= Seq::<Double>::empty());
    }
}

/// All is a hundred per cent, none is nothing, and nothing of nothing is nothing, too.
pub proof fn law_percentages_run_from_none_to_all(part: nat, all: nat)
    requires
        part <= all < TWO_52,
        all <= usize::MAX,
    ensures
        part == all && all > 0 ==> percentage(part, all) == whole(100),
        part == 0 ==> percentage(part, all).same(Double::zero()),
        percentage(part, all).le(whole(100)),
        percentage(part, all).ge(Double::zero()),
{
    crate::constants::law_whole_constants();
    crate::double::law_zero_and_one_are_whole();
    crate::double::law_whole_numbers_ascend(0, 1);
    crate::double::law_whole_numbers_ascend(0, 100);
    crate::double::law_indices_are_whole(part as usize, whole(0));
    crate::double::law_indices_are_whole(all as usize, whole(0));
    if all > 0 {
        let q = whole(part).over(whole(all));
        crate::double::law_whole_quotients_compare(part, all, 0);
        crate::double::law_whole_quotients_compare(part, all, 1);
        crate::double::law_product_monotone(q, whole(1), whole(100));
        crate::double::law_whole_numbers_multiply(1, 100);
        if part == all {
            assert(q.key() == whole(1).key());
            assert(q == whole(1));
        }
        if part == 0 {
            assert(q == whole(0));
            crate::double::law_whole_numbers_multiply(0, 100);
        }
    }
}

/// The largest of a list is not below any of it, and is one of it, or zero.
pub proof fn law_largest_is_not_below_any(s: Seq<Double>, n: nat)
    requires
        n <= s.len(),
        forall|k: int| 0 <= k < n ==> !(#[trigger] s[k]).nan(),
    ensures
        !max_upto(s, n).nan(),
        forall|k: int| 0 <= k < n ==> max_upto(s, n).ge(#[trigger] s[k]),
        max_upto(s, n) == Double::zero() || exists|k: int|
            0 <= k < n && #[trigger] s[k] == max_upto(s, n),
    decreases n,
{
    if n > 0 {
        law_largest_is_not_below_any(s, (n - 1) as nat);
        if max_upto(s, (n - 1) as nat).lt(s[n - 1]) {
            assert(s[n - 1] == max_upto(s, n));
        }
    }
}

proof fn lemma_equal_sum(s: Seq<Double>, c: nat, n: nat)
    requires
        n <= s.len(),
        forall|k: int| 0 <= k < s.len() ==> #[trigger] s[k] == whole(c),
        s.len() * c < TWO_52,
    ensures
        sum_upto(s, n) == whole(n * c),
    decreases n,
{
    if n > 0 {
        lemma_equal_sum(s, c, (n - 1) as nat);
        let m = (n - 1) as nat;
        assert(m * c + c == n * c && n * c <= s.len() * c) by (nonlinear_arith)
            requires
                m == n - 1,
                n <= s.len(),
                c >= 0,
        ;
        crate::double::law_whole_numbers_add_up(m * c, c);
    } else {
        crate::double::law_zero_and_one_are_whole();
        assert(0 * c == 0);
    }
}

/// The mean of equal numbers is that number, however many there are; the mean of none is
/// nothing.
pub proof fn law_mean_of_equals_is_their_value(s: Seq<Double>, c: nat)
    requires
        0 < s.len() < TWO_52,
        s.len() <= usize::MAX,
        forall|k: int| 0 <= k < s.len() ==> #[trigger] s[k] == whole(c),
        s.len() * c < TWO_52,
    ensures
        mean_of(s) == whole(c),
{
    let n = s.len();
    lemma_equal_sum(s, c, n);
    crate::double::law_zero_and_one_are_whole();
    crate::double::law_whole_numbers_ascend(0, 1);
    crate::double::law_indices_are_whole(n as usize, whole(0));
    assert(c <= n * c && n * c == c * n) by (nonlinear_arith)
        requires
            n > 0,
            c >= 0,
    ;
    crate::double::law_whole_quotients_compare(n * c, n, c);
    crate::double::law_whole_numbers_ascend(0, c);
    let q = whole(n * c).over(whole(n));
    assert(q.key() == whole(c).key());
    crate::double::law_whole_numbers_have_their_value(c);
}

} // verus!
