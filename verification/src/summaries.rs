//! What the digest of a run says, told by its observations and vehicles.

use crate::diagnostics::{mean_of, sum_upto, DiagnosticsSummary, FDPoint, FDRegime, NodeBalance};
use crate::digest::{
    ascending, congestion_finding, conservation_finding, conservation_grade, distance_upto,
    exit_finding, exit_grade, exited_km, exited_times, fd_finding, fd_grade, internal_upto,
    link_agg_of, node_agg_of, percentile_of, slowest_first, travel_of, unexited_upto,
    worst_finding, worst_upto, Finding, LinkAgg, NodeAgg, VehStats,
};
use crate::double::{whole, Double, TWO_52};
use crate::model::{Link, LinkID, Node, NodeID, Vehicle, VehicleState};
use vstd::prelude::*;

verus! {

// ── Percentiles ──────────────────────────────────────────────────────────────

/// A percentile is one of the values: none per cent is the first, a hundred the last, and
/// a higher share never gives an earlier one.
pub proof fn law_percentiles_go_through_the_values(s: Seq<Double>, p: nat, q: nat)
    requires
        0 < s.len() < TWO_52,
        s.len() <= usize::MAX,
        p <= q <= 100,
        forall|i: int, j: int| 0 <= i <= j < s.len() ==> (#[trigger] s[i]).le(#[trigger] s[j]),
    ensures
        s.contains(percentile_of(s, whole(p))),
        percentile_of(s, whole(0)) == s[0],
        percentile_of(s, whole(100)) == s[s.len() - 1],
        percentile_of(s, whole(p)).le(percentile_of(s, whole(q))),
{
    let n = (s.len() - 1) as nat;
    crate::constants::law_whole_constants();
    crate::double::law_zero_and_one_are_whole();
    crate::double::law_whole_numbers_ascend(0, 1);
    crate::double::law_whole_numbers_ascend(p, q);
    crate::double::law_whole_numbers_ascend(0, n);
    crate::double::law_whole_numbers_ascend(q, 100);
    crate::double::law_indices_are_whole(n as usize, whole(0));
    crate::double::law_whole_numbers_have_their_value(p);
    crate::double::law_whole_numbers_have_their_value(q);
    crate::double::law_whole_numbers_have_their_value(100);
    crate::double::law_whole_quotients_compare(p, 100, 1);
    crate::double::law_whole_quotients_compare(q, 100, 1);
    crate::double::law_whole_quotients_compare(0, 100, 0);
    crate::double::law_whole_quotients_compare(100, 100, 1);
    crate::double::law_quotient_monotone(whole(p), whole(q), whole(100));
    let (a, b) = (whole(p).over(whole(100)), whole(q).over(whole(100)));
    crate::double::law_product_monotone(a, b, whole(n));
    crate::double::law_product_monotone(b, whole(1), whole(n));
    crate::double::law_whole_numbers_multiply(1, n);
    crate::double::law_whole_numbers_multiply(0, n);
    assert(whole(100).over(whole(100)) == whole(1));
    assert(whole(0).over(whole(100)) == whole(0));
    let (x, y) = (a.times(whole(n)), b.times(whole(n)));
    assert(x.le(y) && y.le(whole(n)));
    crate::double::law_integer_parts_ascend(x, y);
    crate::double::law_integer_parts_ascend(y, whole(n));
    crate::double::law_product_keeps_order(a, whole(n), whole(0));
    crate::double::law_product_keeps_order(b, whole(n), whole(0));
    crate::double::law_indices_are_whole(n as usize, x);
    crate::double::law_indices_are_whole(n as usize, y);
    crate::double::law_indices_are_whole(n as usize, whole(n));
    crate::double::law_indices_are_whole(n as usize, whole(0));
}

// ── Grades and findings ──────────────────────────────────────────────────────

/// Grades: a mean error of the diagram is good below 5 % and acceptable below 20 %, one of
/// conservation good below 1 % and acceptable below 5 %, and exits are in order from 99 %
/// on and a failure below 90 %.
pub proof fn law_grades_go_by_their_bounds(err: Double)
    requires
        !err.nan(),
    ensures
        fd_grade(err) == if err.ge(whole(20)) {
            "POOR"@
        } else if err.ge(whole(5)) {
            "ACCEPTABLE"@
        } else {
            "GOOD"@
        },
        conservation_grade(err) == if err.ge(whole(5)) {
            "POOR"@
        } else if err.ge(whole(1)) {
            "ACCEPTABLE"@
        } else {
            "GOOD"@
        },
        exit_grade(err) == if err.lt(whole(90)) {
            "FAIL"@
        } else if err.lt(whole(99)) {
            "WARN"@
        } else {
            "OK"@
        },
{
    crate::constants::law_whole_constants();
    crate::double::law_zero_and_one_are_whole();
    crate::double::law_whole_numbers_ascend(1, 5);
    crate::double::law_whole_numbers_ascend(5, 20);
    crate::double::law_whole_numbers_ascend(90, 99);
}

/// Findings: below 80 % of exits many are missing, below 95 % some, and how many is told;
/// a mean error of the diagram is high above 20 % and moderate above 5 %, one of
/// conservation poor above 5 % and residual above 1 %; congestion is high above 70 % of
/// the bins and notable above 30 %.
pub proof fn law_findings_go_by_their_bounds(s: DiagnosticsSummary, err: Double, pct: Double)
    requires
        !s.pct_exited.nan(),
        !err.nan(),
        !pct.nan(),
        s.exited_vehicles <= s.total_vehicles,
    ensures
        exit_finding(s) is None <==> s.pct_exited.ge(whole(95)),
        exit_finding(s) is Some && exit_finding(s)->0 is ManyUnexited <==> s.pct_exited.lt(
            whole(80),
        ),
        exit_finding(s) is Some ==> (exit_finding(s)->0 matches Finding::SomeUnexited {
            count,
            pct_left,
        } ==> count == s.total_vehicles - s.exited_vehicles && pct_left == whole(100).minus(
            s.pct_exited,
        )),
        fd_finding(err) is FdDeviationHigh <==> err.gt(whole(20)),
        fd_finding(err) is FdDeviationLow <==> err.le(whole(5)),
        conservation_finding(err) is ConservationPoor <==> err.gt(whole(5)),
        conservation_finding(err) is ConservationGood <==> err.le(whole(1)),
        congestion_finding(pct) is None <==> pct.le(whole(30)),
        congestion_finding(pct) is Some && congestion_finding(pct)->0 is CongestionHigh
            <==> pct.gt(whole(70)),
{
    crate::constants::law_whole_constants();
    crate::double::law_zero_and_one_are_whole();
    crate::double::law_whole_numbers_ascend(1, 5);
    crate::double::law_whole_numbers_ascend(5, 20);
    crate::double::law_whole_numbers_ascend(30, 70);
    crate::double::law_whole_numbers_ascend(80, 95);
}

/// The worst observation, if there is one, has the largest error of all that are in no
/// overflowing queue.
pub proof fn law_worst_observation_has_the_largest_error(points: Seq<FDPoint>, n: nat, k: int)
    requires
        0 <= k < n <= points.len(),
        points[k].regime != FDRegime::QueueOverflow,
        forall|j: int| 0 <= j < n ==> !(#[trigger] points[j]).error_pct.nan(),
    ensures
        match worst_upto(points, n) {
            Some(w) => w.regime != FDRegime::QueueOverflow && w.error_pct.abs().ge(
                points[k].error_pct.abs(),
            ) && !w.error_pct.nan(),
            None => points[k].error_pct.abs().same(Double::zero()),
        },
    decreases n,
{
    reveal_with_fuel(worst_upto, 2);
    lemma_worst_is_seen(points, n);
    if n > 1 {
        lemma_worst_is_seen(points, (n - 1) as nat);
        if k < n - 1 {
            law_worst_observation_has_the_largest_error(points, (n - 1) as nat, k);
        }
    }
    assert(!points[n - 1].error_pct.nan());
}

proof fn lemma_worst_is_seen(points: Seq<FDPoint>, n: nat)
    requires
        n <= points.len(),
        forall|j: int| 0 <= j < n ==> !(#[trigger] points[j]).error_pct.nan(),
    ensures
        worst_upto(points, n) matches Some(w) ==> w.regime != FDRegime::QueueOverflow
            && !w.error_pct.nan() && w.error_pct.abs().gt(Double::zero()),
    decreases n,
{
    if n > 0 {
        lemma_worst_is_seen(points, (n - 1) as nat);
        assert(!points[n - 1].error_pct.nan());
    }
}

/// A link is named as the worst exactly where an observation, overflowing queues left out,
/// is off by more than thirty percent, to either side.
pub proof fn law_worst_link_is_off_by_thirty_percent(points: Seq<FDPoint>, k: int)
    requires
        0 <= k < points.len(),
        forall|j: int| 0 <= j < points.len() ==> !(#[trigger] points[j]).error_pct.nan(),
    ensures
        worst_finding(points) matches Some(f) ==> f matches Finding::WorstLink { link, max_err }
            && max_err.gt(whole(30)) && exists|j: int|
            0 <= j < points.len() && (#[trigger] points[j]).link_id == link
                && points[j].error_pct.abs() == max_err && points[j].regime
                != FDRegime::QueueOverflow,
        points[k].regime != FDRegime::QueueOverflow && points[k].error_pct.abs().gt(whole(30))
            ==> worst_finding(points) is Some,
{
    crate::constants::law_whole_constants();
    crate::double::law_zero_and_one_are_whole();
    crate::double::law_whole_numbers_ascend(0, 30);
    lemma_worst_is_one(points, points.len());
    if points[k].regime != FDRegime::QueueOverflow {
        law_worst_observation_has_the_largest_error(points, points.len(), k);
    }
}

proof fn lemma_worst_is_one(points: Seq<FDPoint>, n: nat)
    requires
        n <= points.len(),
    ensures
        worst_upto(points, n) matches Some(w) ==> w.regime != FDRegime::QueueOverflow && exists|
            j: int,
        |
            0 <= j < n && #[trigger] points[j] == w,
    decreases n,
{
    if n > 0 {
        lemma_worst_is_one(points, (n - 1) as nat);
        if let Some(w) = worst_upto(points, n) {
            if worst_upto(points, (n - 1) as nat) == Some(w) {
                let j = choose|j: int| 0 <= j < n - 1 && #[trigger] points[j] == w;
                assert(points[j] == w);
            } else {
                assert(points[n - 1] == w);
            }
        }
    }
}

/// The distance gone by those who have left is summed over them alone: whoever is still
/// in the network adds nothing to it.
pub proof fn law_distance_is_summed_over_those_who_left(stats: Seq<VehStats>, n: nat)
    requires
        n <= stats.len(),
    ensures
        ({
            let left = stats.take(n as int).filter(|v: VehStats| v.exited).map_values(
                |v: VehStats| v.dist_km,
            );
            exited_km(stats, n) == sum_upto(left, left.len())
        }),
    decreases n,
{
    let f = |v: VehStats| v.exited;
    let g = |v: VehStats| v.dist_km;
    if n > 0 {
        law_distance_is_summed_over_those_who_left(stats, (n - 1) as nat);
        let shorter = stats.take(n - 1);
        let longer = stats.take(n as int);
        assert(longer.drop_last() =~= shorter);
        reveal(Seq::filter);
        if stats[n - 1].exited {
            let before = shorter.filter(f).map_values(g);
            assert(longer.filter(f) =~= shorter.filter(f).push(stats[n - 1]));
            assert(longer.filter(f).map_values(g) =~= before.push(stats[n - 1].dist_km));
            lemma_sum_push(before, stats[n - 1].dist_km, before.len());
        }
    } else {
        reveal(Seq::filter);
        assert(stats.take(0).filter(f).map_values(g) =~= Seq::<Double>::empty());
    }
}

// ── Aggregates ───────────────────────────────────────────────────────────────

/// The observations of a link in a regime.
pub open spec fn bins_in(points: Seq<FDPoint>, id: LinkID, regime: FDRegime) -> Seq<FDPoint> {
    points.filter(|p: FDPoint| p.link_id == id && p.regime == regime)
}

/// The sizes of the errors of a link, overflowing queues left out.
pub open spec fn errors_on(points: Seq<FDPoint>, id: LinkID) -> Seq<Double> {
    points.filter(
        |p: FDPoint| p.link_id == id && p.regime != FDRegime::QueueOverflow,
    ).map_values(|p: FDPoint| p.error_pct.abs())
}

proof fn lemma_sum_push(s: Seq<Double>, x: Double, n: nat)
    requires
        n <= s.len(),
    ensures
        sum_upto(s.push(x), n) == sum_upto(s, n),
    decreases n,
{
    if n > 0 {
        lemma_sum_push(s, x, (n - 1) as nat);
    }
}

proof fn lemma_agg(points: Seq<FDPoint>, id: LinkID, n: nat)
    requires
        n <= points.len() <= usize::MAX,
    ensures
        ({
            let part = points.take(n as int);
            let errors = errors_on(part, id);
            match LinkAgg::over_points(points, id, n) {
                None => part.filter(|p: FDPoint| p.link_id == id).len() == 0 && errors.len() == 0,
                Some(a) => {
                    &&& part.filter(|p: FDPoint| p.link_id == id).len() > 0
                    &&& a.free_bins == bins_in(part, id, FDRegime::FreeFlow).len()
                    &&& a.cong_bins == bins_in(part, id, FDRegime::Congested).len()
                    &&& a.overflow_bins == bins_in(part, id, FDRegime::QueueOverflow).len()
                    &&& a.free_bins + a.cong_bins == errors.len()
                    &&& a.free_bins + a.cong_bins + a.overflow_bins <= n
                    &&& a.mean_err == sum_upto(errors, errors.len())
                },
            }
        }),
    decreases n,
{
    reveal(Seq::filter);
    let part = points.take(n as int);
    let f = |p: FDPoint| p.link_id == id && p.regime != FDRegime::QueueOverflow;
    let g = |p: FDPoint| p.error_pct.abs();
    if n > 0 {
        lemma_agg(points, id, (n - 1) as nat);
        let less = points.take(n - 1);
        assert(part.drop_last() =~= less);
        let p = points[n - 1];
        assert(part.last() == p);
        if f(p) {
            assert(errors_on(part, id) =~= errors_on(less, id).push(g(p)));
            lemma_sum_push(errors_on(less, id), g(p), errors_on(less, id).len());
        }
        if LinkAgg::over_points(points, id, (n - 1) as nat) is None {
            lemma_none_in(less, id);
        }
    } else {
        assert(part =~= Seq::<FDPoint>::empty());
        assert(errors_on(part, id) =~= Seq::<Double>::empty());
    }
}

/// Without an observation of a link there is none in any regime.
proof fn lemma_none_in(points: Seq<FDPoint>, id: LinkID)
    requires
        points.filter(|p: FDPoint| p.link_id == id).len() == 0,
    ensures
        bins_in(points, id, FDRegime::FreeFlow).len() == 0,
        bins_in(points, id, FDRegime::Congested).len() == 0,
        bins_in(points, id, FDRegime::QueueOverflow).len() == 0,
        errors_on(points, id) =~= Seq::<Double>::empty(),
    decreases points.len(),
{
    reveal(Seq::filter);
    if points.len() > 0 {
        lemma_none_in(points.drop_last(), id);
    }
}

/// What a digest says of a link counts its own observations by regime, and averages the
/// sizes of their errors, overflowing queues left out; it says nothing of a link without
/// any.
pub proof fn law_link_digest_counts_its_bins(points: Seq<FDPoint>, id: LinkID)
    requires
        points.len() <= usize::MAX,
        points.len() < TWO_52,
    ensures
        link_agg_of(points, id) is None <==> points.filter(|p: FDPoint| p.link_id == id).len() == 0,
        link_agg_of(points, id) matches Some(a) ==> {
            &&& a.free_bins == bins_in(points, id, FDRegime::FreeFlow).len()
            &&& a.cong_bins == bins_in(points, id, FDRegime::Congested).len()
            &&& a.overflow_bins == bins_in(points, id, FDRegime::QueueOverflow).len()
            &&& a.mean_err == mean_of(errors_on(points, id))
        },
{
    lemma_agg(points, id, points.len());
    assert(points.take(points.len() as int) =~= points);
    if let Some(a) = LinkAgg::over_points(points, id, points.len()) {
        let n = (a.free_bins + a.cong_bins) as nat;
        crate::double::law_zero_and_one_are_whole();
        crate::double::law_whole_numbers_ascend(0, 1);
        crate::double::law_indices_are_whole(n as usize, whole(0));
        crate::double::law_whole_numbers_have_their_value(n);
        crate::double::law_whole_numbers_ascend(0, n);
        if n == 0 {
            assert(errors_on(points, id).len() == 0);
            assert(sum_upto(errors_on(points, id), 0) == Double::zero());
        } else {
            assert(whole(n).gt(Double::zero()));
        }
    }
}

/// The sizes of the errors of a node.
pub open spec fn errors_at(balances: Seq<NodeBalance>, id: NodeID) -> Seq<Double> {
    balances.filter(|b: NodeBalance| b.node_id == id).map_values(
        |b: NodeBalance| b.error_pct.abs(),
    )
}

proof fn lemma_node_agg(balances: Seq<NodeBalance>, id: NodeID, n: nat)
    requires
        n <= balances.len() <= usize::MAX,
    ensures
        ({
            let errors = errors_at(balances.take(n as int), id);
            match NodeAgg::over_balances(balances, id, n) {
                None => errors.len() == 0,
                Some(a) => errors.len() > 0 && a.bins == errors.len() && a.bins <= n && a.mean_err
                    == sum_upto(errors, errors.len()),
            }
        }),
    decreases n,
{
    reveal(Seq::filter);
    let part = balances.take(n as int);
    if n > 0 {
        lemma_node_agg(balances, id, (n - 1) as nat);
        let less = balances.take(n - 1);
        assert(part.drop_last() =~= less);
        let b = balances[n - 1];
        assert(part.last() == b);
        if b.node_id == id {
            assert(errors_at(part, id) =~= errors_at(less, id).push(b.error_pct.abs()));
            lemma_sum_push(errors_at(less, id), b.error_pct.abs(), errors_at(less, id).len());
            assert(sum_upto(errors_at(less, id), 0) == Double::zero());
        }
    } else {
        assert(part =~= Seq::<NodeBalance>::empty());
        assert(errors_at(part, id) =~= Seq::<Double>::empty());
    }
}

/// What a digest says of a node counts its own bins and averages the sizes of their
/// errors.
pub proof fn law_node_digest_averages_its_bins(balances: Seq<NodeBalance>, id: NodeID)
    requires
        balances.len() <= usize::MAX,
    ensures
        node_agg_of(balances, id) is None <==> errors_at(balances, id).len() == 0,
        node_agg_of(balances, id) matches Some(a) ==> a.bins == errors_at(balances, id).len()
            && a.mean_err == mean_of(errors_at(balances, id)),
{
    lemma_node_agg(balances, id, balances.len());
    assert(balances.take(balances.len() as int) =~= balances);
}

// ── Trips ────────────────────────────────────────────────────────────────────

/// A trip is told by its first and last passage: it takes the time between them, over the
/// links that were completed, and its speed is that distance over that time, in km/h.
pub proof fn law_trip_is_told_by_its_ends(v: Vehicle, links: Seq<Link>)
    ensures
        travel_of(v, links) is Some <==> v.node_times@.len() > 0 && v.path@.len() > 0,
        travel_of(v, links) matches Some(t) ==> {
            let last = v.node_times@[v.node_times@.len() - 1];
            &&& t.id == v.id && t.origin == v.origin && t.destination == v.destination
            &&& t.start_s == v.node_times@[0]
            &&& t.travel_s == last.minus(v.node_times@[0])
            &&& t.exited == (v.state == VehicleState::Exited)
            &&& v.node_times@.len() <= v.path@.len() + 1 ==> t.dist_km == distance_upto(
                v.path@,
                links,
                (v.node_times@.len() - 1) as nat,
            )
            &&& t.travel_s.gt(Double::zero()) ==> t.speed_kmh == t.dist_km.over(t.travel_s).times(
                whole(3600),
            )
        },
{
    crate::constants::law_whole_constants();
}

/// A distance adds up the lengths of the links, in kilometres.
pub proof fn law_distance_adds_up_lengths(path: Seq<LinkID>, links: Seq<Link>, k: nat)
    requires
        k < path.len(),
        path[k as int] < links.len(),
    ensures
        distance_upto(path, links, 0) == Double::zero(),
        distance_upto(path, links, k + 1) == distance_upto(path, links, k).plus(
            links[path[k as int] as int].length.over(whole(1000)),
        ),
{
    crate::constants::law_whole_constants();
}

/// The travel times of a digest are those of the trips that have ended, and the trips that
/// have not are listed apart.
pub proof fn law_ended_and_open_trips_are_told_apart(stats: Seq<VehStats>, n: nat)
    requires
        n <= stats.len(),
    ensures
        exited_times(stats, n) == stats.take(n as int).filter(|t: VehStats| t.exited).map_values(
            |t: VehStats| t.travel_s,
        ),
        unexited_upto(stats, n) == stats.take(n as int).filter(|t: VehStats| !t.exited),
    decreases n,
{
    reveal(Seq::filter);
    let f = |t: VehStats| t.exited;
    let g = |t: VehStats| t.travel_s;
    if n > 0 {
        law_ended_and_open_trips_are_told_apart(stats, (n - 1) as nat);
        let (part, less) = (stats.take(n as int), stats.take(n - 1));
        assert(part.drop_last() =~= less);
        assert(less.filter(f).push(part.last()).map_values(g) =~= less.filter(f).map_values(
            g,
        ).push(g(part.last())));
    } else {
        assert(stats.take(0) =~= Seq::<VehStats>::empty());
        assert(stats.take(0).filter(f).map_values(g) =~= Seq::<Double>::empty());
        assert(unexited_upto(stats, 0) =~= Seq::<VehStats>::empty());
    }
}

/// Times ascend in a digest, and the slowest trips come first.
pub proof fn law_trips_are_listed_by_their_times(times: Seq<Double>, trips: Seq<VehStats>)
    requires
        times.len() <= usize::MAX,
        trips.len() <= usize::MAX,
    ensures
        ascending(times).len() == times.len(),
        slowest_first(trips).len() == trips.len(),
        forall|i: int, j: int|
            0 <= i < j < times.len() ==> (#[trigger] ascending(times)[i]).key() <= (
            #[trigger] ascending(times)[j]).key(),
        forall|i: int, j: int|
            0 <= i < j < trips.len() ==> (#[trigger] slowest_first(trips)[i]).travel_s.key() >= (
            #[trigger] slowest_first(trips)[j]).travel_s.key(),
        forall|k: int| 0 <= k < times.len() ==> ascending(times).contains(#[trigger] times[k]),
        forall|k: int| 0 <= k < trips.len() ==> slowest_first(trips).contains(#[trigger] trips[k]),
{
    let keys = crate::digest::keys_of(times);
    let slow = crate::digest::slowness(trips);
    crate::order::law_sorted_tags(keys);
    crate::order::law_sorted_tags(slow);
    assert forall|i: int, j: int| 0 <= i < j < times.len() implies (#[trigger] ascending(
        times,
    )[i]).key() <= (#[trigger] ascending(times)[j]).key() by {
        let (a, b) = (crate::order::origin(keys, i), crate::order::origin(keys, j));
        assert(keys[a] <= keys[b]);
    }
    assert forall|i: int, j: int| 0 <= i < j < trips.len() implies (#[trigger] slowest_first(
        trips,
    )[i]).travel_s.key() >= (#[trigger] slowest_first(trips)[j]).travel_s.key() by {
        let (a, b) = (crate::order::origin(slow, i), crate::order::origin(slow, j));
        assert(slow[a] <= slow[b]);
    }
    assert forall|k: int| 0 <= k < times.len() implies ascending(times).contains(
        #[trigger] times[k],
    ) by {
        assert(crate::order::occurs(keys, k));
        let i = choose|i: int| 0 <= i < keys.len() && #[trigger] crate::order::origin(keys, i) == k;
        assert(ascending(times)[i] == times[k]);
    }
    assert forall|k: int| 0 <= k < trips.len() implies slowest_first(trips).contains(
        #[trigger] trips[k],
    ) by {
        assert(crate::order::occurs(slow, k));
        let i = choose|i: int| 0 <= i < slow.len() && #[trigger] crate::order::origin(slow, i) == k;
        assert(slowest_first(trips)[i] == trips[k]);
    }
}

/// Internal nodes are those with links into them and out of them.
pub proof fn law_internal_nodes_are_counted(nodes: Seq<Node>, n: nat)
    requires
        n <= nodes.len(),
    ensures
        internal_upto(nodes, n) == nodes.take(n as int).filter(
            |x: Node| x.incoming_links@.len() > 0 && x.outgoing_links@.len() > 0,
        ).len(),
    decreases n,
{
    reveal(Seq::filter);
    if n > 0 {
        law_internal_nodes_are_counted(nodes, (n - 1) as nat);
        assert(nodes.take(n as int).drop_last() =~= nodes.take(n - 1));
    } else {
        assert(nodes.take(0) =~= Seq::<Node>::empty());
    }
}

} // verus!
