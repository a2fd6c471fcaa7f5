//! What benchmark cases measure of their vehicles, and how far a measure is off.

use crate::benchmarks::{
    deviation, graded, is_vacuous, largest_upto, measured_of, read, readings, readings_upto,
    BenchmarkCase, Reading,
};
use crate::double::{normal, p2, units, whole, Double, TWO_53};
use crate::model::VehicleView;
use crate::rates::near;
use crate::reference::error_of;
use crate::verification::{rel_err, CheckStatus};
use vstd::prelude::*;

verus! {

// ── Relative errors ──────────────────────────────────────────────────────────

/// The relative error of a measure that is above what is expected, in per cent.
pub open spec fn excess_pct(measured: Double, expected: Double) -> Double {
    measured.minus(expected).over(expected).abs().times(whole(100))
}

/// A relative error, times what is expected, is a hundred times the difference, up to
/// rounding, where the difference itself is a number that can be told.
proof fn lemma_excess(measured: Double, expected: Double)
    requires
        measured.finite() && expected.finite(),
        expected.gt(Double::zero()),
        measured.gt(expected),
        measured.minus(expected).finite() && measured.minus(expected).gt(Double::zero()),
        normal(measured.minus(expected).over(expected)),
        normal(excess_pct(measured, expected)),
    ensures
        near(
            units(excess_pct(measured, expected)) * units(expected),
            units(measured.minus(expected)) * 100 * p2(1074),
            3,
        ),
{
    let d = measured.minus(expected);
    let q = d.over(expected);
    assert(q.abs() == q);
    crate::cells::lemma_rate(d, expected, 100);
}

/// The three relative errors, of checks, of comparisons and of benchmark cases, are the
/// size of the difference over what is expected, in per cent; that of a check is held
/// below its ceiling. They vanish where the two are equal.
pub proof fn law_relative_errors_are_percentages(measured: Double, expected: Double)
    requires
        measured.finite() && expected.finite(),
        expected.gt(whole(1)),
        expected.le(whole(1_000_000_000)),
        measured.gt(expected),
        measured.minus(expected).finite() && measured.minus(expected).gt(Double::zero()),
        normal(measured.minus(expected).over(expected)),
        normal(excess_pct(measured, expected)),
    ensures
        ({
            let d = units(measured.minus(expected)) * 100 * p2(1074);
            &&& near(units(error_of(expected, measured)) * units(expected), d, 3)
            &&& near(units(deviation(expected, measured)) * units(expected), d, 3)
            &&& rel_err(measured, expected).le(whole(1_000_000_000))
            &&& excess_pct(measured, expected).le(whole(1_000_000_000)) ==> near(
                units(rel_err(measured, expected)) * units(expected),
                d,
                3,
            )
        }),
{
    crate::constants::law_whole_constants();
    crate::constants::law_fraction_constants();
    crate::double::law_zero_and_one_are_whole();
    crate::double::law_whole_numbers_ascend(0, 1);
    crate::double::law_whole_numbers_ascend(1, 1_000_000_000);
    lemma_excess(measured, expected);
    crate::double::law_whole_quotients_compare(1, 1_000_000_000_000, 1);
    let tiny = whole(1).over(whole(1_000_000_000_000));
    assert(tiny.le(whole(1)));
    assert(expected.abs() == expected);
}

/// Where measure and expectation are equal there is no error.
pub proof fn law_equal_measures_have_no_error(x: Double)
    requires
        x.finite() && x.gt(whole(1)),
    ensures
        rel_err(x, x).same(Double::zero()),
        error_of(x, x).same(Double::zero()),
        deviation(x, x).same(Double::zero()),
{
    let zero = Double::zero();
    crate::constants::law_whole_constants();
    crate::constants::law_fraction_constants();
    crate::double::law_zero_and_one_are_whole();
    crate::double::law_whole_numbers_ascend(0, 1);
    crate::double::law_difference_with_itself_vanishes(x);
    crate::double::law_zero_has_no_units();
    crate::double::law_quotient_keeps_order(zero, x, zero);
    assert(0 * units(x) == 0) by (nonlinear_arith);
    assert(zero.over(x) == zero);
    crate::double::law_whole_numbers_multiply(0, 100);
    crate::double::law_whole_numbers_ascend(0, 1_000_000_000);
    crate::double::law_whole_quotients_compare(1, 1_000_000_000_000, 1);
    assert(x.abs() == x);
}

/// A case passes below half a per cent of error, and fails from five per cent on.
pub proof fn law_cases_go_by_their_bounds(err: Double)
    requires
        !err.nan(),
    ensures
        graded(err) == CheckStatus::Pass <==> err.lt(whole(1).over(whole(2))),
        graded(err) == CheckStatus::Fail <==> err.ge(whole(5)),
        graded(err) != CheckStatus::NotExercised,
{
    crate::constants::law_whole_constants();
    crate::constants::law_fraction_constants();
    crate::double::law_whole_quotients_compare(1, 2, 1);
    crate::double::law_whole_numbers_ascend(1, 5);
}

// ── Measures ─────────────────────────────────────────────────────────────────

proof fn lemma_readings(r: Reading, v: Seq<VehicleView>, n: nat)
    requires
        n <= v.len(),
    ensures
        forall|k: int|
            0 <= k < n && read(r, #[trigger] v[k]) is Some ==> readings_upto(r, v, n).contains(
                read(r, v[k])->0,
            ),
        forall|x: Double| #[trigger]
            readings_upto(r, v, n).contains(x) ==> exists|k: int|
                0 <= k < n && read(r, #[trigger] v[k]) == Some(x),
    decreases n,
{
    if n > 0 {
        lemma_readings(r, v, (n - 1) as nat);
        let (less, all) = (readings_upto(r, v, (n - 1) as nat), readings_upto(r, v, n));
        assert forall|k: int| 0 <= k < n && read(r, #[trigger] v[k]) is Some implies all.contains(
            read(r, v[k])->0,
        ) by {
            if k < n - 1 {
                assert(less.contains(read(r, v[k])->0));
                let i = choose|i: int| 0 <= i < less.len() && less[i] == read(r, v[k])->0;
                assert(all[i] == less[i]);
            } else {
                assert(all[all.len() - 1] == read(r, v[k])->0);
            }
        }
        assert forall|x: Double| #[trigger] all.contains(x) implies exists|k: int|
            0 <= k < n && read(r, #[trigger] v[k]) == Some(x) by {
            let i = choose|i: int| 0 <= i < all.len() && all[i] == x;
            if i < less.len() {
                assert(less[i] == x);
                assert(less.contains(x));
                let k = choose|k: int| 0 <= k < n - 1 && read(r, #[trigger] v[k]) == Some(x);
                assert(read(r, v[k]) == Some(x));
            } else {
                assert(read(r, v[n - 1]) == Some(x));
            }
        }
    }
}

proof fn lemma_largest_of(start: Double, s: Seq<Double>, n: nat)
    requires
        n <= s.len(),
        !start.nan(),
        forall|k: int| 0 <= k < n ==> !(#[trigger] s[k]).nan(),
    ensures
        !largest_upto(start, s, n).nan(),
        largest_upto(start, s, n).ge(start),
        forall|k: int| 0 <= k < n ==> largest_upto(start, s, n).ge(#[trigger] s[k]),
        largest_upto(start, s, n) == start || exists|k: int|
            0 <= k < n && #[trigger] s[k] == largest_upto(start, s, n),
    decreases n,
{
    if n > 0 {
        lemma_largest_of(start, s, (n - 1) as nat);
        if largest_upto(start, s, (n - 1) as nat).lt(s[n - 1]) {
            assert(s[n - 1] == largest_upto(start, s, n));
        }
    }
}

/// The reading that a case takes the largest of.
pub open spec fn reading_of(case: BenchmarkCase) -> Option<Reading> {
    match case {
        BenchmarkCase::BottleneckDischarge => Some(Reading::Passage),
        BenchmarkCase::BusLaneImmunity => Some(Reading::BusTrip),
        BenchmarkCase::ShoulderExitThrough => Some(Reading::ThroughLink),
        BenchmarkCase::FrictionThrottle => Some(Reading::ThroughPassage),
        _ => None,
    }
}

/// A case that measures the worst measures it of its vehicles: what it gives is not below
/// what any of them had, and one of them had just that. The last passage of a bottleneck
/// and beside a spilled pipe are times at the second node, the trips of buses go from
/// first to last, and through traffic is measured on its first link.
pub proof fn law_cases_measure_their_worst_vehicle(
    case: BenchmarkCase,
    v: Seq<VehicleView>,
    k: int,
)
    requires
        reading_of(case) is Some,
        !is_vacuous(case, v),
        0 <= k < v.len(),
        v[k].node_times.len() >= 2,
        case == BenchmarkCase::BusLaneImmunity ==> v[k].class_id == 1,
        case == BenchmarkCase::ShoulderExitThrough || case == BenchmarkCase::FrictionThrottle
            ==> v[k].path.len() > 1 && v[k].path[1] == 1,
        forall|x: Double| #[trigger]
            readings(reading_of(case)->0, v).contains(x) ==> x.finite(),
    ensures
        ({
            let t = v[k].node_times;
            let m = measured_of(case, v);
            &&& case == BenchmarkCase::BottleneckDischarge || case
                == BenchmarkCase::FrictionThrottle ==> m.ge(t[1])
            &&& case == BenchmarkCase::ShoulderExitThrough ==> m.ge(t[1].minus(t[0]))
            &&& case == BenchmarkCase::BusLaneImmunity ==> m.ge(t[t.len() - 1].minus(t[0]))
            &&& exists|j: int|
                0 <= j < v.len() && read(reading_of(case)->0, #[trigger] v[j]) == Some(m)
        }),
{
    let r = reading_of(case)->0;
    let low = Double::from_bits(crate::constants::NEG_INFINITY);
    let all = readings(r, v);
    lemma_readings(r, v, v.len());
    assert(read(r, v[k]) is Some);
    assert(all.contains(read(r, v[k])->0));
    assert forall|i: int| 0 <= i < all.len() implies !(#[trigger] all[i]).nan() by {
        assert(all.contains(all[i]));
    }
    lemma_largest_of(low, all, all.len());
    let i = choose|i: int| 0 <= i < all.len() && all[i] == read(r, v[k])->0;
    let m = measured_of(case, v);
    assert(m == largest_upto(low, all, all.len()));
    assert(m.ge(all[i]));
    assert(all[i].finite());
    assert(m != low);
    let j = choose|j: int| 0 <= j < all.len() && #[trigger] all[j] == m;
    assert(all.contains(m));
}

/// A single vehicle in free flow is measured from its first to its last time, the wave of
/// a blocked shoulder by when its third vehicle enters.
pub proof fn law_cases_measure_single_vehicles(v: Seq<VehicleView>)
    ensures
        v.len() > 0 && v[0].node_times.len() > 0 ==> measured_of(BenchmarkCase::FreeFlowTransit, v)
            == v[0].node_times[v[0].node_times.len() - 1].minus(v[0].node_times[0]),
        v.len() > 2 && v[2].node_times.len() > 0 ==> measured_of(BenchmarkCase::ShoulderExitWave, v)
            == v[2].node_times[0],
{
}

/// Immunity of the buses means something exactly where some car has lost 200 seconds or
/// more against free flow.
pub proof fn law_immunity_needs_a_delayed_car(v: Seq<VehicleView>)
    requires
        forall|x: Double| #[trigger] readings(Reading::CarDelay, v).contains(x) ==> x.finite(),
    ensures
        !is_vacuous(BenchmarkCase::BusLaneImmunity, v) <==> exists|k: int|
            0 <= k < v.len() && (#[trigger] v[k]).class_id == 0 && v[k].node_times.len() == 3
                && v[k].node_times[2].minus(v[k].start_time).minus(whole(20)).ge(whole(200)),
{
    crate::constants::law_whole_constants();
    crate::double::law_zero_and_one_are_whole();
    crate::double::law_whole_numbers_ascend(0, 200);
    let r = Reading::CarDelay;
    let all = readings(r, v);
    lemma_readings(r, v, v.len());
    assert forall|i: int| 0 <= i < all.len() implies !(#[trigger] all[i]).nan() by {
        assert(all.contains(all[i]));
    }
    let zero = Double::zero();
    lemma_largest_of(zero, all, all.len());
    let most = largest_upto(zero, all, all.len());
    if most.ge(whole(200)) {
        crate::double::law_whole_numbers_have_their_value(200);
        assert(most != zero);
        let i = choose|i: int| 0 <= i < all.len() && #[trigger] all[i] == most;
        assert(all.contains(most));
        let k = choose|k: int| 0 <= k < v.len() && read(r, #[trigger] v[k]) == Some(most);
        assert(v[k].class_id == 0);
    }
    if exists|k: int|
        0 <= k < v.len() && (#[trigger] v[k]).class_id == 0 && v[k].node_times.len() == 3
            && v[k].node_times[2].minus(v[k].start_time).minus(whole(20)).ge(whole(200)) {
        let k = choose|k: int|
            0 <= k < v.len() && (#[trigger] v[k]).class_id == 0 && v[k].node_times.len() == 3
                && v[k].node_times[2].minus(v[k].start_time).minus(whole(20)).ge(whole(200));
        assert(read(r, v[k]) is Some);
        assert(all.contains(read(r, v[k])->0));
        let i = choose|i: int| 0 <= i < all.len() && all[i] == read(r, v[k])->0;
        assert(most.ge(all[i]));
    }
}

/// The rate between sorted times, times the span between the first and the last, is the
/// number of steps, up to a rounding.
pub proof fn law_rate_is_steps_over_span(s: Seq<Double>)
    requires
        2 <= s.len() < TWO_53,
        s.len() <= usize::MAX,
        s.last().minus(s[0]).finite() && s.last().minus(s[0]).gt(Double::zero()),
        normal(crate::benchmarks::rate_of(s)),
    ensures
        near(
            units(crate::benchmarks::rate_of(s)) * units(s.last().minus(s[0])),
            (s.len() - 1) * p2(1074) * p2(1074),
            1,
        ),
{
    let n = (s.len() - 1) as nat;
    crate::double::law_zero_and_one_are_whole();
    crate::double::law_whole_numbers_ascend(0, 1);
    crate::double::law_indices_are_whole(s.len() as usize, whole(0));
    crate::double::law_whole_numbers_subtract(s.len(), 1);
    crate::double::law_whole_numbers_have_their_value(n);
    crate::double::law_quotient_is_nearly_exact(whole(n), s.last().minus(s[0]));
}

} // verus!
