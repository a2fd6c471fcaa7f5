//! Comparison of a simulation with observed measurements.
//!
//! An observation is what a detector gives for one link over a window of time.
//! Flows are compared by the GEH statistic, the usual measure of calibration:
//! below 5 is acceptable, above 10 it is not. Speeds are compared by their
//! relative error.

use crate::constants::{
    FIVE, HUNDRED, KMH_PER_MS, SECONDS_PER_HOUR, TEN, TWENTY_FIVE, TWO,
};
use crate::diagnostics::mean;
use crate::double::Double;
use crate::model::{Link, LinkID, Scenario, Vehicle, VehicleView};
use crate::verification::CheckStatus;
use vstd::prelude::*;

verus! {

/// One measurement on a link over a window.
#[derive(Debug, Clone)]
pub struct ObservedRecord {
    pub link_id: LinkID,
    /// Window in absolute simulation seconds.
    pub t_start: Double,
    pub t_end: Double,
    pub flow_veh_h: Option<Double>,
    pub speed_kmh: Option<Double>,
    pub label: Option<String>,
}

#[derive(Debug, Clone, Copy, PartialEq, Eq, Structural)]
pub enum ReferenceKind {
    Flow,
    Speed,
}

/// One comparison of the simulation with a measurement.
#[derive(Debug)]
pub struct ReferenceCheck {
    pub link_id: LinkID,
    pub label: Option<String>,
    pub t_start: Double,
    pub t_end: Double,
    pub kind: ReferenceKind,
    pub observed: Double,
    pub simulated: Double,
    /// GEH statistic, for flows.
    pub geh: Option<Double>,
    pub error_pct: Double,
    pub status: CheckStatus,
}

#[derive(Debug)]
pub struct ReferenceReport {
    pub checks: Vec<ReferenceCheck>,
    pub n_pass: usize,
    pub n_warn: usize,
    pub n_fail: usize,
}

// ── Measures ─────────────────────────────────────────────────────────────────

/// `g` is the GEH statistic of a simulated and an observed flow:
/// the root of `2 (m - o)^2 / (m + o)`.
pub open spec fn is_geh(m: Double, o: Double, g: Double) -> bool {
    if m.plus(o).le(Double::zero()) {
        g == Double::zero()
    } else {
        g.is_sqrt_of(
            Double::from_bits(TWO).times(m.minus(o).times(m.minus(o))).over(m.plus(o)),
        )
    }
}

/// The GEH statistic of a simulated and an observed flow.
pub fn geh(m: Double, o: Double) -> (g: Double)
    ensures
        is_geh(m, o, g),
{
    if m.plus(o).le(Double::zero()) {
        return Double::zero();
    }
    let d: Double = m.minus(o);
    Double::from_bits(TWO).times(d.times(d)).over(m.plus(o)).sqrt()
}

/// Relative error in per cent; zero where nothing was observed.
pub open spec fn error_of(observed: Double, simulated: Double) -> Double {
    if observed.gt(Double::zero()) {
        simulated.minus(observed).over(observed).abs().times(Double::from_bits(HUNDRED))
    } else {
        Double::zero()
    }
}

fn compute_error(observed: Double, simulated: Double) -> (r: Double)
    ensures
        r == error_of(observed, simulated),
{
    if observed.gt(Double::zero()) {
        simulated.minus(observed).over(observed).abs().times(Double::from_bits(HUNDRED))
    } else {
        Double::zero()
    }
}

/// The grade of a measure that should be small.
pub open spec fn graded(x: Double, pass: Double, warn: Double) -> CheckStatus {
    if x.lt(pass) {
        CheckStatus::Pass
    } else if x.lt(warn) {
        CheckStatus::Warn
    } else {
        CheckStatus::Fail
    }
}

/// The grade of a GEH statistic: below 5 is acceptable, up to 10 warrants
/// caution, above 10 is unacceptable.
pub open spec fn graded_flow(g: Double) -> CheckStatus {
    if g.lt(Double::from_bits(FIVE)) {
        CheckStatus::Pass
    } else if g.le(Double::from_bits(TEN)) {
        CheckStatus::Warn
    } else {
        CheckStatus::Fail
    }
}

fn grade_flow(g: Double) -> (r: CheckStatus)
    ensures
        r == graded_flow(g),
{
    if g.lt(Double::from_bits(FIVE)) {
        CheckStatus::Pass
    } else if g.le(Double::from_bits(TEN)) {
        CheckStatus::Warn
    } else {
        CheckStatus::Fail
    }
}

fn grade(x: Double, pass: Double, warn: Double) -> (r: CheckStatus)
    ensures
        r == graded(x, pass, warn),
{
    if x.lt(pass) {
        CheckStatus::Pass
    } else if x.lt(warn) {
        CheckStatus::Warn
    } else {
        CheckStatus::Fail
    }
}

// ── The simulated window ─────────────────────────────────────────────────────

pub open spec fn within(t: Double, t_start: Double, t_end: Double) -> bool {
    t.ge(t_start) && t.lt(t_end)
}

/// Vehicles that leave a link in a window, and the travel times of those that
/// enter it then, over the first `k` links of a path.
pub open spec fn seen_along(
    acc: (nat, Seq<Double>),
    v: VehicleView,
    link: LinkID,
    t_start: Double,
    t_end: Double,
    k: nat,
) -> (nat, Seq<Double>)
    decreases k,
{
    if k == 0 {
        acc
    } else {
        let before = seen_along(acc, v, link, t_start, t_end, (k - 1) as nat);
        let i = k - 1;
        if v.path[i] == link && i + 1 < v.node_times.len() {
            let (t_in, t_out) = (v.node_times[i], v.node_times[i + 1]);
            (
                before.0 + if within(t_out, t_start, t_end) {
                    1nat
                } else {
                    0
                },
                if within(t_in, t_start, t_end) {
                    before.1.push(t_out.minus(t_in))
                } else {
                    before.1
                },
            )
        } else {
            before
        }
    }
}

/// The same over the first `n` vehicles.
pub open spec fn seen_upto(
    vehicles: Seq<VehicleView>,
    link: LinkID,
    t_start: Double,
    t_end: Double,
    n: nat,
) -> (nat, Seq<Double>)
    decreases n,
{
    if n == 0 {
        (0, Seq::empty())
    } else {
        seen_along(
            seen_upto(vehicles, link, t_start, t_end, (n - 1) as nat),
            vehicles[n - 1],
            link,
            t_start,
            t_end,
            vehicles[n - 1].path.len(),
        )
    }
}

/// Simulated flow (veh/h) and space-mean speed (km/h) of a link over a window.
pub open spec fn simulated(s: Scenario, link: LinkID, t_start: Double, t_end: Double) -> (
    Option<Double>,
    Option<Double>,
) {
    let window = t_end.minus(t_start);
    if window.le(Double::zero()) || link >= s.links@.len() {
        (None, None)
    } else {
        let v = crate::simulation::vehicle_views(s.vehicles@);
        let (exits, times) = seen_upto(v, link, t_start, t_end, v.len());
        let mean = crate::diagnostics::mean_of(times);
        (
            Some(
                Double::from_usize(crate::model::capped(exits)).times(
                    Double::from_bits(SECONDS_PER_HOUR),
                ).over(window),
            ),
            if times.len() > 0 && mean.gt(Double::zero()) {
                Some(
                    s.links@[link as int].length.over(mean).times(Double::from_bits(KMH_PER_MS)),
                )
            } else {
                None
            },
        )
    }
}

/// Simulated flow (veh/h) and space-mean speed (km/h) of a link over a window:
/// the vehicles that leave it then, and the mean travel time of those that enter
/// it then. None where the window is empty or the link does not exist.
pub fn simulate_window(
    scenario: &Scenario,
    link_id: LinkID,
    t_start: Double,
    t_end: Double,
) -> (r: (Option<Double>, Option<Double>))
    ensures
        r == simulated(*scenario, link_id, t_start, t_end),
{
    let window: Double = t_end.minus(t_start);
    if window.le(Double::zero()) {
        return (None, None);
    }
    if link_id >= scenario.links.len() {
        return (None, None);
    }
    let link: &Link = &scenario.links[link_id];
    let ghost views = crate::simulation::vehicle_views(scenario.vehicles@);
    let ghost mut total: nat = 0;
    let mut exits: usize = 0;
    let mut times: Vec<Double> = Vec::new();
    let mut j: usize = 0;
    assert(times@ =~= Seq::empty());
    while j < scenario.vehicles.len()
        invariant
            views == crate::simulation::vehicle_views(scenario.vehicles@),
            j <= scenario.vehicles@.len(),
            exits == crate::model::capped(total),
            (total, times@) == seen_upto(views, link_id, t_start, t_end, j as nat),
        decreases scenario.vehicles@.len() - j,
    {
        let veh: &Vehicle = &scenario.vehicles[j];
        let ghost v = veh@;
        assert(views[j as int] == v);
        let ghost acc = (total, times@);
        let n: usize = veh.node_times.len();
        let mut i: usize = 0;
        while i < veh.path.len()
            invariant
                v == veh@,
                n == v.node_times.len(),
                i <= v.path.len(),
                exits == crate::model::capped(total),
                (total, times@) == seen_along(acc, v, link_id, t_start, t_end, i as nat),
            decreases v.path.len() - i,
        {
            if veh.path[i] == link_id && n > 0 && i < n - 1 {
                let t_in: Double = veh.node_times[i];
                let t_out: Double = veh.node_times[i + 1];
                if t_out.ge(t_start) && t_out.lt(t_end) {
                    exits = exits.saturating_add(1);
                    proof {
                        total = total + 1;
                    }
                }
                if t_in.ge(t_start) && t_in.lt(t_end) {
                    times.push(t_out.minus(t_in));
                }
            }
            i = i + 1;
        }
        j = j + 1;
    }
    let flow: Double = Double::from_usize(exits).times(Double::from_bits(SECONDS_PER_HOUR)).over(
        window,
    );
    let mean_time: Double = mean(&times);
    let speed: Option<Double> = if times.len() > 0 && mean_time.gt(Double::zero()) {
        Some(link.length.over(mean_time).times(Double::from_bits(KMH_PER_MS)))
    } else {
        None
    };
    (Some(flow), speed)
}

// ── Comparison ───────────────────────────────────────────────────────────────

/// What is to be compared: a measurement of a record with the simulated value.
#[verifier::ext_equal]
pub ghost struct Comparison {
    pub record: int,
    pub kind: ReferenceKind,
    pub observed: Double,
    pub simulated: Double,
}

pub open spec fn compared(
    acc: Seq<Comparison>,
    record: int,
    kind: ReferenceKind,
    observed: Option<Double>,
    simulated: Option<Double>,
) -> Seq<Comparison> {
    match (observed, simulated) {
        (Some(o), Some(s)) => acc.push(
            Comparison { record, kind, observed: o, simulated: s },
        ),
        _ => acc,
    }
}

/// The comparisons of the first `n` records: of each the flow, then the speed,
/// where both sides have a value.
pub open spec fn comparisons_upto(s: Scenario, records: Seq<ObservedRecord>, n: nat) -> Seq<
    Comparison,
>
    decreases n,
{
    if n == 0 {
        Seq::empty()
    } else {
        let before = comparisons_upto(s, records, (n - 1) as nat);
        let r = records[n - 1];
        let (flow, speed) = simulated(s, r.link_id, r.t_start, r.t_end);
        compared(
            compared(before, n - 1, ReferenceKind::Flow, r.flow_veh_h, flow),
            n - 1,
            ReferenceKind::Speed,
            r.speed_kmh,
            speed,
        )
    }
}

/// The check is that of a comparison.
pub open spec fn checks(c: ReferenceCheck, records: Seq<ObservedRecord>, x: Comparison) -> bool {
    let r = records[x.record];
    &&& c.link_id == r.link_id
    &&& crate::patch::opt_text(c.label) == crate::patch::opt_text(r.label)
    &&& c.t_start == r.t_start
    &&& c.t_end == r.t_end
    &&& c.kind == x.kind
    &&& c.observed == x.observed
    &&& c.simulated == x.simulated
    &&& c.error_pct == error_of(x.observed, x.simulated)
    &&& match x.kind {
        ReferenceKind::Flow => c.geh matches Some(g) && is_geh(x.simulated, x.observed, g)
            && c.status == graded_flow(g),
        ReferenceKind::Speed => c.geh is None && c.status == graded(
            c.error_pct,
            Double::from_bits(TEN),
            Double::from_bits(TWENTY_FIVE),
        ),
    }
}

/// How many of the first `n` checks have a status.
pub open spec fn status_upto(c: Seq<ReferenceCheck>, status: CheckStatus, n: nat) -> nat
    decreases n,
{
    if n == 0 {
        0
    } else {
        status_upto(c, status, (n - 1) as nat) + if c[n - 1].status == status {
            1nat
        } else {
            0
        }
    }
}

fn make_check(r: &ObservedRecord, kind: ReferenceKind, observed: Double, simulated: Double) -> (c:
    ReferenceCheck)
    ensures
        forall|records: Seq<ObservedRecord>, x: Comparison|
            records[x.record] == *r && x.kind == kind && x.observed == observed && x.simulated
                == simulated ==> #[trigger] checks(c, records, x),
{
    let error_pct: Double = compute_error(observed, simulated);
    let (g, status) = match kind {
        ReferenceKind::Flow => {
            let g: Double = geh(simulated, observed);
            (Some(g), grade_flow(g))
        },
        ReferenceKind::Speed => (
            None,
            grade(error_pct, Double::from_bits(TEN), Double::from_bits(TWENTY_FIVE)),
        ),
    };
    ReferenceCheck {
        link_id: r.link_id,
        label: match &r.label {
            Some(s) => Some(s.clone()),
            None => None,
        },
        t_start: r.t_start,
        t_end: r.t_end,
        kind,
        observed,
        simulated,
        geh: g,
        error_pct,
        status,
    }
}

/// Compares a completed simulation with observed records.
pub fn compare_with_observations(scenario: &Scenario, records: &Vec<ObservedRecord>) -> (report:
    ReferenceReport)
    ensures
        ({
            let expected = comparisons_upto(*scenario, records@, records@.len());
            let c = report.checks@;
            &&& c.len() == expected.len()
            &&& forall|i: int|
                0 <= i < c.len() ==> checks(#[trigger] c[i], records@, expected[i])
            &&& report.n_pass == status_upto(c, CheckStatus::Pass, c.len())
            &&& report.n_warn == status_upto(c, CheckStatus::Warn, c.len())
            &&& report.n_fail == status_upto(c, CheckStatus::Fail, c.len())
        }),
{
    let mut list: Vec<ReferenceCheck> = Vec::new();
    let mut i: usize = 0;
    while i < records.len()
        invariant
            i <= records@.len(),
            list@.len() == comparisons_upto(*scenario, records@, i as nat).len(),
            forall|k: int|
                0 <= k < list@.len() ==> checks(
                    #[trigger] list@[k],
                    records@,
                    comparisons_upto(*scenario, records@, i as nat)[k],
                ),
        decreases records@.len() - i,
    {
        let r: &ObservedRecord = &records[i];
        let (flow, speed) = simulate_window(scenario, r.link_id, r.t_start, r.t_end);
        let ghost before = comparisons_upto(*scenario, records@, i as nat);
        let ghost mid = compared(before, i as int, ReferenceKind::Flow, r.flow_veh_h, flow);
        if let Some(observed) = r.flow_veh_h {
            if let Some(sim) = flow {
                let c: ReferenceCheck = make_check(r, ReferenceKind::Flow, observed, sim);
                assert(checks(c, records@, mid.last()));
                list.push(c);
            }
        }
        assert(forall|k: int|
            0 <= k < list@.len() ==> checks(#[trigger] list@[k], records@, mid[k]));
        let ghost after = compared(mid, i as int, ReferenceKind::Speed, r.speed_kmh, speed);
        if let Some(observed) = r.speed_kmh {
            if let Some(sim) = speed {
                let c: ReferenceCheck = make_check(r, ReferenceKind::Speed, observed, sim);
                assert(checks(c, records@, after.last()));
                list.push(c);
            }
        }
        assert(forall|k: int|
            0 <= k < list@.len() ==> checks(#[trigger] list@[k], records@, after[k]));
        i = i + 1;
    }
    let mut n_pass: usize = 0;
    let mut n_warn: usize = 0;
    let mut n_fail: usize = 0;
    let mut k: usize = 0;
    while k < list.len()
        invariant
            k <= list@.len(),
            n_pass <= k,
            n_warn <= k,
            n_fail <= k,
            n_pass == status_upto(list@, CheckStatus::Pass, k as nat),
            n_warn == status_upto(list@, CheckStatus::Warn, k as nat),
            n_fail == status_upto(list@, CheckStatus::Fail, k as nat),
        decreases list@.len() - k,
    {
        match list[k].status {
            CheckStatus::Pass => {
                n_pass = n_pass + 1;
            },
            CheckStatus::Warn => {
                n_warn = n_warn + 1;
            },
            CheckStatus::Fail => {
                n_fail = n_fail + 1;
            },
            CheckStatus::NotExercised => {},
        }
        k = k + 1;
    }
    ReferenceReport { checks: list, n_pass, n_warn, n_fail }
}

/// Every comparison is graded: those that pass, those to be cautious of and
/// those that fail together are all of them.
pub proof fn law_every_comparison_is_graded(
    c: Seq<ReferenceCheck>,
    records: Seq<ObservedRecord>,
    expected: Seq<Comparison>,
)
    requires
        c.len() == expected.len(),
        forall|i: int| 0 <= i < c.len() ==> checks(#[trigger] c[i], records, expected[i]),
    ensures
        status_upto(c, CheckStatus::Pass, c.len()) + status_upto(c, CheckStatus::Warn, c.len())
            + status_upto(c, CheckStatus::Fail, c.len()) == c.len(),
{
    lemma_graded(c, records, expected, c.len());
}

proof fn lemma_graded(
    c: Seq<ReferenceCheck>,
    records: Seq<ObservedRecord>,
    expected: Seq<Comparison>,
    n: nat,
)
    requires
        n <= c.len() == expected.len(),
        forall|i: int| 0 <= i < c.len() ==> checks(#[trigger] c[i], records, expected[i]),
    ensures
        status_upto(c, CheckStatus::Pass, n) + status_upto(c, CheckStatus::Warn, n) + status_upto(
            c,
            CheckStatus::Fail,
            n,
        ) == n,
    decreases n,
{
    if n > 0 {
        lemma_graded(c, records, expected, (n - 1) as nat);
        assert(checks(c[n - 1], records, expected[n - 1]));
    }
}

} // verus!
