//! What the checks of a run find, told by its vehicles and their times.

use crate::analysis::LinkStats;
use crate::diagnostics::{FDPoint, FDRegime, NodeBalance};
use crate::double::{whole, Double, TWO_52, TWO_53};
use crate::model::{Link, LinkID, NodeID, NodeType, PipeIdx, Scenario, Vehicle, VehicleView};
use crate::verification::{
    adherence_check, arrivals_along, arrivals_upto, balance_errors_of, by_arrival,
    conservation_check, demand_check, early_upto, element_of, element_views, entry_upto,
    fd_errors_of, fifo_check, free_flow_check, free_time, gaps, inflow_check, inversions_upto,
    link_elements, min_upto, neighbours, node_element, node_elements_upto, node_pairs_upto,
    peak_from, peak_of, pipe_elements_upto, pipe_pairs_upto, ranked, report_from, slot_uses,
    storage_check, stream_checks, wave_check, CheckKind, CheckStatus, Detail, ElementType, ElementView,
    PassagesView, StreamParams, VerificationReport,
};
use vstd::prelude::*;

verus! {

// ── Demand at entries ────────────────────────────────────────────────────────

/// The vehicles that start at a node, entered or not.
pub open spec fn starters(vehicles: Seq<Vehicle>, id: NodeID) -> Seq<Vehicle> {
    vehicles.filter(|v: Vehicle| v.origin == id)
}

/// Those of them that have entered the network: that have passed their first node.
pub open spec fn entrants(vehicles: Seq<Vehicle>, id: NodeID) -> Seq<Vehicle> {
    vehicles.filter(|v: Vehicle| v.origin == id && v.node_times@.len() > 0)
}

proof fn lemma_entry_counts(vehicles: Seq<Vehicle>, id: NodeID, n: nat)
    requires
        n <= vehicles.len(),
    ensures
        entry_upto(vehicles, id, n).0 == starters(vehicles.take(n as int), id).len(),
        entry_upto(vehicles, id, n).1 == entrants(vehicles.take(n as int), id).map_values(
            |v: Vehicle| v.node_times@[0].minus(v.start_time),
        ),
    decreases n,
{
    reveal(Seq::filter);
    let wait = |v: Vehicle| v.node_times@[0].minus(v.start_time);
    if n > 0 {
        lemma_entry_counts(vehicles, id, (n - 1) as nat);
        let (part, less) = (vehicles.take(n as int), vehicles.take(n - 1));
        assert(part.drop_last() =~= less);
        assert(part.last() == vehicles[n - 1]);
        let v = vehicles[n - 1];
        assert(entrants(less, id).push(v).map_values(wait) =~= entrants(less, id).map_values(
            wait,
        ).push(wait(v)));
    } else {
        assert(vehicles.take(0) =~= Seq::<Vehicle>::empty());
        assert(entrants(vehicles.take(0), id).map_values(wait) =~= Seq::<Double>::empty());
    }
}

/// The check of an entry holds the vehicles that have entered against all that start
/// there, entered or not: with fewer than 90 in a hundred it fails, with 99 in a hundred
/// it passes, and in between it warns. It reports the two numbers, and it tells nothing
/// where no vehicle starts.
pub proof fn law_entry_demand_is_held_against_all_who_start(s: Scenario, id: NodeID)
    requires
        s.vehicles@.len() < 0x1000_0000_0000,
        s.vehicles@.len() <= usize::MAX,
    ensures
        ({
            let all = starters(s.vehicles@, id).len();
            let entered = entrants(s.vehicles@, id).len();
            let c = demand_check(s, id);
            &&& all == 0 <==> c.status == CheckStatus::NotExercised
            &&& all > 0 && 100 * entered < 90 * all <==> c.status == CheckStatus::Fail
            &&& all > 0 && 100 * entered >= 99 * all <==> c.status == CheckStatus::Pass
            &&& all > 0 && 90 * all <= 100 * entered < 99 * all <==> c.status == CheckStatus::Warn
            &&& all > 0 ==> (c.detail matches Detail::Served { served, scheduled, .. } && served
                == entered && scheduled == all)
            &&& c.kind == CheckKind::DemandServed
        }),
{
    let vehicles = s.vehicles@;
    let n = vehicles.len();
    lemma_entry_counts(vehicles, id, n);
    assert(vehicles.take(n as int) =~= vehicles);
    let all = starters(vehicles, id).len();
    let entered = entrants(vehicles, id).len();
    vehicles.lemma_filter_len(|v: Vehicle| v.origin == id);
    vehicles.lemma_filter_len(|v: Vehicle| v.origin == id && v.node_times@.len() > 0);
    crate::constants::law_whole_constants();
    crate::double::law_zero_and_one_are_whole();
    crate::double::law_whole_numbers_ascend(0, 1);
    crate::double::law_indices_are_whole(entered as usize, whole(0));
    crate::double::law_indices_are_whole(all as usize, whole(0));
    crate::double::law_whole_numbers_multiply(100, entered);
    if all > 0 {
        crate::double::law_whole_quotients_compare(100 * entered, all, 90);
        crate::double::law_whole_quotients_compare(100 * entered, all, 99);
    }
}

// ── Streams ──────────────────────────────────────────────────────────────────

/// 99 in a hundred of a span.
pub open spec fn nearly(span: Double) -> Double {
    span.times(Double::one().minus(whole(1).over(whole(100))))
}

pub open spec fn no_nan(s: Seq<Double>) -> bool {
    forall|i: int| 0 <= i < s.len() ==> !(#[trigger] s[i]).nan()
}

proof fn lemma_least(s: Seq<Double>, n: nat)
    requires
        0 < n <= s.len(),
        no_nan(s),
    ensures
        !min_upto(s, n).nan(),
        forall|k: int| 0 <= k < n ==> min_upto(s, n).le(#[trigger] s[k]),
        exists|k: int| 0 <= k < n && #[trigger] s[k] == min_upto(s, n),
    decreases n,
{
    let last = s[n - 1];
    if n == 1 {
        assert(min_upto(s, 0) == Double::from_bits(crate::double::INF_BITS));
        assert(min_upto(s, 1).bits == last.bits);
    } else {
        lemma_least(s, (n - 1) as nat);
        if last.lt(min_upto(s, (n - 1) as nat)) {
            assert(min_upto(s, n) == s[n - 1]);
        }
    }
}

/// A stream fails against its free-flow time exactly if some traversal took less than 99
/// in a hundred of `L / u`, however the others went.
pub proof fn law_free_flow_fails_on_a_fast_traversal(sp: StreamParams, p: PassagesView)
    requires
        p.travel.len() > 0,
        no_nan(p.travel),
        !nearly(sp.length.over(sp.speed)).nan(),
    ensures
        free_flow_check(sp, p).status == CheckStatus::Fail <==> exists|k: int|
            0 <= k < p.travel.len() && (#[trigger] p.travel[k]).lt(
                nearly(sp.length.over(sp.speed)),
            ),
        free_flow_check(sp, p).measured matches Some(m) && forall|k: int|
            0 <= k < p.travel.len() ==> m.le(#[trigger] p.travel[k]),
{
    crate::constants::law_fraction_constants();
    lemma_least(p.travel, p.travel.len());
}

/// A stream fails against its capacity exactly if some two entries in a row were closer
/// than 99 in a hundred of the headway `1 / C`.
pub proof fn law_inflow_fails_on_close_entries(sp: StreamParams, p: PassagesView)
    requires
        p.entries.len() >= 2,
        no_nan(gaps(p.entries)),
        sp.capacity.gt(Double::zero()),
        !nearly(Double::one().over(sp.capacity)).nan(),
    ensures
        inflow_check(sp, p).status == CheckStatus::Fail <==> exists|k: int|
            0 <= k < p.entries.len() - 1 && p.entries[k + 1].minus(#[trigger] p.entries[k]).lt(
                nearly(Double::one().over(sp.capacity)),
            ),
        inflow_check(sp, p).status != CheckStatus::NotExercised,
{
    crate::constants::law_fraction_constants();
    let g = gaps(p.entries);
    let bound = nearly(Double::one().over(sp.capacity));
    lemma_least(g, g.len());
    let k = choose|k: int| 0 <= k < g.len() && #[trigger] g[k] == min_upto(g, g.len());
    assert(p.entries[k + 1].minus(p.entries[k]) == g[k]);
    if exists|k: int|
        0 <= k < p.entries.len() - 1 && p.entries[k + 1].minus(#[trigger] p.entries[k]).lt(bound) {
        let j = choose|k: int|
            0 <= k < p.entries.len() - 1 && p.entries[k + 1].minus(#[trigger] p.entries[k]).lt(
                bound,
            );
        assert(g[j].lt(bound));
        assert(min_upto(g, g.len()).le(g[j]));
    }
}

/// Times in the total order.
pub open spec fn in_total_order(s: Seq<Double>) -> bool {
    forall|i: int, j: int| 0 <= i <= j < s.len() ==> (#[trigger] s[i]).rank() <= (#[trigger] s[j]).rank()
}

/// How many exits come no later than a time.
pub open spec fn gone_by(exits: Seq<Double>, t: Double) -> nat {
    exits.filter(|x: Double| x.rank() <= t.rank()).len()
}

proof fn lemma_gone_by(exits: Seq<Double>, t: Double, j: int)
    requires
        0 <= j <= exits.len(),
        in_total_order(exits),
        forall|k: int| 0 <= k < j ==> (#[trigger] exits[k]).rank() <= t.rank(),
        j < exits.len() ==> exits[j].rank() > t.rank(),
    ensures
        gone_by(exits, t) == j,
    decreases exits.len(),
{
    reveal(Seq::filter);
    if exits.len() > 0 {
        let less = exits.drop_last();
        assert(forall|i: int| 0 <= i < less.len() ==> less[i] == exits[i]);
        assert(in_total_order(less)) by {
            assert forall|a: int, b: int| 0 <= a <= b < less.len() implies (#[trigger] less[a]).rank()
                <= (#[trigger] less[b]).rank() by {
                assert(less[a] == exits[a] && less[b] == exits[b]);
            }
        }
        if j == exits.len() {
            lemma_gone_by(less, t, j - 1);
        } else {
            lemma_gone_by(less, t, j);
            assert(exits[j].rank() <= exits[exits.len() - 1].rank());
        }
    }
}

/// Vehicles on a stream just after entry `i`: those that have entered by then, less
/// those that have left.
pub open spec fn present_after(p: PassagesView, i: int) -> int {
    i + 1 - gone_by(p.exits, p.entries[i])
}

proof fn lemma_peak(p: PassagesView, i: nat, j: nat, most: int)
    requires
        in_total_order(p.entries),
        in_total_order(p.exits),
        i <= p.entries.len(),
        j <= p.exits.len(),
        i < p.entries.len() ==> forall|k: int|
            0 <= k < j ==> (#[trigger] p.exits[k]).rank() <= p.entries[i as int].rank(),
    ensures
        ({
            let r = peak_from(p.entries, p.exits, i, j, i - j, most);
            &&& r >= most
            &&& forall|k: int| i <= k < p.entries.len() ==> r >= #[trigger] present_after(p, k)
            &&& r == most || exists|k: int|
                i <= k < p.entries.len() && r == #[trigger] present_after(p, k)
        }),
    decreases (p.entries.len() - i) + (p.exits.len() - j),
{
    let (entries, exits) = (p.entries, p.exits);
    if i >= entries.len() && j >= exits.len() {
    } else if j < exits.len() && (i >= entries.len() || !entries[i as int].before(
        exits[j as int],
    )) {
        lemma_peak(p, i, j + 1, most);
    } else {
        lemma_gone_by(exits, entries[i as int], j as int);
        let here = i + 1 - j;
        assert(present_after(p, i as int) == here);
        let next = if here > most {
            here
        } else {
            most
        };
        if i + 1 < entries.len() {
            assert(entries[i as int].rank() <= entries[(i + 1) as int].rank());
        }
        lemma_peak(p, i + 1, j, next);
    }
}

/// The peak of a stream is the most vehicles that were on it at once, right after some
/// entry: those that had entered by then less those that had left, one that leaves at the
/// same time among them. A stream fails against its storage exactly if at some entry they
/// were more than its slots.
pub proof fn law_storage_fails_on_overfill(sp: StreamParams, p: PassagesView, dn: usize)
    requires
        p.entries.len() > 0,
        sp.storage_veh == Some(dn),
        in_total_order(p.entries),
        in_total_order(p.exits),
    ensures
        forall|i: int| 0 <= i < p.entries.len() ==> peak_of(p) >= #[trigger] present_after(p, i),
        peak_of(p) == 0 || exists|i: int|
            0 <= i < p.entries.len() && peak_of(p) == #[trigger] present_after(p, i),
        storage_check(sp, p).status == CheckStatus::Fail <==> exists|i: int|
            0 <= i < p.entries.len() && #[trigger] present_after(p, i) > dn,
        storage_check(sp, p).status != CheckStatus::NotExercised,
{
    lemma_peak(p, 0, 0, 0);
}

proof fn lemma_early(p: PassagesView, dn: nat, expected: Double, n: nat)
    ensures
        early_upto(p, dn, expected, n) > 0 <==> exists|k: int|
            0 <= k < n && p.entries[dn + k].minus(#[trigger] p.exits[k]).lt(nearly(expected)),
    decreases n,
{
    crate::constants::law_fraction_constants();
    if n > 0 {
        lemma_early(p, dn, expected, (n - 1) as nat);
        if early_upto(p, dn, expected, (n - 1) as nat) == 0 && early_upto(p, dn, expected, n) > 0 {
            assert(p.entries[dn + (n - 1)].minus(p.exits[n - 1]).lt(nearly(expected)));
        }
    }
}

/// A stream fails against its backward wave exactly if some entry beyond the slots of the
/// stream came sooner than 99 in a hundred of the wave delay after the exit that many
/// places before it.
pub proof fn law_wave_fails_on_an_early_entry(sp: StreamParams, p: PassagesView, dn: usize)
    requires
        sp.storage_veh == Some(dn),
        sp.w_positive,
    ensures
        wave_check(sp, p).status == CheckStatus::Fail <==> exists|k: int|
            0 <= k < p.exits.len() && dn + k < p.entries.len() && p.entries[dn + k].minus(
                #[trigger] p.exits[k],
            ).lt(nearly(sp.wave_delay)),
{
    let n = slot_uses(p, dn as nat);
    lemma_early(p, dn as nat, sp.wave_delay, n);
    if exists|k: int|
        0 <= k < p.exits.len() && dn + k < p.entries.len() && p.entries[dn + k].minus(
            #[trigger] p.exits[k],
        ).lt(nearly(sp.wave_delay)) {
        let k = choose|k: int|
            0 <= k < p.exits.len() && dn + k < p.entries.len() && p.entries[dn + k].minus(
                #[trigger] p.exits[k],
            ).lt(nearly(sp.wave_delay));
        assert(k < n);
    }
}

// ── Diagrams and balances ────────────────────────────────────────────────────

/// The observation counts for a link: it is one of the link, in no overflowing queue, and
/// its density is below nine tenths of what all lanes of the link hold at most.
pub open spec fn observed_on(s: Scenario, p: FDPoint, id: LinkID) -> bool {
    &&& p.link_id == id
    &&& p.regime != FDRegime::QueueOverflow
    &&& p.link_id < s.links@.len() ==> {
        let l = s.links@[p.link_id as int];
        let jam = l.fd.kx.times(Double::from_u64(l.num_lanes as u64)).times(whole(1000));
        !(jam.gt(Double::zero()) && p.density.ge(whole(9).over(whole(10)).times(jam)))
    }
}

proof fn lemma_fd_errors(s: Scenario, points: Seq<FDPoint>, id: LinkID, n: nat)
    requires
        n <= points.len(),
    ensures
        fd_errors_of(s, points, id, n) == points.take(n as int).filter(
            |p: FDPoint| observed_on(s, p, id),
        ).map_values(|p: FDPoint| p.error_pct.abs()),
    decreases n,
{
    reveal(Seq::filter);
    crate::constants::law_whole_constants();
    crate::constants::law_fraction_constants();
    let f = |p: FDPoint| observed_on(s, p, id);
    let g = |p: FDPoint| p.error_pct.abs();
    if n > 0 {
        lemma_fd_errors(s, points, id, (n - 1) as nat);
        let (part, less) = (points.take(n as int), points.take(n - 1));
        assert(part.drop_last() =~= less);
        assert(less.filter(f).push(part.last()).map_values(g) =~= less.filter(f).map_values(
            g,
        ).push(g(part.last())));
    } else {
        assert(points.take(0) =~= Seq::<FDPoint>::empty());
        assert(points.take(0).filter(f).map_values(g) =~= Seq::<Double>::empty());
    }
}

/// The diagram of a link is graded by the mean size of the errors of the observations
/// that count for it: below 10 % it passes, from 25 % on it fails. Without any it tells
/// nothing.
pub proof fn law_diagram_is_graded_by_its_mean_error(s: Scenario, points: Seq<FDPoint>, id: LinkID)
    ensures
        ({
            let counted = points.filter(|p: FDPoint| observed_on(s, p, id));
            let errors = counted.map_values(|p: FDPoint| p.error_pct.abs());
            let mean = crate::diagnostics::mean_of(errors);
            let c = adherence_check(s, points, id);
            &&& c.status == CheckStatus::NotExercised <==> counted.len() == 0
            &&& counted.len() > 0 ==> {
                &&& c.status == CheckStatus::Pass <==> mean.lt(whole(10))
                &&& c.status == CheckStatus::Warn <==> !mean.lt(whole(10)) && mean.lt(whole(25))
                &&& c.status == CheckStatus::Fail <==> !mean.lt(whole(10)) && !mean.lt(whole(25))
                &&& c.measured == Some(mean)
            }
        }),
{
    crate::constants::law_whole_constants();
    lemma_fd_errors(s, points, id, points.len());
    assert(points.take(points.len() as int) =~= points);
}

/// How far a node is out of balance in a bin: the size of its error, where more than one
/// vehicle per hour came in.
pub open spec fn imbalance_of(b: NodeBalance) -> Double {
    if b.inflow.gt(whole(1)) {
        b.error_pct.abs()
    } else {
        whole(0)
    }
}

proof fn lemma_balance_errors(balances: Seq<NodeBalance>, id: NodeID, n: nat)
    requires
        n <= balances.len(),
    ensures
        balance_errors_of(balances, id, n) == balances.take(n as int).filter(
            |b: NodeBalance| b.node_id == id,
        ).map_values(|b: NodeBalance| imbalance_of(b)),
    decreases n,
{
    reveal(Seq::filter);
    crate::double::law_zero_and_one_are_whole();
    let f = |b: NodeBalance| b.node_id == id;
    let g = |b: NodeBalance| imbalance_of(b);
    if n > 0 {
        lemma_balance_errors(balances, id, (n - 1) as nat);
        let (part, less) = (balances.take(n as int), balances.take(n - 1));
        assert(part.drop_last() =~= less);
        assert(less.filter(f).push(part.last()).map_values(g) =~= less.filter(f).map_values(
            g,
        ).push(g(part.last())));
    } else {
        assert(balances.take(0) =~= Seq::<NodeBalance>::empty());
        assert(balances.take(0).filter(f).map_values(g) =~= Seq::<Double>::empty());
    }
}

/// A node is graded by the mean of its imbalances, every bin of it counted: below 2 % it
/// passes, from 10 % on it fails.
pub proof fn law_node_is_graded_by_its_mean_imbalance(balances: Seq<NodeBalance>, id: NodeID)
    ensures
        ({
            let counted = balances.filter(|b: NodeBalance| b.node_id == id);
            let mean = crate::diagnostics::mean_of(
                counted.map_values(|b: NodeBalance| imbalance_of(b)),
            );
            let c = conservation_check(balances, id);
            &&& c.status == CheckStatus::NotExercised <==> counted.len() == 0
            &&& counted.len() > 0 ==> {
                &&& c.status == CheckStatus::Pass <==> mean.lt(whole(2))
                &&& c.status == CheckStatus::Warn <==> !mean.lt(whole(2)) && mean.lt(whole(10))
                &&& c.status == CheckStatus::Fail <==> !mean.lt(whole(2)) && !mean.lt(whole(10))
                &&& c.measured == Some(mean)
            }
        }),
{
    crate::constants::law_whole_constants();
    lemma_balance_errors(balances, id, balances.len());
    assert(balances.take(balances.len() as int) =~= balances);
}

// ── Order at nodes ───────────────────────────────────────────────────────────

/// The passages at places `i` and `i + 1` of the arrival order are out of order by more
/// than the slack of a billionth of a second.
pub open spec fn overtaken(s: Seq<(Double, Double)>, i: int) -> bool {
    s[i + 1].1.lt(s[i].1.minus(whole(1).over(whole(1_000_000_000))))
}

/// Inversions are found wherever two that arrived one after the other passed the other
/// way round.
pub proof fn law_inversions_are_found(s: Seq<(Double, Double)>, n: nat)
    requires
        n < s.len() || n == 0,
    ensures
        inversions_upto(s, n) > 0 <==> exists|i: int| 0 <= i < n && #[trigger] overtaken(s, i),
        inversions_upto(s, n) <= n,
    decreases n,
{
    crate::constants::law_fraction_constants();
    if n > 0 {
        law_inversions_are_found(s, (n - 1) as nat);
        assert(overtaken(s, n - 1) <==> s[n as int].1.lt(
            s[n - 1].1.minus(Double::from_bits(crate::constants::TIME_SLACK)),
        ));
    }
}

/// The order of arrival: what was collected, each exactly once, by ascending times of
/// arrival, and among equal ones in the order in which it was collected.
pub proof fn law_arrivals_are_put_in_order(s: Seq<(Double, Double)>)
    requires
        s.len() <= usize::MAX,
    ensures
        by_arrival(s).len() == s.len(),
        forall|i: int, j: int|
            0 <= i < j < s.len() ==> (#[trigger] by_arrival(s)[i]).0.rank() <= (
            #[trigger] by_arrival(s)[j]).0.rank(),
        forall|k: int| 0 <= k < s.len() ==> by_arrival(s).contains(#[trigger] s[k]),
{
    let keys = crate::verification::arrival_ranks(s);
    crate::order::law_sorted_tags(keys);
    assert forall|i: int, j: int| 0 <= i < j < s.len() implies (#[trigger] by_arrival(s)[i]).0.rank()
        <= (#[trigger] by_arrival(s)[j]).0.rank() by {
        let (a, b) = (crate::order::origin(keys, i), crate::order::origin(keys, j));
        assert(keys[a] <= keys[b]);
        assert(keys[a] == s[a].0.rank() && keys[b] == s[b].0.rank());
    }
    assert forall|k: int| 0 <= k < s.len() implies by_arrival(s).contains(#[trigger] s[k]) by {
        assert(crate::order::occurs(keys, k));
        let i = choose|i: int| 0 <= i < keys.len() && #[trigger] crate::order::origin(keys, i) == k;
        assert(by_arrival(s)[i] == s[k]);
    }
}

// ── The report ───────────────────────────────────────────────────────────────

proof fn lemma_node_listed(
    acc: Seq<ElementView>,
    s: Scenario,
    balances: Seq<NodeBalance>,
    n: nat,
    k: int,
) -> (i: int)
    requires
        0 <= k < n,
        node_element(s, balances, k) is Some,
    ensures
        0 <= i < node_elements_upto(acc, s, balances, n).len(),
        node_elements_upto(acc, s, balances, n)[i] == node_element(s, balances, k)->0,
    decreases n,
{
    if k == n - 1 {
        node_elements_upto(acc, s, balances, n).len() - 1
    } else {
        lemma_node_listed(acc, s, balances, (n - 1) as nat, k)
    }
}

/// Element `i` of the report is that of an entry that has failed.
pub open spec fn blames_entry(report: VerificationReport, i: int, id: NodeID) -> bool {
    let x = report.elements@[i]@;
    &&& 0 <= i < report.elements@.len()
    &&& x.element_type == ElementType::Entry
    &&& x.element_id == id
    &&& x.status == CheckStatus::Fail
    &&& x.checks.len() == 1
    &&& x.checks[0].kind == CheckKind::DemandServed
    &&& x.checks[0].status == CheckStatus::Fail
}

/// The report blames an entry that has served too few: where less than nine tenths of the
/// vehicles with that origin have entered the network, it has a failed element for it.
pub proof fn law_report_finds_unserved_demand(
    s: Scenario,
    bin_size: Double,
    stats: Map<LinkID, LinkStats>,
    report: VerificationReport,
    k: int,
)
    requires
        report_from(s, bin_size, stats, report),
        0 <= k < s.nodes@.len(),
        s.nodes@[k].node_type == NodeType::Entry,
        s.vehicles@.len() < 0x1000_0000_0000,
        s.vehicles@.len() <= usize::MAX,
        10 * entrants(s.vehicles@, s.nodes@[k].id).len() < 9 * starters(
            s.vehicles@,
            s.nodes@[k].id,
        ).len(),
    ensures
        exists|i: int| #[trigger] blames_entry(report, i, s.nodes@[k].id),
{
    let id = s.nodes@[k].id;
    let n_bins = crate::analysis::bin_count(s.duration, bin_size) as nat;
    let points = crate::diagnostics::fd_points_upto(s, stats, bin_size, n_bins, s.links@.len());
    let balances = crate::diagnostics::balances_upto(s, stats, bin_size, n_bins, s.nodes@.len());
    let first = crate::verification::link_elements_upto(s, points, s.links@.len());
    let all = node_elements_upto(first, s, balances, s.nodes@.len());
    law_entry_demand_is_held_against_all_who_start(s, id);
    let j = lemma_node_listed(first, s, balances, s.nodes@.len(), k);
    let checks = seq![demand_check(s, id)];
    let x = element_of(ElementType::Entry, id, None, checks);
    assert(all[j] == x);
    crate::verification::law_element_is_its_worst_check(checks);
    assert(checks[0].status == CheckStatus::Fail);
    assert(ranked(all).len() == all.len());
    assert(element_views(report.elements@).len() == report.elements.len());
    crate::verification::law_worst_elements_first(all);
    assert(crate::verification::has_place(all, j));
    let m = choose|m: int| 0 <= m < all.len() && #[trigger] ranked(all)[m] == all[j];
    assert(element_views(report.elements@)[m] == report.elements@[m]@);
    assert(blames_entry(report, m, id));
}

// ── Summaries ────────────────────────────────────────────────────────────────

/// Failures are worse than warnings, these than passes, and those than what tells nothing.
pub proof fn law_statuses_are_ranked()
    ensures
        CheckStatus::Fail.severity() > CheckStatus::Warn.severity(),
        CheckStatus::Warn.severity() > CheckStatus::Pass.severity(),
        CheckStatus::Pass.severity() > CheckStatus::NotExercised.severity(),
{
}

proof fn lemma_status_count(e: Seq<ElementView>, status: CheckStatus, n: nat)
    requires
        n <= e.len(),
    ensures
        crate::verification::status_upto(e, status, n) == e.take(n as int).filter(
            |x: ElementView| x.status == status,
        ).len(),
        crate::verification::status_upto(e, status, n) <= n,
    decreases n,
{
    reveal(Seq::filter);
    if n > 0 {
        lemma_status_count(e, status, (n - 1) as nat);
        assert(e.take(n as int).drop_last() =~= e.take(n - 1));
    } else {
        assert(e.take(0) =~= Seq::<ElementView>::empty());
    }
}

/// A summary counts the elements by their status.
pub proof fn law_summary_counts_by_status(e: Seq<ElementView>)
    requires
        e.len() <= usize::MAX,
    ensures
        ({
            let s = crate::verification::summary_of(e);
            &&& s.elements_pass == e.filter(|x: ElementView| x.status == CheckStatus::Pass).len()
            &&& s.elements_warn == e.filter(|x: ElementView| x.status == CheckStatus::Warn).len()
            &&& s.elements_fail == e.filter(|x: ElementView| x.status == CheckStatus::Fail).len()
            &&& s.elements_not_exercised == e.filter(
                |x: ElementView| x.status == CheckStatus::NotExercised,
            ).len()
        }),
{
    lemma_status_count(e, CheckStatus::Pass, e.len());
    lemma_status_count(e, CheckStatus::Warn, e.len());
    lemma_status_count(e, CheckStatus::Fail, e.len());
    lemma_status_count(e, CheckStatus::NotExercised, e.len());
    assert(e.take(e.len() as int) =~= e);
}

/// A stream is checked against the parameters of its own pipe, and against the length,
/// the speed and the wave of its link.
pub proof fn law_streams_have_the_parameters_of_their_pipe(
    link: crate::model::Link,
    pipe: crate::model::Pipe,
)
    ensures
        ({
            let sp = StreamParams::of_pipe(link, pipe);
            &&& sp.length == link.length && sp.speed == link.speed
            &&& sp.capacity == pipe.capacity
            &&& sp.storage_exact == pipe.storage_exact && sp.storage_veh == pipe.storage_veh
            &&& sp.wave_delay == pipe.wave_delay
            &&& sp.w_positive == link.fd.w.gt(Double::zero())
        }),
        link.pipes@.len() == 1 ==> StreamParams::of_single(link) == StreamParams::of_pipe(
            link,
            link.pipes@[0],
        ),
{
}

/// Place `k` of a vehicle's path is on the stream, and the vehicle has entered it.
pub open spec fn enters_at(
    v: crate::model::VehicleView,
    link: LinkID,
    pipe: crate::model::PipeIdx,
    k: int,
) -> bool {
    &&& 0 <= k < v.path.len()
    &&& k < v.node_times.len()
    &&& v.path[k] == link
    &&& k < v.pipes_taken.len() && v.pipes_taken[k] == pipe
}

proof fn lemma_along_has(
    acc: PassagesView,
    v: crate::model::VehicleView,
    link: LinkID,
    pipe: crate::model::PipeIdx,
    n: nat,
    k: int,
)
    requires
        k < n <= v.path.len(),
        enters_at(v, link, pipe, k),
    ensures
        acc.along(v, link, pipe, n).entries.contains(v.node_times[k]),
        k + 1 < v.node_times.len() ==> acc.along(v, link, pipe, n).exits.contains(
            v.node_times[k + 1],
        ) && acc.along(v, link, pipe, n).travel.contains(
            v.node_times[k + 1].minus(v.node_times[k]),
        ),
    decreases n,
{
    let all = acc.along(v, link, pipe, n);
    let less = acc.along(v, link, pipe, (n - 1) as nat);
    if k == n - 1 {
        assert(all.entries[all.entries.len() - 1] == v.node_times[k]);
        if k + 1 < v.node_times.len() {
            assert(all.exits[all.exits.len() - 1] == v.node_times[k + 1]);
            assert(all.travel[all.travel.len() - 1] == v.node_times[k + 1].minus(v.node_times[k]));
        }
    } else {
        lemma_along_has(acc, v, link, pipe, (n - 1) as nat, k);
        lemma_kept(less.entries, all.entries, v.node_times[k]);
        if k + 1 < v.node_times.len() {
            lemma_kept(less.exits, all.exits, v.node_times[k + 1]);
            lemma_kept(less.travel, all.travel, v.node_times[k + 1].minus(v.node_times[k]));
        }
    }
}

proof fn lemma_kept(less: Seq<Double>, all: Seq<Double>, x: Double)
    requires
        less.contains(x),
        less.len() <= all.len(),
        forall|i: int| 0 <= i < less.len() ==> #[trigger] all[i] == less[i],
    ensures
        all.contains(x),
{
    let i = choose|i: int| 0 <= i < less.len() && less[i] == x;
    assert(all[i] == x);
}

/// The passages of a vehicle over a stream are among those that the stream is checked by:
/// its entry, and, once it has left, its exit and the time that it took.
pub proof fn law_passages_hold_every_traversal(
    acc: PassagesView,
    v: crate::model::VehicleView,
    link: LinkID,
    pipe: crate::model::PipeIdx,
    k: int,
)
    requires
        enters_at(v, link, pipe, k),
    ensures
        ({
            let all = acc.along(v, link, pipe, v.path.len());
            &&& all.entries.contains(v.node_times[k])
            &&& k + 1 < v.node_times.len() ==> all.exits.contains(v.node_times[k + 1])
                && all.travel.contains(v.node_times[k + 1].minus(v.node_times[k]))
        }),
{
    lemma_along_has(acc, v, link, pipe, v.path.len(), k);
}

// ── Agreement ────────────────────────────────────────────────────────────────

/// The fastest traversal shows free flow where it is within a hundredth of `L / u`; where
/// it is slower nothing is shown, and without a traversal nothing is.
pub proof fn law_free_flow_is_shown_by_agreement(sp: StreamParams, p: PassagesView)
    requires
        no_nan(p.travel),
        !nearly(sp.length.over(sp.speed)).nan(),
    ensures
        ({
            let free = sp.length.over(sp.speed);
            let c = free_flow_check(sp, p);
            let slack = whole(1).over(whole(100)).times(whole(100));
            &&& p.travel.len() == 0 ==> c.status == CheckStatus::NotExercised
            &&& c.status == CheckStatus::Pass ==> exists|k: int|
                0 <= k < p.travel.len() && crate::verification::rel_err(
                    #[trigger] p.travel[k],
                    free,
                ).le(slack) && forall|j: int|
                    0 <= j < p.travel.len() ==> p.travel[k].le(#[trigger] p.travel[j])
            &&& c.status != CheckStatus::Warn
        }),
{
    crate::constants::law_whole_constants();
    crate::constants::law_fraction_constants();
    if p.travel.len() > 0 {
        lemma_least(p.travel, p.travel.len());
        let k = choose|k: int|
            0 <= k < p.travel.len() && #[trigger] p.travel[k] == min_upto(
                p.travel,
                p.travel.len(),
            );
        assert(min_upto(p.travel, p.travel.len()) == p.travel[k]);
    }
}

proof fn lemma_gated(p: PassagesView, dn: nat, expected: Double, n: nat)
    ensures
        crate::verification::gated_upto(p, dn, expected, n).len() > 0 <==> exists|k: int|
            0 <= k < n && !p.entries[dn + k].minus(#[trigger] p.exits[k]).lt(nearly(expected))
                && crate::verification::rel_err(
                p.entries[dn + k].minus(p.exits[k]),
                expected,
            ).le(whole(1).over(whole(100)).times(whole(100))),
    decreases n,
{
    crate::constants::law_whole_constants();
    crate::constants::law_fraction_constants();
    if n > 0 {
        lemma_gated(p, dn, expected, (n - 1) as nat);
        let (less, all) = (
            crate::verification::gated_upto(p, dn, expected, (n - 1) as nat),
            crate::verification::gated_upto(p, dn, expected, n),
        );
        if less.len() == 0 && all.len() > 0 {
            assert(!p.entries[dn + (n - 1)].minus(p.exits[n - 1]).lt(nearly(expected)));
        }
    }
}

/// The backward wave is shown where no entry came early and some entry came within a
/// hundredth of the wave delay after the exit that let it in; with neither, nothing was
/// held back by it.
pub proof fn law_wave_is_shown_by_agreement(sp: StreamParams, p: PassagesView, dn: usize)
    requires
        sp.storage_veh == Some(dn),
        sp.w_positive,
    ensures
        ({
            let c = wave_check(sp, p);
            let slack = whole(1).over(whole(100)).times(whole(100));
            let some = exists|k: int|
                0 <= k < p.exits.len() && dn + k < p.entries.len() && !p.entries[dn + k].minus(
                    #[trigger] p.exits[k],
                ).lt(nearly(sp.wave_delay)) && crate::verification::rel_err(
                    p.entries[dn + k].minus(p.exits[k]),
                    sp.wave_delay,
                ).le(slack);
            &&& c.status == CheckStatus::Pass <==> some && c.status != CheckStatus::Fail
            &&& c.status == CheckStatus::NotExercised <==> !some && c.status != CheckStatus::Fail
        }),
{
    let n = slot_uses(p, dn as nat);
    lemma_gated(p, dn as nat, sp.wave_delay, n);
    let slack = whole(1).over(whole(100)).times(whole(100));
    let within = |k: int|
        !p.entries[dn + k].minus(p.exits[k]).lt(nearly(sp.wave_delay))
            && crate::verification::rel_err(
            p.entries[dn + k].minus(p.exits[k]),
            sp.wave_delay,
        ).le(slack);
    if exists|k: int|
        0 <= k < p.exits.len() && dn + k < p.entries.len() && !p.entries[dn + k].minus(
            #[trigger] p.exits[k],
        ).lt(nearly(sp.wave_delay)) && crate::verification::rel_err(
            p.entries[dn + k].minus(p.exits[k]),
            sp.wave_delay,
        ).le(slack) {
        let k = choose|k: int|
            0 <= k < p.exits.len() && dn + k < p.entries.len() && !p.entries[dn + k].minus(
                #[trigger] p.exits[k],
            ).lt(nearly(sp.wave_delay)) && crate::verification::rel_err(
                p.entries[dn + k].minus(p.exits[k]),
                sp.wave_delay,
            ).le(slack);
        assert(k < n);
    }
}

/// The passages at the end of a pipe of a link, in the order of arrival.
pub open spec fn order_of(s: Scenario, l: int, p: int) -> Seq<(Double, Double)> {
    let vehicles = crate::simulation::vehicle_views(s.vehicles@);
    by_arrival(
        crate::verification::arrivals_upto(
            vehicles,
            l as usize,
            p as u8,
            crate::verification::free_time(s.links@[l]),
            vehicles.len(),
        ),
    )
}

/// Somebody was overtaken on a pipe.
pub open spec fn overtaking_on(s: Scenario, l: int, p: int) -> bool {
    exists|i: int| 0 <= i < order_of(s, l, p).len() - 1 && #[trigger] overtaken(order_of(s, l, p), i)
}

proof fn lemma_pipe_pairs(s: Scenario, l: int, n: nat)
    requires
        n <= 256,
    ensures
        pipe_pairs_upto(s, l, n).1 > 0 <==> exists|p: int|
            0 <= p < n && #[trigger] overtaking_on(s, l, p),
    decreases n,
{
    if n > 0 {
        lemma_pipe_pairs(s, l, (n - 1) as nat);
        let a = order_of(s, l, n - 1);
        law_inversions_are_found(a, neighbours(a.len()));
        assert(overtaking_on(s, l, n - 1) <==> inversions_upto(a, neighbours(a.len())) > 0);
    }
}

proof fn lemma_node_pairs(s: Scenario, incoming: Seq<LinkID>, n: nat)
    requires
        n <= incoming.len(),
    ensures
        node_pairs_upto(s, incoming, n).1 > 0 <==> exists|k: int|
            0 <= k < n && #[trigger] overtaking_into(s, incoming[k]),
    decreases n,
{
    if n > 0 {
        lemma_node_pairs(s, incoming, (n - 1) as nat);
        let l = incoming[n - 1] as int;
        if l < s.links@.len() {
            let told = crate::verification::told_pipes(s.links@[l]);
            lemma_pipe_pairs(s, l, told);
            assert(overtaking_into(s, incoming[n - 1]) <==> pipe_pairs_upto(s, l, told).1 > 0);
        } else {
            assert(!overtaking_into(s, incoming[n - 1]));
        }
        if node_pairs_upto(s, incoming, n).1 > 0 && !overtaking_into(s, incoming[n - 1]) {
            let k = choose|k: int| 0 <= k < n - 1 && #[trigger] overtaking_into(s, incoming[k]);
            assert(overtaking_into(s, incoming[k]));
        }
    }
}

/// Somebody was overtaken on one of the pipes of a link.
pub open spec fn overtaking_into(s: Scenario, l: LinkID) -> bool {
    l < s.links@.len() && exists|p: int|
        0 <= p < crate::verification::told_pipes(s.links@[l as int]) && #[trigger] overtaking_on(
            s,
            l as int,
            p,
        )
}

/// A node fails the check of the order exactly if on some pipe of some link into it
/// somebody was overtaken by whoever arrived next.
pub proof fn law_order_fails_on_overtaking(s: Scenario, id: NodeID)
    requires
        id < s.nodes@.len(),
    ensures
        fifo_check(s, id).status == CheckStatus::Fail ==> exists|k: int|
            0 <= k < s.nodes@[id as int].incoming_links@.len() && #[trigger] overtaking_into(
                s,
                s.nodes@[id as int].incoming_links@[k],
            ),
        fifo_check(s, id).status == CheckStatus::Pass ==> forall|k: int|
            0 <= k < s.nodes@[id as int].incoming_links@.len() ==> !#[trigger] overtaking_into(
                s,
                s.nodes@[id as int].incoming_links@[k],
            ),
{
    let incoming = s.nodes@[id as int].incoming_links@;
    lemma_node_pairs(s, incoming, incoming.len());
}

/// Vehicle `v` went along the link at place `i` of its path, on the pipe.
pub open spec fn went_along(v: VehicleView, link: LinkID, pipe: PipeIdx, i: int) -> bool {
    0 <= i < v.path.len() && i + 1 < v.node_times.len() && v.path[i] == link
        && crate::analysis::pipe_taken(v, i) == pipe
}

/// The arrival and the passage of a vehicle at the end of a link.
pub open spec fn arrival(v: VehicleView, ff: Double, i: int) -> (Double, Double) {
    (v.node_times[i].plus(ff), v.node_times[i + 1])
}

/// The pair is the arrival and the passage of the vehicle, somewhere on its way.
pub open spec fn arrived(
    v: VehicleView,
    link: LinkID,
    pipe: PipeIdx,
    ff: Double,
    x: (Double, Double),
) -> bool {
    exists|i: int| #[trigger] went_along(v, link, pipe, i) && x == arrival(v, ff, i)
}

/// The pair is that of one of the first `n` vehicles.
pub open spec fn somebody_arrived(
    vehicles: Seq<VehicleView>,
    n: nat,
    link: LinkID,
    pipe: PipeIdx,
    ff: Double,
    x: (Double, Double),
) -> bool {
    exists|j: int| 0 <= j < n && arrived(#[trigger] vehicles[j], link, pipe, ff, x)
}

proof fn lemma_arrivals_along(
    acc: Seq<(Double, Double)>,
    v: VehicleView,
    link: LinkID,
    pipe: PipeIdx,
    ff: Double,
    k: nat,
)
    requires
        k <= v.path.len(),
    ensures
        ({
            let r = arrivals_along(acc, v, link, pipe, ff, k);
            &&& r.len() >= acc.len()
            &&& forall|a: int| 0 <= a < acc.len() ==> #[trigger] r[a] == acc[a]
            &&& forall|i: int|
                0 <= i < k && #[trigger] went_along(v, link, pipe, i) ==> r.contains(
                    arrival(v, ff, i),
                )
            &&& forall|a: int|
                acc.len() <= a < r.len() ==> arrived(v, link, pipe, ff, #[trigger] r[a])
        }),
    decreases k,
{
    if k > 0 {
        lemma_arrivals_along(acc, v, link, pipe, ff, (k - 1) as nat);
        let before = arrivals_along(acc, v, link, pipe, ff, (k - 1) as nat);
        let r = arrivals_along(acc, v, link, pipe, ff, k);
        assert forall|i: int| 0 <= i < k && #[trigger] went_along(v, link, pipe, i) implies r.contains(
            arrival(v, ff, i),
        ) by {
            if i < k - 1 {
                let a = choose|a: int| 0 <= a < before.len() && before[a] == arrival(v, ff, i);
                assert(r[a] == arrival(v, ff, i));
            } else {
                assert(r[before.len() as int] == arrival(v, ff, i));
            }
        }
        assert forall|a: int| acc.len() <= a < r.len() implies arrived(
            v,
            link,
            pipe,
            ff,
            #[trigger] r[a],
        ) by {
            if a < before.len() {
                assert(r[a] == before[a]);
            } else {
                assert(went_along(v, link, pipe, k - 1));
            }
        }
    }
}

/// Whoever went along a link on a pipe arrives at its end the given time after entering
/// it, and passes where the next link begins; nobody else is counted.
pub proof fn law_arrivals_are_of_those_who_went_along(
    vehicles: Seq<VehicleView>,
    link: LinkID,
    pipe: PipeIdx,
    ff: Double,
    n: nat,
)
    requires
        n <= vehicles.len(),
    ensures
        ({
            let r = arrivals_upto(vehicles, link, pipe, ff, n);
            &&& forall|j: int, i: int|
                0 <= j < n && #[trigger] went_along(vehicles[j], link, pipe, i) ==> r.contains(
                    (vehicles[j].node_times[i].plus(ff), vehicles[j].node_times[i + 1]),
                )
            &&& forall|a: int|
                0 <= a < r.len() ==> somebody_arrived(vehicles, n, link, pipe, ff, #[trigger] r[a])
        }),
    decreases n,
{
    if n > 0 {
        let m = (n - 1) as nat;
        law_arrivals_are_of_those_who_went_along(vehicles, link, pipe, ff, m);
        let acc = arrivals_upto(vehicles, link, pipe, ff, m);
        let v = vehicles[n - 1];
        lemma_arrivals_along(acc, v, link, pipe, ff, v.path.len());
        let r = arrivals_upto(vehicles, link, pipe, ff, n);
        assert forall|j: int, i: int|
            0 <= j < n && #[trigger] went_along(vehicles[j], link, pipe, i) implies r.contains(
            (vehicles[j].node_times[i].plus(ff), vehicles[j].node_times[i + 1]),
        ) by {
            if j < m {
                let a = choose|a: int|
                    0 <= a < acc.len() && acc[a] == arrival(vehicles[j], ff, i);
                assert(r[a] == acc[a]);
            } else {
                assert(r.contains(arrival(v, ff, i)));
            }
        }
        assert forall|a: int| 0 <= a < r.len() implies somebody_arrived(
            vehicles,
            n,
            link,
            pipe,
            ff,
            #[trigger] r[a],
        ) by {
            if a < acc.len() {
                assert(r[a] == acc[a]);
                let j = choose|j: int|
                    0 <= j < m && arrived(#[trigger] vehicles[j], link, pipe, ff, acc[a]);
                assert(arrived(vehicles[j], link, pipe, ff, r[a]));
            } else {
                assert(arrived(vehicles[n - 1], link, pipe, ff, r[a]));
            }
        }
    }
}

/// A vehicle arrives at the end of a link when it has gone its length at its speed: in
/// `t` seconds at `n` metres per second along `n * t` metres.
pub proof fn law_arrival_is_after_the_length_at_speed(l: Link, n: nat, t: nat)
    requires
        0 < n,
        n * t < TWO_52,
        n < TWO_53,
        t < TWO_53,
    ensures
        l.speed == whole(n) && l.length == whole(n * t) ==> free_time(l).le(
            whole(t),
        ) && free_time(l).ge(whole(t)),
        !l.speed.gt(Double::zero()) ==> free_time(l) == Double::zero(),
{
    crate::double::law_zero_and_one_are_whole();
    crate::double::law_whole_numbers_ascend(0, n);
    assert(n * t == t * n) by (nonlinear_arith);
    crate::double::law_whole_quotients_compare(n * t, n, t);
}

/// At an internal node the balance and the order are checked, at an entry the demand, and
/// at an exit nothing; each check is that of the node.
pub proof fn law_nodes_are_checked_by_their_type(
    s: Scenario,
    balances: Seq<NodeBalance>,
    n: int,
)
    requires
        0 <= n < s.nodes@.len(),
    ensures
        ({
            let node = s.nodes@[n];
            let e = node_element(s, balances, n);
            &&& e is None <==> node.node_type == NodeType::Exit
            &&& e matches Some(x) ==> x.element_id == node.id && x.pipe is None
            &&& node.node_type == NodeType::Internal ==> {
                &&& e->0.checks.len() == 2
                &&& e->0.checks.contains(conservation_check(balances, node.id))
                &&& e->0.checks.contains(fifo_check(s, node.id))
            }
            &&& node.node_type == NodeType::Entry ==> {
                &&& e->0.checks.len() == 1
                &&& e->0.checks.contains(demand_check(s, node.id))
            }
        }),
{
    let node = s.nodes@[n];
    let e = node_element(s, balances, n);
    if node.node_type == NodeType::Internal {
        let c = e->0.checks;
        assert(c[0] == conservation_check(balances, node.id));
        assert(c[1] == fifo_check(s, node.id));
    }
    if node.node_type == NodeType::Entry {
        assert(e->0.checks[0] == demand_check(s, node.id));
    }
}

proof fn lemma_pipe_elements(s: Scenario, l: int, n: nat)
    requires
        n <= 256,
    ensures
        ({
            let r = pipe_elements_upto(s, l, n);
            let link = s.links@[l];
            &&& r.len() == n
            &&& forall|p: int|
                0 <= p < n ==> (#[trigger] r[p]).element_id == link.id && r[p].pipe == Some(p as u8)
                    && r[p].checks == stream_checks(
                    StreamParams::of_pipe(link, link.pipes@[p]),
                    PassagesView::over(s, link.id, p as u8),
                )
        }),
    decreases n,
{
    if n > 0 {
        lemma_pipe_elements(s, l, (n - 1) as nat);
        assert((n - 1) % 256 == n - 1);
    }
}

/// A link is checked as a stream, and against its diagram: in one element where it has at
/// most one pipe, else the stream of each pipe in an element of its own and the diagram in
/// one more. A stream is checked for its speed, its inflow, its storage and its wave.
pub proof fn law_links_are_checked_pipe_by_pipe(
    s: Scenario,
    points: Seq<FDPoint>,
    l: int,
    p: int,
)
    requires
        0 <= l < s.links@.len(),
        s.links@[l].pipes@.len() <= 256,
    ensures
        ({
            let link = s.links@[l];
            let e = link_elements(s, points, l);
            let adherence = adherence_check(s, points, link.id);
            &&& e.len() == (if link.pipes@.len() <= 1 {
                1
            } else {
                link.pipes@.len() + 1
            })
            &&& e.last().checks.contains(adherence) && e.last().element_id == link.id
                && e.last().pipe is None
            &&& 0 <= p < link.pipes@.len() && link.pipes@.len() > 1 ==> {
                &&& e[p].element_id == link.id && e[p].pipe == Some(p as u8)
                &&& e[p].checks.len() == 4
                &&& e[p].checks.contains(
                    free_flow_check(
                        StreamParams::of_pipe(link, link.pipes@[p]),
                        PassagesView::over(s, link.id, p as u8),
                    ),
                )
                &&& e[p].checks[0].kind == CheckKind::FreeFlow
                &&& e[p].checks[1].kind == CheckKind::InflowCapacity
                &&& e[p].checks[2].kind == CheckKind::StorageBound
                &&& e[p].checks[3].kind == CheckKind::BackwardWave
            }
            &&& link.pipes@.len() <= 1 ==> {
                &&& e[0].checks.len() == 5
                &&& e[0].checks[0].kind == CheckKind::FreeFlow
                &&& e[0].checks[1].kind == CheckKind::InflowCapacity
                &&& e[0].checks[2].kind == CheckKind::StorageBound
                &&& e[0].checks[3].kind == CheckKind::BackwardWave
            }
        }),
{
    let link = s.links@[l];
    let e = link_elements(s, points, l);
    let adherence = adherence_check(s, points, link.id);
    lemma_pipe_elements(s, l, link.pipes@.len());
    if link.pipes@.len() <= 1 {
        assert(e[0].checks[4] == adherence);
    } else {
        assert(e.last().checks[0] == adherence);
        if 0 <= p < link.pipes@.len() {
            assert(e[p] == pipe_elements_upto(s, l, link.pipes@.len())[p]);
            assert(e[p].checks[0] == free_flow_check(
                StreamParams::of_pipe(link, link.pipes@[p]),
                PassagesView::over(s, link.id, p as u8),
            ));
        }
    }
}

} // verus!
