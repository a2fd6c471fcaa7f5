//! What a run owes to the checks that it is held against afterwards.

use crate::analysis::{bin_count, LinkStats};
use crate::constants::TIME_SLACK;
use crate::diagnostics::{FDPoint, NodeBalance};
use crate::double::Double;
use crate::journeys::Roads;
use crate::model::{LinkID, NodeID, PipeIdx, Scenario, VehID, VehicleView};
use crate::order::{in_order, origin, ranks};
use crate::simulation::SimView;
use crate::verification::{
    adherence_check, arranged, arrival_ranks, arrivals_along, arrivals_upto, by_arrival,
    early_upto, element_of, element_views, fifo_check, free_flow_check, free_time, gaps, has_place,
    id_keys, inflow_check, inversions_upto, link_elements, link_elements_upto, lower_bound,
    min_upto, neighbours, node_elements_upto, node_pairs_upto, peak_from, pipe_elements_upto,
    pipe_pairs_upto, ranked, report_from, severity_keys, slot_delay, slot_uses, storage_check,
    stream_checks, told_pipes, wave_check, CheckKind, CheckStatus, ElementType, ElementView,
    PassagesView, StreamParams, VerificationReport,
};
use vstd::prelude::*;

verus! {

// ── Lists ────────────────────────────────────────────────────────────────────

/// Two arrangements of the same items that both ascend agree, place by place,
/// on what they ascend by.
proof fn lemma_same_order<A>(a: Seq<A>, b: Seq<A>, key: spec_fn(A) -> int)
    requires
        a.no_duplicates(),
        b.no_duplicates(),
        a.len() == b.len(),
        forall|x: A| #[trigger] a.contains(x) <==> b.contains(x),
        forall|i: int, j: int| 0 <= i < j < a.len() ==> key(#[trigger] a[i]) <= key(#[trigger] a[j]),
        forall|i: int, j: int| 0 <= i < j < b.len() ==> key(#[trigger] b[i]) <= key(#[trigger] b[j]),
    ensures
        forall|i: int| 0 <= i < a.len() ==> key(#[trigger] a[i]) == key(b[i]),
    decreases a.len(),
{
    if a.len() > 0 {
        let n = a.len() - 1;
        let x = a[n];
        assert(a.contains(x));
        assert(b.contains(x));
        let j = choose|j: int| 0 <= j < b.len() && b[j] == x;
        let c = a.drop_last();
        let d = b.remove(j);
        assert(b.contains(b[n]));
        assert(a.contains(b[n]));
        let m = choose|m: int| 0 <= m < a.len() && a[m] == b[n];
        assert(key(b[n]) <= key(x));
        assert(key(x) <= key(b[n]));
        assert forall|i: int| 0 <= i < n implies key(#[trigger] d[i]) == key(b[i]) by {
            if i >= j {
                assert(d[i] == b[i + 1]);
                assert(key(b[j]) <= key(b[i]) || i == j);
                assert(key(b[i]) <= key(b[i + 1]));
                assert(key(b[i + 1]) <= key(b[n]) || i + 1 == n);
            }
        }
        assert forall|y: A| #[trigger] c.contains(y) <==> d.contains(y) by {
            lemma_without(a, n, y);
            lemma_without(b, j, y);
            assert(a.remove(n) =~= c);
            assert(a.contains(y) <==> b.contains(y));
        }
        lemma_without(b, j, x);
        lemma_without(a, n, x);
        assert(a.remove(n) =~= c);
        assert forall|i: int, k: int| 0 <= i < k < d.len() implies key(#[trigger] d[i]) <= key(
            #[trigger] d[k],
        ) by {
            assert(key(d[i]) == key(b[i]) && key(d[k]) == key(b[k]));
        }
        lemma_same_order(c, d, key);
        assert forall|i: int| 0 <= i < a.len() implies key(#[trigger] a[i]) == key(b[i]) by {
            if i < n {
                assert(c[i] == a[i]);
                assert(key(d[i]) == key(b[i]));
            }
        }
    }
}

/// A list without the item at one place.
proof fn lemma_without<A>(s: Seq<A>, j: int, y: A)
    requires
        s.no_duplicates(),
        0 <= j < s.len(),
    ensures
        s.remove(j).no_duplicates(),
        s.remove(j).contains(y) <==> s.contains(y) && y != s[j],
{
    let t = s.remove(j);
    assert forall|i: int, k: int| 0 <= i < t.len() && 0 <= k < t.len() && i != k implies t[i]
        != t[k] by {
        let (a, b) = (
            if i < j {
                i
            } else {
                i + 1
            },
            if k < j {
                k
            } else {
                k + 1
            },
        );
        assert(t[i] == s[a] && t[k] == s[b]);
    }
    if t.contains(y) {
        let i = choose|i: int| 0 <= i < t.len() && t[i] == y;
        assert(s[if i < j {
            i
        } else {
            i + 1
        }] == y);
    }
    if s.contains(y) && y != s[j] {
        let i = choose|i: int| 0 <= i < s.len() && s[i] == y;
        assert(t[if i < j {
            i
        } else {
            i - 1
        }] == y);
    }
}

/// Lists without repetitions that hold the same are of the same length.
proof fn lemma_same_length<A>(a: Seq<A>, b: Seq<A>)
    requires
        a.no_duplicates(),
        b.no_duplicates(),
        forall|x: A| #[trigger] a.contains(x) <==> b.contains(x),
    ensures
        a.len() == b.len(),
{
    a.unique_seq_to_set();
    b.unique_seq_to_set();
    assert(a.to_set() =~= b.to_set());
}

// ── Passages ─────────────────────────────────────────────────────────────────

/// The vehicle is on record at place `k` of its path, on this pipe.
spec fn rode(v: VehicleView, k: int, l: LinkID, p: PipeIdx) -> bool {
    &&& 0 <= k < v.path.len()
    &&& k < v.node_times.len()
    &&& v.path[k] == l
    &&& crate::analysis::pipe_taken(v, k) == p
}

/// The rides of a vehicle over the first `k` links of its path, behind those in
/// `acc`; with `d` one, those that have ended.
spec fn rides_along(
    acc: Seq<(VehID, int)>,
    id: VehID,
    v: VehicleView,
    l: LinkID,
    p: PipeIdx,
    d: int,
    k: nat,
) -> Seq<(VehID, int)>
    decreases k,
{
    if k == 0 {
        acc
    } else {
        let before = rides_along(acc, id, v, l, p, d, (k - 1) as nat);
        if rode(v, k - 1, l, p) && k - 1 + d < v.node_times.len() {
            before.push((id, k - 1))
        } else {
            before
        }
    }
}

/// The rides of the first `n` vehicles.
spec fn rides_upto(
    vehicles: Seq<VehicleView>,
    l: LinkID,
    p: PipeIdx,
    d: int,
    n: nat,
) -> Seq<(VehID, int)>
    decreases n,
{
    if n == 0 {
        Seq::empty()
    } else {
        rides_along(
            rides_upto(vehicles, l, p, d, (n - 1) as nat),
            (n - 1) as usize,
            vehicles[n - 1],
            l,
            p,
            d,
            vehicles[n - 1].path.len(),
        )
    }
}

/// The times are those of the rides, one for one.
spec fn times_of(
    vehicles: Seq<VehicleView>,
    times: Seq<Double>,
    rides: Seq<(VehID, int)>,
    d: int,
) -> bool {
    &&& times.len() == rides.len()
    &&& forall|i: int|
        0 <= i < rides.len() ==> #[trigger] times[i]
            == vehicles[rides[i].0 as int].node_times[rides[i].1 + d]
}

proof fn lemma_times_along(
    vehicles: Seq<VehicleView>,
    acc: PassagesView,
    rides: Seq<(VehID, int)>,
    ends: Seq<(VehID, int)>,
    id: VehID,
    l: LinkID,
    p: PipeIdx,
    k: nat,
)
    requires
        id < vehicles.len(),
        k <= vehicles[id as int].path.len(),
        times_of(vehicles, acc.entries, rides, 0),
        times_of(vehicles, acc.exits, ends, 1),
    ensures
        ({
            let v = vehicles[id as int];
            let after = acc.along(v, l, p, k);
            &&& times_of(vehicles, after.entries, rides_along(rides, id, v, l, p, 0, k), 0)
            &&& times_of(vehicles, after.exits, rides_along(ends, id, v, l, p, 1, k), 1)
        }),
    decreases k,
{
    if k > 0 {
        lemma_times_along(vehicles, acc, rides, ends, id, l, p, (k - 1) as nat);
    }
}

proof fn lemma_times_upto(vehicles: Seq<VehicleView>, l: LinkID, p: PipeIdx, n: nat)
    requires
        n <= vehicles.len() <= usize::MAX,
    ensures
        ({
            let seen = PassagesView::of_vehicles(vehicles, l, p, n);
            &&& times_of(vehicles, seen.entries, rides_upto(vehicles, l, p, 0, n), 0)
            &&& times_of(vehicles, seen.exits, rides_upto(vehicles, l, p, 1, n), 1)
        }),
    decreases n,
{
    if n > 0 {
        lemma_times_upto(vehicles, l, p, (n - 1) as nat);
        lemma_times_along(
            vehicles,
            PassagesView::of_vehicles(vehicles, l, p, (n - 1) as nat),
            rides_upto(vehicles, l, p, 0, (n - 1) as nat),
            rides_upto(vehicles, l, p, 1, (n - 1) as nat),
            (n - 1) as usize,
            l,
            p,
            vehicles[n - 1].path.len(),
        );
    }
}

proof fn lemma_rides_along(
    acc: Seq<(VehID, int)>,
    id: VehID,
    v: VehicleView,
    l: LinkID,
    p: PipeIdx,
    d: int,
    k: nat,
)
    requires
        acc.no_duplicates(),
        forall|i: int| !#[trigger] acc.contains((id, i)),
        k <= v.path.len(),
    ensures
        rides_along(acc, id, v, l, p, d, k).no_duplicates(),
        forall|w: VehID, i: int| #[trigger]
            rides_along(acc, id, v, l, p, d, k).contains((w, i)) <==> acc.contains((w, i)) || (w
                == id && i < k && rode(v, i, l, p) && i + d < v.node_times.len()),
    decreases k,
{
    if k > 0 {
        lemma_rides_along(acc, id, v, l, p, d, (k - 1) as nat);
        let before = rides_along(acc, id, v, l, p, d, (k - 1) as nat);
        assert(!before.contains((id, k - 1)));
        assert forall|w: VehID, i: int| #[trigger]
            rides_along(acc, id, v, l, p, d, k).contains((w, i)) <==> acc.contains((w, i)) || (w
                == id && i < k && rode(v, i, l, p) && i + d < v.node_times.len()) by {
            crate::supply::lemma_push_once(before, (id, k - 1), (w, i));
            assert(before.contains((w, i)) <==> acc.contains((w, i)) || (w == id && i < k - 1
                && rode(v, i, l, p) && i + d < v.node_times.len()));
        }
        crate::supply::lemma_push_once(before, (id, k - 1), (id, k - 1));
    }
}

proof fn lemma_rides_upto(vehicles: Seq<VehicleView>, l: LinkID, p: PipeIdx, d: int, n: nat)
    requires
        n <= vehicles.len() <= usize::MAX,
    ensures
        rides_upto(vehicles, l, p, d, n).no_duplicates(),
        forall|w: VehID, i: int| #[trigger]
            rides_upto(vehicles, l, p, d, n).contains((w, i)) <==> w < n && rode(
                vehicles[w as int],
                i,
                l,
                p,
            ) && i + d < vehicles[w as int].node_times.len(),
    decreases n,
{
    if n > 0 {
        lemma_rides_upto(vehicles, l, p, d, (n - 1) as nat);
        let before = rides_upto(vehicles, l, p, d, (n - 1) as nat);
        let id = (n - 1) as usize;
        assert forall|i: int| !#[trigger] before.contains((id, i)) by {}
        lemma_rides_along(before, id, vehicles[n - 1], l, p, d, vehicles[n - 1].path.len());
    }
}

impl SimView {
    /// What a stream has on record are the rides on its pipe.
    proof fn lemma_rides_listed(self, l: LinkID, p: PipeIdx)
        requires
            self.orderly(),
            self.vehicles.len() <= usize::MAX,
        ensures
            self.lists_rides(l, p, rides_upto(self.vehicles, l, p, 0, self.vehicles.len())),
            self.lists_ends(l, p, rides_upto(self.vehicles, l, p, 1, self.vehicles.len())),
    {
        lemma_rides_upto(self.vehicles, l, p, 0, self.vehicles.len());
        lemma_rides_upto(self.vehicles, l, p, 1, self.vehicles.len());
        let (rides, ends) = (
            rides_upto(self.vehicles, l, p, 0, self.vehicles.len()),
            rides_upto(self.vehicles, l, p, 1, self.vehicles.len()),
        );
        assert forall|v: VehID, k: int| v < self.vehicles.len() implies (rode(
            self.vehicles[v as int],
            k,
            l,
            p,
        ) <==> #[trigger] self.vehicles[v as int].took(k, l, p)) by {
            assert(self.vehicles[v as int].on_course());
        }
        assert forall|v: VehID, k: int| #[trigger]
            rides.contains((v, k)) <==> v < self.vehicles.len() && self.vehicles[v as int].took(
                k,
                l,
                p,
            ) by {
            if v < self.vehicles.len() {
                assert(rode(self.vehicles[v as int], k, l, p) <==> self.vehicles[v as int].took(
                    k,
                    l,
                    p,
                ));
            }
        }
        assert forall|v: VehID, k: int| #[trigger]
            ends.contains((v, k)) <==> v < self.vehicles.len() && self.vehicles[v as int].left(
                k,
                l,
                p,
            ) by {
            if v < self.vehicles.len() {
                assert(rode(self.vehicles[v as int], k, l, p) <==> self.vehicles[v as int].took(
                    k,
                    l,
                    p,
                ));
            }
        }
    }
}

/// Times in order, each with the ride that it is of; finite times ascend.
proof fn lemma_in_order(
    vehicles: Seq<VehicleView>,
    times: Seq<Double>,
    rides: Seq<(VehID, int)>,
    d: int,
) -> (sorted: Seq<(VehID, int)>)
    requires
        times_of(vehicles, times, rides, d),
        times.len() <= usize::MAX,
        rides.no_duplicates(),
        forall|i: int| 0 <= i < times.len() ==> (#[trigger] times[i]).finite(),
    ensures
        times_of(vehicles, in_order(times), sorted, d),
        sorted.no_duplicates(),
        sorted.len() == rides.len(),
        forall|x: (VehID, int)| #[trigger] sorted.contains(x) <==> rides.contains(x),
        forall|i: int, j: int|
            0 <= i < j < sorted.len() ==> (#[trigger] in_order(times)[i]).key() <= (
            #[trigger] in_order(times)[j]).key() && in_order(times)[i].rank() <= in_order(
                times,
            )[j].rank(),
{
    let keys = ranks(times);
    crate::order::law_sorted_tags(keys);
    let sorted = Seq::new(rides.len(), |i: int| rides[origin(keys, i)]);
    assert forall|i: int, j: int| 0 <= i < j < sorted.len() implies (
    #[trigger] in_order(times)[i]).key() <= (#[trigger] in_order(times)[j]).key() && in_order(
        times,
    )[i].rank() <= in_order(times)[j].rank() by {
        let (a, b) = (origin(keys, i), origin(keys, j));
        assert(keys[a] == times[a].rank() as i64 && keys[b] == times[b].rank() as i64);
        assert(times[a].finite() && times[b].finite());
    }
    assert forall|i: int, j: int|
        0 <= i < sorted.len() && 0 <= j < sorted.len() && i != j implies sorted[i] != sorted[j] by {
        let (a, b) = (origin(keys, i), origin(keys, j));
        assert(a != b);
    }
    assert forall|x: (VehID, int)| #[trigger] sorted.contains(x) <==> rides.contains(x) by {
        if sorted.contains(x) {
            let i = choose|i: int| 0 <= i < sorted.len() && sorted[i] == x;
            assert(rides[origin(keys, i)] == x);
        }
        if rides.contains(x) {
            let k = choose|k: int| 0 <= k < rides.len() && rides[k] == x;
            assert(crate::order::occurs(keys, k));
            let i = choose|i: int| 0 <= i < keys.len() && #[trigger] origin(keys, i) == k;
            assert(sorted[i] == x);
        }
    }
    sorted
}

// ── Times ────────────────────────────────────────────────────────────────────

/// The clock is fine enough at `t` to tell a span of `x`: what is added to `t`
/// is found again, within the tolerance of the checks, as the difference.
pub open spec fn resolves(t: Double, x: Double) -> bool {
    t.plus(x).finite() && !t.plus(x).minus(t).lt(lower_bound(x))
}

/// At all times that a vehicle has on record, the clock tells a span of `x`.
pub open spec fn resolves_all(vehicles: Seq<VehicleView>, x: Double) -> bool {
    forall|v: int, k: int|
        0 <= v < vehicles.len() && 0 <= k < vehicles[v].node_times.len() ==> resolves(
            #[trigger] vehicles[v].node_times[k],
            x,
        )
}

/// No time on record is the negative zero.
pub open spec fn unsigned_zeros(vehicles: Seq<VehicleView>) -> bool {
    forall|v: int, k: int|
        0 <= v < vehicles.len() && 0 <= k < vehicles[v].node_times.len() ==> ((
        #[trigger] vehicles[v].node_times[k]).key() == 0 ==> !vehicles[v].node_times[k].negative())
}

proof fn lemma_told(t: Double, x: Double, u: Double)
    requires
        t.finite(),
        u.finite(),
        t.plus(x).le(u),
        resolves(t, x),
    ensures
        !u.minus(t).lt(lower_bound(x)),
{
    crate::double::law_sum_monotone(t.plus(x), u, t.spec_negated());
}

/// The same where the times are only known up to the sign of zero.
proof fn lemma_told_as(t: Double, x: Double, u: Double, t2: Double, u2: Double)
    requires
        t.finite(),
        u.finite(),
        t2.finite(),
        u2.finite(),
        t.key() == t2.key(),
        u.key() == u2.key(),
        t2.plus(x).le(u2),
        resolves(t, x),
    ensures
        !u.minus(t).lt(lower_bound(x)),
{
    if x.nan() {
        reveal(Double::spec_plus);
    } else {
        crate::double::law_sum_monotone(t, t2, x);
        lemma_told(t, x, u);
    }
}

proof fn lemma_least(s: Seq<Double>, n: nat, bound: Double)
    requires
        n <= s.len(),
        forall|i: int| 0 <= i < n ==> !(#[trigger] s[i]).lt(bound),
    ensures
        !min_upto(s, n).lt(bound),
    decreases n,
{
    if n > 0 {
        lemma_least(s, (n - 1) as nat, bound);
    }
}

proof fn lemma_travel_told(
    t: SimView,
    roads: Roads,
    acc: PassagesView,
    id: int,
    l: LinkID,
    p: PipeIdx,
    k: nat,
    bound: Double,
)
    requires
        t.on_pace(roads),
        t.flat(roads),
        l < t.links.len(),
        0 <= id < t.vehicles.len(),
        k <= t.vehicles[id].path.len(),
        bound == lower_bound(t.links[l as int].travel_time()),
        resolves_all(t.vehicles, t.links[l as int].travel_time()),
        forall|i: int| 0 <= i < acc.travel.len() ==> !(#[trigger] acc.travel[i]).lt(bound),
    ensures
        ({
            let travel = acc.along(t.vehicles[id], l, p, k).travel;
            forall|i: int| 0 <= i < travel.len() ==> !(#[trigger] travel[i]).lt(bound)
        }),
    decreases k,
{
    if k > 0 {
        lemma_travel_told(t, roads, acc, id, l, p, (k - 1) as nat, bound);
        let v = t.vehicles[id];
        let i = k - 1;
        if i + 1 < v.node_times.len() && v.path[i] == l {
            assert(t.pace_right(roads, v));
            assert(t.pace_at(roads, v, i));
            assert(t.past_at(v, i));
            assert(t.past_at(v, i + 1));
            assert(v.node_times[i].plus(t.links[l as int].travel_time()).le(v.node_times[i + 1]));
            assert(resolves(t.vehicles[id].node_times[i], t.links[l as int].travel_time()));
            lemma_told(v.node_times[i], t.links[l as int].travel_time(), v.node_times[i + 1]);
        }
        let before = acc.along(v, l, p, (k - 1) as nat).travel;
        let travel = acc.along(v, l, p, k).travel;
        assert forall|m: int| 0 <= m < travel.len() implies !(#[trigger] travel[m]).lt(bound) by {
            if m < before.len() {
                assert(travel[m] == before[m]);
            } else {
                assert(travel[m] == v.node_times[i + 1].minus(v.node_times[i]));
            }
        }
    }
}

proof fn lemma_travels_told(t: SimView, roads: Roads, l: LinkID, p: PipeIdx, n: nat, bound: Double)
    requires
        t.on_pace(roads),
        t.flat(roads),
        l < t.links.len(),
        n <= t.vehicles.len(),
        bound == lower_bound(t.links[l as int].travel_time()),
        resolves_all(t.vehicles, t.links[l as int].travel_time()),
    ensures
        ({
            let travel = PassagesView::of_vehicles(t.vehicles, l, p, n).travel;
            forall|i: int| 0 <= i < travel.len() ==> !(#[trigger] travel[i]).lt(bound)
        }),
    decreases n,
{
    if n > 0 {
        lemma_travels_told(t, roads, l, p, (n - 1) as nat, bound);
        lemma_travel_told(
            t,
            roads,
            PassagesView::of_vehicles(t.vehicles, l, p, (n - 1) as nat),
            n - 1,
            l,
            p,
            t.vehicles[n - 1].path.len(),
            bound,
        );
    }
}

/// Entry `q` comes no sooner than the exit that makes room for it.
spec fn has_room(entries: Seq<Double>, exits: Seq<Double>, q: int, dn: int) -> bool {
    q - dn < exits.len() && exits[q - dn].rank() <= entries[q].rank()
}

/// Never more than `dn` are present where every entry beyond the first `dn`
/// comes no sooner than the exit that makes room for it.
proof fn lemma_peak(
    entries: Seq<Double>,
    exits: Seq<Double>,
    i: nat,
    j: nat,
    occ: int,
    most: int,
    dn: int,
)
    requires
        occ == i - j,
        most <= dn,
        0 <= dn,
        forall|a: int, b: int|
            0 <= a <= b < exits.len() ==> (#[trigger] exits[a]).rank() <= (
            #[trigger] exits[b]).rank(),
        forall|q: int|
            dn <= q < entries.len() ==> #[trigger] has_room(entries, exits, q, dn),
    ensures
        peak_from(entries, exits, i, j, occ, most) <= dn,
    decreases (entries.len() - i) + (exits.len() - j),
{
    if i >= entries.len() && j >= exits.len() {
    } else if i > entries.len() || j > exits.len() {
    } else if j < exits.len() && (i >= entries.len() || !entries[i as int].before(
        exits[j as int],
    )) {
        lemma_peak(entries, exits, i, j + 1, occ - 1, most, dn);
    } else {
        if i + 1 - j > dn {
            assert(has_room(entries, exits, i as int, dn));
            assert(exits[j as int].rank() <= exits[i - dn].rank());
        }
        lemma_peak(
            entries,
            exits,
            i + 1,
            j,
            occ + 1,
            if occ + 1 > most {
                occ + 1
            } else {
                most
            },
            dn,
        );
    }
}

proof fn lemma_none_early(p: PassagesView, dn: nat, expected: Double, n: nat)
    requires
        forall|k: int| 0 <= k < n ==> !(#[trigger] slot_delay(p, dn, k)).lt(lower_bound(expected)),
    ensures
        early_upto(p, dn, expected, n) == 0,
    decreases n,
{
    if n > 0 {
        lemma_none_early(p, dn, expected, (n - 1) as nat);
        assert(!slot_delay(p, dn, n - 1).lt(lower_bound(expected)));
    }
}

// ── Laws ─────────────────────────────────────────────────────────────────────

spec fn is_one_of(times: Seq<Double>, x: Double) -> bool {
    exists|k: int| 0 <= k < times.len() && #[trigger] times[k] == x
}

/// The sorted times of a record are those of a list of its rides that ascends.
proof fn lemma_times_agree(
    vehicles: Seq<VehicleView>,
    times: Seq<Double>,
    seen: Seq<(VehID, int)>,
    rides: Seq<(VehID, int)>,
    d: int,
)
    requires
        times_of(vehicles, times, seen, d),
        times.len() <= usize::MAX,
        seen.no_duplicates(),
        rides.no_duplicates(),
        forall|x: (VehID, int)| #[trigger] seen.contains(x) <==> rides.contains(x),
        forall|i: int| 0 <= i < times.len() ==> (#[trigger] times[i]).finite(),
        forall|i: int, j: int|
            0 <= i < j < rides.len() ==> vehicles[(
            #[trigger] rides[i]).0 as int].node_times[rides[i].1 + d].key() <= vehicles[(
            #[trigger] rides[j]).0 as int].node_times[rides[j].1 + d].key(),
    ensures
        in_order(times).len() == rides.len(),
        forall|i: int|
            0 <= i < rides.len() ==> (#[trigger] in_order(times)[i]).key() == vehicles[(
            rides[i]).0 as int].node_times[rides[i].1 + d].key(),
        forall|i: int|
            0 <= i < rides.len() ==> seen.contains(#[trigger] rides[i]),
        forall|i: int|
            0 <= i < rides.len() ==> is_one_of(times, #[trigger] in_order(times)[i]),
        forall|i: int, j: int|
            0 <= i <= j < rides.len() ==> (#[trigger] in_order(times)[i]).rank() <= (
            #[trigger] in_order(times)[j]).rank(),
{
    let sorted = lemma_in_order(vehicles, times, seen, d);
    assert forall|x: (VehID, int)| #[trigger] sorted.contains(x) <==> rides.contains(x) by {
        assert(sorted.contains(x) <==> seen.contains(x));
    }
    lemma_same_length(sorted, rides);
    let key = |x: (VehID, int)| vehicles[x.0 as int].node_times[x.1 + d].key();
    assert forall|i: int, j: int| 0 <= i < j < sorted.len() implies key(#[trigger] sorted[i]) <= key(
        #[trigger] sorted[j],
    ) by {
        assert(in_order(times)[i].key() <= in_order(times)[j].key());
    }
    lemma_same_order(sorted, rides, key);
    assert forall|i: int| 0 <= i < rides.len() implies (#[trigger] in_order(times)[i]).key()
        == vehicles[(rides[i]).0 as int].node_times[rides[i].1 + d].key() by {
        assert(key(sorted[i]) == key(rides[i]));
    }
    assert forall|i: int| 0 <= i < rides.len() implies seen.contains(#[trigger] rides[i]) by {
        assert(rides.contains(rides[i]));
    }
    crate::order::law_sorted_tags(ranks(times));
    assert forall|i: int| 0 <= i < rides.len() implies is_one_of(
        times,
        #[trigger] in_order(times)[i],
    ) by {
        let k = origin(ranks(times), i);
        assert(in_order(times)[i] == times[k]);
    }
}

/// The clock is fine enough to tell the spans that the pipe is checked for at the
/// times that occur, and the wave delay is not negative.
pub open spec fn can_tell(t: SimView, l: LinkID, p: PipeIdx) -> bool {
    let pipe = t.pipe(l, p);
    let seen = PassagesView::of_vehicles(t.vehicles, l, p, t.vehicles.len());
    &&& seen.entries.len() <= usize::MAX
    &&& seen.exits.len() <= usize::MAX
    &&& unsigned_zeros(t.vehicles)
    &&& resolves_all(t.vehicles, t.links[l as int].travel_time())
    &&& pipe.capacity.gt(Double::zero()) ==> resolves_all(
        t.vehicles,
        Double::one().over(pipe.capacity),
    )
    &&& pipe.storage_veh is Some ==> pipe.wave_delay.ge(Double::zero()) && resolves_all(
        t.vehicles,
        pipe.wave_delay,
    )
}

/// A run passes its own checks: without overrides, no check of a pipe against
/// its free-flow time, its capacity, its storage and its backward wave ends in a
/// failure, as long as the clock is fine enough to tell these spans at the times
/// that occur, and the wave delay is not negative.
pub proof fn law_run_passes_its_checks(
    s: SimView,
    n: nat,
    scenario: Scenario,
    l: LinkID,
    p: PipeIdx,
    i: int,
)
    requires
        s.orderly(),
        s.paced(),
        s.schedule.len() == 0,
        s.ticking(),
        forall|k: nat| k < n ==> (#[trigger] s.steps(k)).live(),
        s.steps(n).vehicles == crate::simulation::vehicle_views(scenario.vehicles@),
        s.steps(n).links == crate::simulation::link_views(scenario.links@),
        s.steps(n).has_pipe(l, p),
        can_tell(s.steps(n), l, p),
        0 <= i < 4,
    ensures
        stream_checks(
            StreamParams::of_pipe(
                scenario.links@[l as int],
                scenario.links@[l as int].pipes@[p as int],
            ),
            PassagesView::over(scenario, l, p),
        )[i].status != CheckStatus::Fail,
{
    let (rides, ends) = crate::supply::law_supply_constraint(s, n, l, p);
    crate::journeys::lemma_run_paced(s, n);
    let t = s.steps(n);
    let roads = s.roads();
    crate::journeys::lemma_steady_times(s, t);
    let link = scenario.links@[l as int];
    let pipe = t.pipe(l, p);
    assert(scenario.vehicles.len() == t.vehicles.len());
    assert(t.links[l as int] == link@);
    assert(pipe == link.pipes@[p as int]@);
    let sp = StreamParams::of_pipe(link, link.pipes@[p as int]);
    let all = PassagesView::of_vehicles(t.vehicles, l, p, t.vehicles.len());
    let seen = PassagesView::over(scenario, l, p);
    let (q, r) = (
        rides_upto(t.vehicles, l, p, 0, t.vehicles.len()),
        rides_upto(t.vehicles, l, p, 1, t.vehicles.len()),
    );
    lemma_times_upto(t.vehicles, l, p, t.vehicles.len());
    t.lemma_rides_listed(l, p);
    // Every time on record is finite, and no zero is negative.
    assert forall|k: int| 0 <= k < q.len() implies (#[trigger] all.entries[k]).finite()
        && on_record(t.vehicles, all.entries[k]) by {
        let (v, m) = q[k];
        assert(q.contains((v, m)));
        assert(t.vehicles[v as int].on_course());
        assert(t.pace_right(roads, t.vehicles[v as int]));
        assert(t.past_at(t.vehicles[v as int], m));
        assert(all.entries[k] == t.vehicles[v as int].node_times[m]);
    }
    assert forall|k: int| 0 <= k < r.len() implies (#[trigger] all.exits[k]).finite() && on_record(
        t.vehicles,
        all.exits[k],
    ) by {
        let (v, m) = r[k];
        assert(r.contains((v, m)));
        assert(t.pace_right(roads, t.vehicles[v as int]));
        assert(t.past_at(t.vehicles[v as int], m + 1));
        assert(all.exits[k] == t.vehicles[v as int].node_times[m + 1]);
    }
    assert forall|x: (VehID, int)| #[trigger] q.contains(x) <==> rides.contains(x) by {
        assert(q.contains((x.0, x.1)) <==> rides.contains((x.0, x.1)));
    }
    assert forall|x: (VehID, int)| #[trigger] r.contains(x) <==> ends.contains(x) by {
        assert(r.contains((x.0, x.1)) <==> ends.contains((x.0, x.1)));
    }
    assert forall|a: int, b: int| 0 <= a < b < rides.len() implies t.vehicles[(
    #[trigger] rides[a]).0 as int].node_times[rides[a].1 + 0].key() <= t.vehicles[(
    #[trigger] rides[b]).0 as int].node_times[rides[b].1 + 0].key() by {
        assert(t.begun_in_order(rides[a], rides[b]));
    }
    assert forall|a: int, b: int| 0 <= a < b < ends.len() implies t.vehicles[(
    #[trigger] ends[a]).0 as int].node_times[ends[a].1 + 1].key() <= t.vehicles[(
    #[trigger] ends[b]).0 as int].node_times[ends[b].1 + 1].key() by {
        assert(t.ended_in_order(ends[a], ends[b]));
    }
    lemma_times_agree(t.vehicles, all.entries, q, rides, 0);
    lemma_times_agree(t.vehicles, all.exits, r, ends, 1);
    assert(seen.entries == in_order(all.entries) && seen.exits == in_order(all.exits));
    assert forall|k: int| 0 <= k < rides.len() implies (#[trigger] seen.entries[k]).finite()
        && on_record(t.vehicles, seen.entries[k]) && seen.entries[k].key() == t.entry_time(
        rides[k],
    ).key() && t.entry_time(rides[k]).finite() by {
        assert(is_one_of(all.entries, in_order(all.entries)[k]));
        let m = choose|m: int|
            0 <= m < all.entries.len() && #[trigger] all.entries[m] == in_order(all.entries)[k];
        assert(all.entries[m].finite());
        assert(q.contains(rides[k]));
        let o = choose|o: int| 0 <= o < q.len() && q[o] == rides[k];
        assert(all.entries[o].finite());
    }
    assert forall|k: int| 0 <= k < ends.len() implies (#[trigger] seen.exits[k]).finite()
        && on_record(t.vehicles, seen.exits[k]) && seen.exits[k].key() == t.exit_time(
        ends[k],
    ).key() && t.exit_time(ends[k]).finite() by {
        assert(is_one_of(all.exits, in_order(all.exits)[k]));
        let m = choose|m: int|
            0 <= m < all.exits.len() && #[trigger] all.exits[m] == in_order(all.exits)[k];
        assert(all.exits[m].finite());
        assert(r.contains(ends[k]));
        let o = choose|o: int| 0 <= o < r.len() && r[o] == ends[k];
        assert(all.exits[o].finite());
    }
    lemma_free_flow_owed(t, roads, l, p, sp, seen);
    lemma_capacity_owed(t, rides, sp, seen);
    lemma_slots_owed(t, rides, ends, sp, seen);
}

/// No check of a stream in the element has failed.
pub open spec fn holds_up(x: ElementView) -> bool {
    x.element_type == ElementType::Link ==> forall|j: int|
        0 <= j < x.checks.len() && (#[trigger] x.checks[j]).kind != CheckKind::FdAdherence
            ==> x.checks[j].status != CheckStatus::Fail
}

/// The report on a run blames it for nothing that the simulation owes: without
/// overrides, no element of the report has a failed check of a link, or of a pipe
/// of it, against its free-flow time, its capacity, its storage or its backward
/// wave, as long as the clock is fine enough.
pub proof fn law_report_blames_no_stream(
    s: SimView,
    n: nat,
    scenario: Scenario,
    bin_size: Double,
    stats: Map<LinkID, LinkStats>,
    report: VerificationReport,
)
    requires
        s.orderly(),
        s.paced(),
        s.schedule.len() == 0,
        s.ticking(),
        forall|k: nat| k < n ==> (#[trigger] s.steps(k)).live(),
        s.steps(n).vehicles == crate::simulation::vehicle_views(scenario.vehicles@),
        s.steps(n).links == crate::simulation::link_views(scenario.links@),
        forall|l: int| 0 <= l < scenario.links@.len() ==> (#[trigger] scenario.links@[l]).id == l,
        forall|l: LinkID, p: PipeIdx|
            s.steps(n).has_pipe(l, p) ==> #[trigger] can_tell(s.steps(n), l, p),
        report_from(scenario, bin_size, stats, report),
    ensures
        forall|i: int| 0 <= i < report.elements@.len() ==> holds_up(#[trigger] report.elements@[i]@),
{
    let n_bins = bin_count(scenario.duration, bin_size) as nat;
    let points = crate::diagnostics::fd_points_upto(
        scenario,
        stats,
        bin_size,
        n_bins,
        scenario.links@.len(),
    );
    let balances = crate::diagnostics::balances_upto(
        scenario,
        stats,
        bin_size,
        n_bins,
        scenario.nodes@.len(),
    );
    let first = link_elements_upto(scenario, points, scenario.links@.len());
    let all = node_elements_upto(first, scenario, balances, scenario.nodes@.len());
    crate::journeys::law_run_stays_orderly(s, n);
    lemma_links_hold_up(s, n, scenario, points, scenario.links@.len());
    lemma_nodes_hold_up(first, scenario, balances, scenario.nodes@.len());
    assert(element_views(report.elements@).len() == report.elements.len());
    assert(ranked(all).len() == all.len());
    assert forall|i: int| 0 <= i < report.elements@.len() implies holds_up(
        #[trigger] report.elements@[i]@,
    ) by {
        let k = lemma_ranked_from(all, i);
        assert(element_views(report.elements@)[i] == report.elements@[i]@);
        assert(holds_up(all[k]));
    }
}

/// What stands in a ranking was there before.
proof fn lemma_ranked_from(e: Seq<ElementView>, i: int) -> (k: int)
    requires
        e.len() <= usize::MAX,
        0 <= i < e.len(),
    ensures
        0 <= k < e.len(),
        ranked(e)[i] == e[k],
{
    let ids = id_keys(e);
    let by_id = arranged(e, ids);
    let worst = severity_keys(by_id);
    crate::order::law_sorted_tags(ids);
    crate::order::law_sorted_tags(worst);
    let p = origin(worst, i);
    origin(ids, p)
}

proof fn lemma_nodes_hold_up(
    acc: Seq<ElementView>,
    scenario: Scenario,
    balances: Seq<NodeBalance>,
    n: nat,
)
    requires
        forall|i: int| 0 <= i < acc.len() ==> holds_up(#[trigger] acc[i]),
    ensures
        ({
            let all = node_elements_upto(acc, scenario, balances, n);
            &&& acc.len() <= all.len()
            &&& forall|i: int| 0 <= i < acc.len() ==> #[trigger] all[i] == acc[i]
            &&& forall|i: int| 0 <= i < all.len() ==> holds_up(#[trigger] all[i])
        }),
    decreases n,
{
    if n > 0 {
        lemma_nodes_hold_up(acc, scenario, balances, (n - 1) as nat);
        let before = node_elements_upto(acc, scenario, balances, (n - 1) as nat);
        let all = node_elements_upto(acc, scenario, balances, n);
        assert forall|i: int| 0 <= i < all.len() implies holds_up(#[trigger] all[i]) by {
            if i < before.len() {
                assert(all[i] == before[i]);
            }
        }
    }
}

proof fn lemma_links_hold_up(
    s: SimView,
    n: nat,
    scenario: Scenario,
    points: Seq<FDPoint>,
    m: nat,
)
    requires
        s.orderly(),
        s.paced(),
        s.schedule.len() == 0,
        s.ticking(),
        s.steps(n).orderly(),
        forall|k: nat| k < n ==> (#[trigger] s.steps(k)).live(),
        s.steps(n).vehicles == crate::simulation::vehicle_views(scenario.vehicles@),
        s.steps(n).links == crate::simulation::link_views(scenario.links@),
        forall|l: int| 0 <= l < scenario.links@.len() ==> (#[trigger] scenario.links@[l]).id == l,
        forall|l: LinkID, p: PipeIdx|
            s.steps(n).has_pipe(l, p) ==> #[trigger] can_tell(s.steps(n), l, p),
        m <= scenario.links@.len(),
    ensures
        ({
            let all = link_elements_upto(scenario, points, m);
            forall|i: int| 0 <= i < all.len() ==> holds_up(#[trigger] all[i])
        }),
    decreases m,
{
    if m > 0 {
        lemma_links_hold_up(s, n, scenario, points, (m - 1) as nat);
        let t = s.steps(n);
        let before = link_elements_upto(scenario, points, (m - 1) as nat);
        let all = link_elements_upto(scenario, points, m);
        let l = scenario.links@[m - 1].id;
        let link = scenario.links@[m - 1];
        assert(t.links[l as int] == link@);
        assert(1 <= t.links[l as int].pipes.len() <= 255);
        let some = link_elements(scenario, points, m - 1);
        let adherence = adherence_check(scenario, points, link.id);
        assert(adherence.kind == CheckKind::FdAdherence);
        if link.pipes@.len() == 1 {
            assert(t.has_pipe(l, 0));
            assert(can_tell(t, l, 0));
            let checks = stream_checks(
                StreamParams::of_pipe(link, link.pipes@[0]),
                PassagesView::over(scenario, l, 0),
            );
            assert forall|j: int| 0 <= j < 4 implies (#[trigger] checks[j]).status
                != CheckStatus::Fail by {
                law_run_passes_its_checks(s, n, scenario, l, 0, j);
            }
            assert(some[0].checks == checks.push(adherence));
            assert(holds_up(some[0]));
        } else {
            lemma_pipes_hold_up(s, n, scenario, l, link.pipes@.len());
            let few = pipe_elements_upto(scenario, l as int, link.pipes@.len());
            assert forall|i: int| 0 <= i < some.len() implies holds_up(#[trigger] some[i]) by {
                if i < few.len() {
                    assert(some[i] == few[i]);
                } else {
                    assert(some[i].checks =~= seq![adherence]);
                }
            }
        }
        assert forall|i: int| 0 <= i < all.len() implies holds_up(#[trigger] all[i]) by {
            if i < before.len() {
                assert(all[i] == before[i]);
            } else {
                assert(all[i] == some[i - before.len()]);
            }
        }
    }
}

proof fn lemma_pipes_hold_up(s: SimView, n: nat, scenario: Scenario, l: LinkID, m: nat)
    requires
        s.orderly(),
        s.paced(),
        s.schedule.len() == 0,
        s.ticking(),
        forall|k: nat| k < n ==> (#[trigger] s.steps(k)).live(),
        s.steps(n).vehicles == crate::simulation::vehicle_views(scenario.vehicles@),
        s.steps(n).links == crate::simulation::link_views(scenario.links@),
        l < scenario.links@.len(),
        scenario.links@[l as int].id == l,
        forall|p: PipeIdx| s.steps(n).has_pipe(l, p) ==> #[trigger] can_tell(s.steps(n), l, p),
        m <= scenario.links@[l as int].pipes@.len() <= 255,
    ensures
        ({
            let all = pipe_elements_upto(scenario, l as int, m);
            forall|i: int| 0 <= i < all.len() ==> holds_up(#[trigger] all[i])
        }),
    decreases m,
{
    if m > 0 {
        lemma_pipes_hold_up(s, n, scenario, l, (m - 1) as nat);
        let t = s.steps(n);
        let p = (m - 1) as u8;
        let link = scenario.links@[l as int];
        assert(t.links[l as int] == link@);
        assert((m - 1) % 256 == m - 1);
        assert(t.has_pipe(l, p));
        assert(can_tell(t, l, p));
        let checks = stream_checks(
            StreamParams::of_pipe(link, link.pipes@[p as int]),
            PassagesView::over(scenario, l, p),
        );
        assert forall|j: int| 0 <= j < 4 implies (#[trigger] checks[j]).status
            != CheckStatus::Fail by {
            law_run_passes_its_checks(s, n, scenario, l, p, j);
        }
        let before = pipe_elements_upto(scenario, l as int, (m - 1) as nat);
        let all = pipe_elements_upto(scenario, l as int, m);
        assert forall|i: int| 0 <= i < all.len() implies holds_up(#[trigger] all[i]) by {
            if i < before.len() {
                assert(all[i] == before[i]);
            } else {
                assert(all[i].checks == checks);
            }
        }
    }
}

/// Element `i` of the report is about link `id`, and failed for a passage faster
/// than free flow.
pub open spec fn blames_speed(report: VerificationReport, i: int, id: LinkID) -> bool {
    let x = report.elements@[i]@;
    &&& 0 <= i < report.elements@.len()
    &&& x.element_type == ElementType::Link
    &&& x.element_id == id
    &&& x.status == CheckStatus::Fail
    &&& x.checks.len() > 0
    &&& x.checks[0].kind == CheckKind::FreeFlow
    &&& x.checks[0].status == CheckStatus::Fail
}

/// A passage that is too fast is found: where some vehicle has taken less than 99 %
/// of the free-flow time of a link from one end to the other, the report has a
/// failed free-flow check for that link.
pub proof fn law_report_finds_a_fast_passage(
    scenario: Scenario,
    bin_size: Double,
    stats: Map<LinkID, LinkStats>,
    report: VerificationReport,
    l: int,
    v: int,
    k: int,
)
    requires
        report_from(scenario, bin_size, stats, report),
        0 <= l < scenario.links@.len(),
        scenario.links@[l].pipes@.len() <= 256,
        0 <= v < scenario.vehicles@.len(),
        ({
            let link = scenario.links@[l];
            let vehicle = scenario.vehicles@[v]@;
            let p = crate::analysis::pipe_taken(vehicle, k);
            &&& 0 <= k < vehicle.path.len()
            &&& k + 1 < vehicle.node_times.len()
            &&& vehicle.path[k] == link.id
            &&& p < crate::model::at_least_one(link.pipes@.len())
            &&& vehicle.node_times[k + 1].minus(vehicle.node_times[k]).lt(
                lower_bound(link.length.over(link.speed)),
            )
        }),
    ensures
        exists|i: int| #[trigger] blames_speed(report, i, scenario.links@[l].id),
{
    let n_bins = bin_count(scenario.duration, bin_size) as nat;
    let points = crate::diagnostics::fd_points_upto(
        scenario,
        stats,
        bin_size,
        n_bins,
        scenario.links@.len(),
    );
    let balances = crate::diagnostics::balances_upto(
        scenario,
        stats,
        bin_size,
        n_bins,
        scenario.nodes@.len(),
    );
    let first = link_elements_upto(scenario, points, scenario.links@.len());
    let all = node_elements_upto(first, scenario, balances, scenario.nodes@.len());
    let place = lemma_fast_element(scenario, points, l, v, k);
    let x = link_elements(scenario, points, l)[place];
    lemma_link_element(scenario, points, l, place, scenario.links@.len());
    let j = choose|j: int| 0 <= j < first.len() && #[trigger] first[j] == x;
    lemma_first_stay(first, scenario, balances, scenario.nodes@.len());
    assert(all[j] == x);
    assert(ranked(all).len() == all.len());
    assert(element_views(report.elements@).len() == report.elements.len());
    crate::verification::law_worst_elements_first(all);
    assert(has_place(all, j));
    let m = choose|m: int| 0 <= m < all.len() && #[trigger] ranked(all)[m] == all[j];
    assert(element_views(report.elements@)[m] == report.elements@[m]@);
    assert(blames_speed(report, m, scenario.links@[l].id));
}

/// The element of a link, or of a pipe of it, on which a vehicle was too fast.
proof fn lemma_fast_element(
    scenario: Scenario,
    points: Seq<FDPoint>,
    l: int,
    v: int,
    k: int,
) -> (place: int)
    requires
        0 <= l < scenario.links@.len(),
        scenario.links@[l].pipes@.len() <= 256,
        0 <= v < scenario.vehicles@.len(),
        ({
            let link = scenario.links@[l];
            let vehicle = scenario.vehicles@[v]@;
            let p = crate::analysis::pipe_taken(vehicle, k);
            &&& 0 <= k < vehicle.path.len()
            &&& k + 1 < vehicle.node_times.len()
            &&& vehicle.path[k] == link.id
            &&& p < crate::model::at_least_one(link.pipes@.len())
            &&& vehicle.node_times[k + 1].minus(vehicle.node_times[k]).lt(
                lower_bound(link.length.over(link.speed)),
            )
        }),
    ensures
        0 <= place < link_elements(scenario, points, l).len(),
        ({
            let x = link_elements(scenario, points, l)[place];
            &&& x.element_type == ElementType::Link
            &&& x.element_id == scenario.links@[l].id
            &&& x.status == CheckStatus::Fail
            &&& x.checks.len() > 0
            &&& x.checks[0].kind == CheckKind::FreeFlow
            &&& x.checks[0].status == CheckStatus::Fail
        }),
{
    let link = scenario.links@[l];
    let vehicles = crate::simulation::vehicle_views(scenario.vehicles@);
    let vehicle = vehicles[v];
    let p = crate::analysis::pipe_taken(vehicle, k);
    let expected = link.length.over(link.speed);
    let sp = if link.pipes@.len() <= 1 {
        StreamParams::of_single(link)
    } else {
        StreamParams::of_pipe(link, link.pipes@[p as int])
    };
    let seen = PassagesView::over(scenario, link.id, p);
    lemma_passage_seen(vehicles, link.id, p, v, k, vehicles.len());
    let x = vehicle.node_times[k + 1].minus(vehicle.node_times[k]);
    let i = choose|i: int| 0 <= i < seen.travel.len() && #[trigger] seen.travel[i] == x;
    lemma_least_below(seen.travel, seen.travel.len(), i, lower_bound(expected));
    assert(sp.length.over(sp.speed) == expected);
    let found = free_flow_check(sp, seen);
    assert(found.status == CheckStatus::Fail && found.kind == CheckKind::FreeFlow);
    let place: int = if link.pipes@.len() <= 1 {
        0
    } else {
        p as int
    };
    if link.pipes@.len() > 1 {
        lemma_pipe_element(scenario, l, p, link.pipes@.len());
    }
    let element = link_elements(scenario, points, l)[place];
    assert(element.checks[0] == found);
    crate::verification::law_element_is_its_worst_check(element.checks);
    assert(element.checks[0].status.severity() <= element.status.severity());
    place
}

proof fn lemma_first_stay(
    acc: Seq<ElementView>,
    scenario: Scenario,
    balances: Seq<NodeBalance>,
    n: nat,
)
    ensures
        ({
            let all = node_elements_upto(acc, scenario, balances, n);
            acc.len() <= all.len() && forall|i: int| 0 <= i < acc.len() ==> #[trigger] all[i] == acc[i]
        }),
    decreases n,
{
    if n > 0 {
        lemma_first_stay(acc, scenario, balances, (n - 1) as nat);
    }
}

proof fn lemma_link_element(scenario: Scenario, points: Seq<FDPoint>, l: int, place: int, n: nat)
    requires
        0 <= l < n,
        0 <= place < link_elements(scenario, points, l).len(),
    ensures
        ({
            let all = link_elements_upto(scenario, points, n);
            exists|j: int|
                0 <= j < all.len() && #[trigger] all[j] == link_elements(
                    scenario,
                    points,
                    l,
                )[place]
        }),
    decreases n,
{
    let before = link_elements_upto(scenario, points, (n - 1) as nat);
    let all = link_elements_upto(scenario, points, n);
    let x = link_elements(scenario, points, l)[place];
    if l == n - 1 {
        assert(all[before.len() + place] == x);
    } else {
        lemma_link_element(scenario, points, l, place, (n - 1) as nat);
        let j = choose|j: int| 0 <= j < before.len() && #[trigger] before[j] == x;
        assert(all[j] == x);
    }
}

proof fn lemma_pipe_element(scenario: Scenario, l: int, p: PipeIdx, n: nat)
    requires
        p < n <= 256,
    ensures
        ({
            let all = pipe_elements_upto(scenario, l, n);
            let link = scenario.links@[l];
            &&& all.len() == n
            &&& all[p as int] == element_of(
                ElementType::Link,
                link.id,
                Some(p),
                stream_checks(
                    StreamParams::of_pipe(link, link.pipes@[p as int]),
                    PassagesView::over(scenario, link.id, p),
                ),
            )
        }),
    decreases n,
{
    if p < n - 1 {
        lemma_pipe_element(scenario, l, p, (n - 1) as nat);
    } else {
        lemma_pipe_elements(scenario, l, (n - 1) as nat);
        assert((n - 1) % 256 == n - 1);
    }
}

proof fn lemma_pipe_elements(scenario: Scenario, l: int, n: nat)
    ensures
        pipe_elements_upto(scenario, l, n).len() == n,
    decreases n,
{
    if n > 0 {
        lemma_pipe_elements(scenario, l, (n - 1) as nat);
    }
}

/// The least of some numbers is below a bound if one of them is.
proof fn lemma_least_below(s: Seq<Double>, n: nat, i: int, bound: Double)
    requires
        0 <= i < n <= s.len(),
        s[i].lt(bound),
    ensures
        min_upto(s, n).lt(bound),
    decreases n,
{
    if i < n - 1 {
        lemma_least_below(s, (n - 1) as nat, i, bound);
    }
}

/// A passage of one of the first `n` vehicles is among those over its pipe.
proof fn lemma_passage_seen(
    vehicles: Seq<VehicleView>,
    l: LinkID,
    p: PipeIdx,
    v: int,
    k: int,
    n: nat,
)
    requires
        0 <= v < n <= vehicles.len(),
        0 <= k < vehicles[v].path.len(),
        k + 1 < vehicles[v].node_times.len(),
        vehicles[v].path[k] == l,
        crate::analysis::pipe_taken(vehicles[v], k) == p,
    ensures
        is_one_of(
            PassagesView::of_vehicles(vehicles, l, p, n).travel,
            vehicles[v].node_times[k + 1].minus(vehicles[v].node_times[k]),
        ),
    decreases n,
{
    let x = vehicles[v].node_times[k + 1].minus(vehicles[v].node_times[k]);
    let before = PassagesView::of_vehicles(vehicles, l, p, (n - 1) as nat);
    if v < n - 1 {
        lemma_passage_seen(vehicles, l, p, v, k, (n - 1) as nat);
        lemma_travel_grows(before, vehicles[n - 1], l, p, 0, vehicles[n - 1].path.len());
        let i = choose|i: int| 0 <= i < before.travel.len() && #[trigger] before.travel[i] == x;
        let after = before.along(vehicles[n - 1], l, p, vehicles[n - 1].path.len()).travel;
        assert(before.along(vehicles[n - 1], l, p, 0).travel[i] == after[i]);
        assert(after[i] == x);
    } else {
        let mid = before.along(vehicles[v], l, p, (k + 1) as nat).travel;
        assert(mid.last() == x);
        lemma_travel_grows(before, vehicles[v], l, p, (k + 1) as nat, vehicles[v].path.len());
        let after = before.along(vehicles[v], l, p, vehicles[v].path.len()).travel;
        assert(mid[mid.len() - 1] == after[mid.len() - 1]);
        assert(after[mid.len() - 1] == x);
    }
}

proof fn lemma_travel_grows(
    acc: PassagesView,
    v: VehicleView,
    l: LinkID,
    p: PipeIdx,
    a: nat,
    b: nat,
)
    requires
        a <= b,
    ensures
        acc.along(v, l, p, a).travel.len() <= acc.along(v, l, p, b).travel.len(),
        forall|i: int|
            0 <= i < acc.along(v, l, p, a).travel.len() ==> #[trigger] acc.along(
                v,
                l,
                p,
                a,
            ).travel[i] == acc.along(v, l, p, b).travel[i],
    decreases b,
{
    if a < b {
        lemma_travel_grows(acc, v, l, p, a, (b - 1) as nat);
        let (x, y, z) = (
            acc.along(v, l, p, a).travel,
            acc.along(v, l, p, (b - 1) as nat).travel,
            acc.along(v, l, p, b).travel,
        );
        assert forall|i: int| 0 <= i < x.len() implies #[trigger] x[i] == z[i] by {
            assert(x[i] == y[i]);
        }
    }
}

/// No two vehicles that have left the pipe were due at its end at the same time.
pub open spec fn all_due_apart(t: SimView, l: LinkID, p: PipeIdx) -> bool {
    forall|a: VehID, j: int, b: VehID, k: int|
        a < t.vehicles.len() && b < t.vehicles.len() && (#[trigger] t.vehicles[a as int].left(
            j,
            l,
            p,
        )) && (#[trigger] t.vehicles[b as int].left(k, l, p)) && (a != b || j != k) ==> t.due(
            t.vehicles[a as int],
            j,
        ).key() != t.due(t.vehicles[b as int], k).key()
}

/// A run keeps to the order that it is checked for: where speeds are positive and
/// no override sets one, the check of the order at a node does not fail, unless vehicles were due
/// at the end of a pipe at the same time.
pub proof fn law_run_passes_its_order_check(s: SimView, n: nat, scenario: Scenario, id: NodeID)
    requires
        s.orderly(),
        s.paced(),
        s.steady(),
        s.ticking(),
        forall|k: nat| k < n ==> (#[trigger] s.steps(k)).live(),
        s.steps(n).vehicles == crate::simulation::vehicle_views(scenario.vehicles@),
        s.steps(n).links == crate::simulation::link_views(scenario.links@),
        forall|l: int|
            0 <= l < s.steps(n).links.len() ==> (#[trigger] s.steps(n).links[l]).speed.gt(Double::zero()),
        forall|l: LinkID, p: PipeIdx|
            s.steps(n).has_pipe(l, p) ==> #[trigger] all_due_apart(s.steps(n), l, p)
                && arrivals_upto(
                s.steps(n).vehicles,
                l,
                p,
                s.steps(n).links[l as int].travel_time(),
                s.steps(n).vehicles.len(),
            ).len() <= usize::MAX,
    ensures
        fifo_check(scenario, id).status != CheckStatus::Fail,
{
    crate::journeys::lemma_run_paced(s, n);
    let t = s.steps(n);
    let roads = s.roads();
    crate::journeys::lemma_steady_times(s, t);
    if id < scenario.nodes@.len() {
        let incoming = scenario.nodes@[id as int].incoming_links@;
        lemma_node_in_order(t, roads, scenario, incoming, incoming.len());
    }
}

proof fn lemma_node_in_order(t: SimView, roads: Roads, scenario: Scenario, incoming: Seq<LinkID>, k: nat)
    requires
        t.orderly(),
        t.on_pace(roads),
        t.ticks(roads),
        t.flat(roads),
        k <= incoming.len(),
        t.vehicles == crate::simulation::vehicle_views(scenario.vehicles@),
        t.links == crate::simulation::link_views(scenario.links@),
        forall|l: int|
            0 <= l < t.links.len() ==> (#[trigger] t.links[l]).speed.gt(Double::zero()),
        forall|l: LinkID, p: PipeIdx|
            t.has_pipe(l, p) ==> #[trigger] all_due_apart(t, l, p) && arrivals_upto(
                t.vehicles,
                l,
                p,
                t.links[l as int].travel_time(),
                t.vehicles.len(),
            ).len() <= usize::MAX,
    ensures
        node_pairs_upto(scenario, incoming, k).1 == 0,
    decreases k,
{
    if k > 0 {
        lemma_node_in_order(t, roads, scenario, incoming, (k - 1) as nat);
        let l = incoming[k - 1];
        if l < scenario.links@.len() {
            assert(t.links[l as int] == scenario.links@[l as int]@);
            assert(1 <= t.links[l as int].pipes.len() <= 255);
            lemma_pipes_in_order(t, roads, scenario, l, told_pipes(scenario.links@[l as int]));
        }
    }
}

proof fn lemma_pipes_in_order(t: SimView, roads: Roads, scenario: Scenario, l: LinkID, p: nat)
    requires
        t.orderly(),
        t.on_pace(roads),
        t.ticks(roads),
        t.flat(roads),
        l < t.links.len(),
        p <= t.links[l as int].pipes.len() <= 255,
        t.vehicles == crate::simulation::vehicle_views(scenario.vehicles@),
        t.links == crate::simulation::link_views(scenario.links@),
        forall|l: int|
            0 <= l < t.links.len() ==> (#[trigger] t.links[l]).speed.gt(Double::zero()),
        forall|l: LinkID, p: PipeIdx|
            t.has_pipe(l, p) ==> #[trigger] all_due_apart(t, l, p) && arrivals_upto(
                t.vehicles,
                l,
                p,
                t.links[l as int].travel_time(),
                t.vehicles.len(),
            ).len() <= usize::MAX,
    ensures
        pipe_pairs_upto(scenario, l as int, p).1 == 0,
    decreases p,
{
    if p > 0 {
        lemma_pipes_in_order(t, roads, scenario, l, (p - 1) as nat);
        let q = (p - 1) as u8;
        assert(t.links[l as int] == scenario.links@[l as int]@);
        assert(scenario.vehicles.len() == t.vehicles.len());
        assert(t.has_pipe(l, q));
        assert(all_due_apart(t, l, q));
        let ff = t.links[l as int].travel_time();
        assert(t.links[l as int].speed.gt(Double::zero()));
        assert(free_time(scenario.links@[l as int]) == ff);
        let a = arrivals_upto(t.vehicles, l, q, ff, t.vehicles.len());
        lemma_pipe_in_order(t, roads, l, q, a);
        lemma_no_inversion(by_arrival(a), neighbours(by_arrival(a).len()));
    }
}

/// (arrival, passage) pairs are those of rides that have ended, one for one.
spec fn arrivals_of(
    vehicles: Seq<VehicleView>,
    a: Seq<(Double, Double)>,
    ends: Seq<(VehID, int)>,
    ff: Double,
) -> bool {
    &&& a.len() == ends.len()
    &&& forall|i: int|
        0 <= i < ends.len() ==> #[trigger] a[i] == (
            vehicles[ends[i].0 as int].node_times[ends[i].1].plus(ff),
            vehicles[ends[i].0 as int].node_times[ends[i].1 + 1],
        )
}

proof fn lemma_arrivals_along(
    vehicles: Seq<VehicleView>,
    acc: Seq<(Double, Double)>,
    ends: Seq<(VehID, int)>,
    id: VehID,
    l: LinkID,
    p: PipeIdx,
    ff: Double,
    k: nat,
)
    requires
        id < vehicles.len(),
        k <= vehicles[id as int].path.len(),
        arrivals_of(vehicles, acc, ends, ff),
    ensures
        arrivals_of(
            vehicles,
            arrivals_along(acc, vehicles[id as int], l, p, ff, k),
            rides_along(ends, id, vehicles[id as int], l, p, 1, k),
            ff,
        ),
    decreases k,
{
    if k > 0 {
        lemma_arrivals_along(vehicles, acc, ends, id, l, p, ff, (k - 1) as nat);
    }
}

proof fn lemma_arrivals_upto(vehicles: Seq<VehicleView>, l: LinkID, p: PipeIdx, ff: Double, n: nat)
    requires
        n <= vehicles.len() <= usize::MAX,
    ensures
        arrivals_of(
            vehicles,
            arrivals_upto(vehicles, l, p, ff, n),
            rides_upto(vehicles, l, p, 1, n),
            ff,
        ),
    decreases n,
{
    if n > 0 {
        lemma_arrivals_upto(vehicles, l, p, ff, (n - 1) as nat);
        lemma_arrivals_along(
            vehicles,
            arrivals_upto(vehicles, l, p, ff, (n - 1) as nat),
            rides_upto(vehicles, l, p, 1, (n - 1) as nat),
            (n - 1) as usize,
            l,
            p,
            ff,
            vehicles[n - 1].path.len(),
        );
    }
}

/// In the order of their arrival, the vehicles of a pipe pass its end in order.
proof fn lemma_pipe_in_order(t: SimView, roads: Roads, l: LinkID, p: PipeIdx, a: Seq<(Double, Double)>)
    requires
        t.orderly(),
        t.on_pace(roads),
        t.ticks(roads),
        t.flat(roads),
        t.has_pipe(l, p),
        t.vehicles.len() <= usize::MAX,
        all_due_apart(t, l, p),
        a == arrivals_upto(
            t.vehicles,
            l,
            p,
            t.links[l as int].travel_time(),
            t.vehicles.len(),
        ),
        a.len() <= usize::MAX,
    ensures
        forall|i: int|
            0 <= i < by_arrival(a).len() - 1 ==> (#[trigger] by_arrival(a)[i]).1.le(
                by_arrival(a)[i + 1].1,
            ) && by_arrival(a)[i].1.finite(),
{
    let ff = t.links[l as int].travel_time();
    let ends = rides_upto(t.vehicles, l, p, 1, t.vehicles.len());
    lemma_arrivals_upto(t.vehicles, l, p, ff, t.vehicles.len());
    t.lemma_rides_listed(l, p);
    let keys = arrival_ranks(a);
    crate::order::law_sorted_tags(keys);
    assert forall|i: int| 0 <= i < by_arrival(a).len() - 1 implies (#[trigger] by_arrival(
        a,
    )[i]).1.le(by_arrival(a)[i + 1].1) && by_arrival(a)[i].1.finite() by {
        let (x, y) = (origin(keys, i), origin(keys, i + 1));
        let (v, j) = ends[x];
        let (w, k) = ends[y];
        assert(x != y);
        assert(ends.contains((v, j)) && ends.contains((w, k)));
        let (first, second) = (t.vehicles[v as int], t.vehicles[w as int]);
        assert(first.left(j, l, p) && second.left(k, l, p));
        assert(t.pace_right(roads, first) && t.pace_right(roads, second));
        assert(t.past_at(first, j) && t.past_at(second, k));
        assert(t.past_at(first, j + 1));
        assert(t.takes_time(roads, l));
        crate::double::law_sum_not_below(first.node_times[j], ff);
        crate::double::law_sum_not_below(second.node_times[k], ff);
        assert(keys[x] == a[x].0.rank() as i64 && keys[y] == a[y].0.rank() as i64);
        assert(a[x].0 == t.due(first, j) && a[y].0 == t.due(second, k));
        crate::journeys::lemma_in_turn_when_due(t, roads, v, j, w, k);
    }
}

proof fn lemma_no_inversion(s: Seq<(Double, Double)>, n: nat)
    requires
        n <= neighbours(s.len()),
        forall|i: int|
            0 <= i < s.len() - 1 ==> (#[trigger] s[i]).1.le(s[i + 1].1) && s[i].1.finite(),
    ensures
        inversions_upto(s, n) == 0,
    decreases n,
{
    if n > 0 {
        lemma_no_inversion(s, (n - 1) as nat);
        let slack = Double::from_bits(TIME_SLACK);
        assert(s[n - 1].1.le(s[n as int].1));
        crate::double::law_sum_not_above(s[n - 1].1, slack.spec_negated());
    }
}

/// A time that some vehicle has on record.
spec fn on_record(vehicles: Seq<VehicleView>, x: Double) -> bool {
    exists|v: int, k: int|
        0 <= v < vehicles.len() && 0 <= k < vehicles[v].node_times.len()
            && #[trigger] vehicles[v].node_times[k] == x
}

proof fn lemma_free_flow_owed(
    t: SimView,
    roads: Roads,
    l: LinkID,
    p: PipeIdx,
    sp: StreamParams,
    seen: PassagesView,
)
    requires
        t.on_pace(roads),
        t.flat(roads),
        l < t.links.len(),
        resolves_all(t.vehicles, t.links[l as int].travel_time()),
        sp.length == t.links[l as int].length,
        sp.speed == t.links[l as int].speed,
        seen.travel == PassagesView::of_vehicles(t.vehicles, l, p, t.vehicles.len()).travel,
    ensures
        free_flow_check(sp, seen).status != CheckStatus::Fail,
{
    let expected = sp.length.over(sp.speed);
    lemma_travels_told(t, roads, l, p, t.vehicles.len(), lower_bound(expected));
    lemma_least(seen.travel, seen.travel.len(), lower_bound(expected));
}

proof fn lemma_capacity_owed(
    t: SimView,
    rides: Seq<(VehID, int)>,
    sp: StreamParams,
    seen: PassagesView,
)
    requires
        seen.entries.len() == rides.len(),
        forall|k: int|
            0 <= k < rides.len() ==> (#[trigger] seen.entries[k]).finite() && on_record(
                t.vehicles,
                seen.entries[k],
            ) && seen.entries[k].key() == t.entry_time(rides[k]).key() && t.entry_time(
                rides[k],
            ).finite(),
        sp.capacity.gt(Double::zero()) ==> resolves_all(
            t.vehicles,
            Double::one().over(sp.capacity),
        ) && forall|k: int|
            0 <= k < rides.len() - 1 ==> #[trigger] t.keeps_headway(rides, k, sp.capacity),
    ensures
        inflow_check(sp, seen).status != CheckStatus::Fail,
{
    if sp.capacity.nan() {
        reveal(Double::spec_over);
        reveal(Double::spec_times);
    } else if seen.entries.len() >= 2 && !sp.capacity.le(Double::zero()) {
        let x = Double::one().over(sp.capacity);
        assert forall|k: int| 0 <= k < seen.entries.len() - 1 implies !(
        #[trigger] gaps(seen.entries)[k]).lt(lower_bound(x)) by {
            assert(t.keeps_headway(rides, k, sp.capacity));
            assert(seen.entries[k].finite());
            assert(seen.entries[k + 1].finite());
            let (v, m) = choose|v: int, m: int|
                0 <= v < t.vehicles.len() && 0 <= m < t.vehicles[v].node_times.len()
                    && #[trigger] t.vehicles[v].node_times[m] == seen.entries[k];
            assert(resolves(t.vehicles[v].node_times[m], x));
            lemma_told_as(
                seen.entries[k],
                x,
                seen.entries[k + 1],
                t.entry_time(rides[k]),
                t.entry_time(rides[k + 1]),
            );
        }
        lemma_least(gaps(seen.entries), (seen.entries.len() - 1) as nat, lower_bound(x));
    }
}

proof fn lemma_slots_owed(
    t: SimView,
    rides: Seq<(VehID, int)>,
    ends: Seq<(VehID, int)>,
    sp: StreamParams,
    seen: PassagesView,
)
    requires
        seen.entries.len() == rides.len(),
        seen.exits.len() == ends.len(),
        unsigned_zeros(t.vehicles),
        forall|k: int|
            0 <= k < rides.len() ==> (#[trigger] seen.entries[k]).finite() && on_record(
                t.vehicles,
                seen.entries[k],
            ) && seen.entries[k].key() == t.entry_time(rides[k]).key() && t.entry_time(
                rides[k],
            ).finite(),
        forall|k: int|
            0 <= k < ends.len() ==> (#[trigger] seen.exits[k]).finite() && on_record(
                t.vehicles,
                seen.exits[k],
            ) && seen.exits[k].key() == t.exit_time(ends[k]).key() && t.exit_time(
                ends[k],
            ).finite(),
        forall|a: int, b: int|
            0 <= a <= b < seen.exits.len() ==> (#[trigger] seen.exits[a]).rank() <= (
            #[trigger] seen.exits[b]).rank(),
        sp.storage_veh matches Some(dn) ==> sp.wave_delay.ge(Double::zero()) && resolves_all(
            t.vehicles,
            sp.wave_delay,
        ) && forall|k: int|
            dn <= k < rides.len() ==> #[trigger] t.awaits_wave(
                rides,
                ends,
                k,
                dn as int,
                sp.wave_delay,
            ),
    ensures
        storage_check(sp, seen).status != CheckStatus::Fail,
        wave_check(sp, seen).status != CheckStatus::Fail,
{
    if let Some(dn) = sp.storage_veh {
        let x = sp.wave_delay;
        assert forall|k: int| dn <= k < rides.len() implies #[trigger] has_room(
            seen.entries,
            seen.exits,
            k,
            dn as int,
        ) && !seen.entries[k].minus(seen.exits[k - dn]).lt(lower_bound(x)) by {
            assert(t.awaits_wave(rides, ends, k, dn as int, x));
            let (a, b) = (seen.exits[k - dn], seen.entries[k]);
            assert(a.finite() && b.finite());
            let (v, m) = choose|v: int, m: int|
                0 <= v < t.vehicles.len() && 0 <= m < t.vehicles[v].node_times.len()
                    && #[trigger] t.vehicles[v].node_times[m] == a;
            assert(resolves(t.vehicles[v].node_times[m], x));
            let (w, o) = choose|w: int, o: int|
                0 <= w < t.vehicles.len() && 0 <= o < t.vehicles[w].node_times.len()
                    && #[trigger] t.vehicles[w].node_times[o] == b;
            assert(t.vehicles[w].node_times[o].key() == 0
                ==> !t.vehicles[w].node_times[o].negative());
            lemma_told_as(a, x, b, t.exit_time(ends[k - dn]), t.entry_time(rides[k]));
            crate::double::law_sum_not_below(t.exit_time(ends[k - dn]), x);
        }
        lemma_peak(seen.entries, seen.exits, 0, 0, 0, 0, dn as int);
        let n = slot_uses(seen, dn as nat);
        assert forall|k: int| 0 <= k < n implies !(#[trigger] slot_delay(
            seen,
            dn as nat,
            k,
        )).lt(lower_bound(x)) by {
            assert(has_room(seen.entries, seen.exits, dn + k, dn as int));
        }
        lemma_none_early(seen, dn as nat, x, n);
    }
}

} // verus!
