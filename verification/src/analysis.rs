//! Binned flow, density and speed from the passage times of vehicles.

use crate::constants::{IDLE, KMH_PER_MS, METRES_PER_KM, SECONDS_PER_HOUR};
use crate::double::{size, units, Double, TWO_52};
use crate::model::{Link, LinkID, PipeIdx, Scenario, Vehicle, VehicleView};
use std::collections::HashMap;
use vstd::multiset::Multiset;
use vstd::prelude::*;

verus! {

// ── Definitions ──────────────────────────────────────────────────────────────

/// Number of time bins that cover the duration.
pub open spec fn spec_bin_count(duration: Double, bin_size: Double) -> usize {
    duration.over(bin_size).ceil().to_usize()
}

/// Number of time bins that cover the duration.
#[verifier::when_used_as_spec(spec_bin_count)]
pub fn bin_count(duration: Double, bin_size: Double) -> (n: usize)
    ensures
        n == spec_bin_count(duration, bin_size),
{
    duration.over(bin_size).ceil().to_usize()
}

/// The bin that a time since the start falls into.
pub open spec fn spec_bin_of(t: Double, bin_size: Double) -> usize {
    t.over(bin_size).floor().to_usize()
}

/// The bin that a time since the start falls into.
#[verifier::when_used_as_spec(spec_bin_of)]
pub fn bin_of(t: Double, bin_size: Double) -> (b: usize)
    ensures
        b == spec_bin_of(t, bin_size),
{
    t.over(bin_size).floor().to_usize()
}

/// Entry and exit of a vehicle on the link at place `i` of its path, since the
/// start. Only completed traversals that take time count.
pub open spec fn traversal(v: VehicleView, start: Double, i: int) -> Option<(Double, Double)> {
    if i + 1 < v.node_times.len() {
        let a = v.node_times[i].minus(start);
        let b = v.node_times[i + 1].minus(start);
        if b.le(a) {
            None
        } else {
            Some((a, b))
        }
    } else {
        None
    }
}

/// The pipe that a vehicle took on the link at place `i` of its path.
pub open spec fn pipe_taken(v: VehicleView, i: int) -> PipeIdx {
    if i < v.pipes_taken.len() {
        v.pipes_taken[i]
    } else {
        0
    }
}

/// A time bin on a link, or on one pipe of it.
pub ghost struct Cell {
    pub start: Double,
    pub bin_size: Double,
    pub link: LinkID,
    pub pipe: Option<int>,
    pub bin: int,
}

impl Cell {
    /// The vehicle uses the link, and the pipe, at place `i` of its path.
    pub open spec fn used_by(self, v: VehicleView, i: int) -> bool {
        v.path[i] == self.link && (self.pipe matches Some(p) ==> pipe_taken(v, i) == p)
    }

    /// Exits in the bin and vehicle-hours spent in it, after one traversal
    /// more. A vehicle counts for the time that it shares with the bin.
    pub open spec fn after(self, acc: (Double, Double), tr: (Double, Double)) -> (Double, Double) {
        let first = bin_of(tr.0, self.bin_size);
        let last = bin_of(tr.1, self.bin_size);
        (
            if last == self.bin {
                acc.0.plus(Double::one())
            } else {
                acc.0
            },
            if first <= self.bin <= last {
                with_overlap(acc.1, tr, self.bin_size, self.bin as usize)
            } else {
                acc.1
            },
        )
    }

    /// Sums after the first `k` links of a vehicle's path.
    pub open spec fn along(self, acc: (Double, Double), v: VehicleView, k: nat) -> (Double, Double)
        decreases k,
    {
        if k == 0 {
            acc
        } else {
            let before = self.along(acc, v, (k - 1) as nat);
            match traversal(v, self.start, k - 1) {
                Some(tr) => if self.used_by(v, k - 1) {
                    self.after(before, tr)
                } else {
                    before
                },
                None => before,
            }
        }
    }

    /// Sums over the first `n` vehicles.
    pub open spec fn sums(self, vehicles: Seq<VehicleView>, n: nat) -> (Double, Double)
        decreases n,
    {
        if n == 0 {
            (Double::zero(), Double::zero())
        } else {
            self.along(
                self.sums(vehicles, (n - 1) as nat),
                vehicles[n - 1],
                vehicles[n - 1].path.len(),
            )
        }
    }
}

/// The vehicle-hours of a traversal within a bin, added up.
pub open spec fn spec_with_overlap(
    acc: Double,
    tr: (Double, Double),
    bin_size: Double,
    bin: usize,
) -> Double {
    let t0 = tr.0.max(Double::from_usize(bin).times(bin_size));
    let t1 = tr.1.min(Double::from_usize((bin + 1) as usize).times(bin_size));
    if t1.gt(t0) {
        acc.plus(t1.minus(t0).over(Double::from_bits(SECONDS_PER_HOUR)))
    } else {
        acc
    }
}

#[verifier::when_used_as_spec(spec_with_overlap)]
pub fn with_overlap(acc: Double, tr: (Double, Double), bin_size: Double, bin: usize) -> (r: Double)
    requires
        bin < usize::MAX,
    ensures
        r == spec_with_overlap(acc, tr, bin_size, bin),
{
    let t0: Double = tr.0.max(Double::from_usize(bin).times(bin_size));
    let t1: Double = tr.1.min(Double::from_usize(bin + 1).times(bin_size));
    if t1.gt(t0) {
        acc.plus(t1.minus(t0).over(Double::from_bits(SECONDS_PER_HOUR)))
    } else {
        acc
    }
}

// ── Accumulation ─────────────────────────────────────────────────────────────

/// Raw sums of one stream: exits and vehicle-hours per bin.
struct Sums {
    flow: Vec<Double>,
    density: Vec<Double>,
}

impl Sums {
    spec fn sized(self, n_bins: usize) -> bool {
        self.flow@.len() == n_bins && self.density@.len() == n_bins
    }

    /// The sums of a bin.
    spec fn at(self, b: int) -> (Double, Double) {
        (self.flow@[b], self.density@[b])
    }

    fn new(n_bins: usize) -> (s: Self)
        ensures
            s.sized(n_bins),
            forall|b: int| 0 <= b < n_bins ==> #[trigger] s.at(b) == (Double::zero(), Double::zero()),
    {
        let mut flow: Vec<Double> = Vec::new();
        let mut density: Vec<Double> = Vec::new();
        let mut i: usize = 0;
        while i < n_bins
            invariant
                i <= n_bins,
                flow@.len() == i,
                density@.len() == i,
                forall|b: int| 0 <= b < i ==> flow@[b] == Double::zero() && density@[b]
                    == Double::zero(),
            decreases n_bins - i,
        {
            flow.push(Double::zero());
            density.push(Double::zero());
            i = i + 1;
        }
        Sums { flow, density }
    }

    /// Adds one traversal.
    fn record(&mut self, tr: (Double, Double), bin_size: Double, n_bins: usize, cell: Ghost<Cell>)
        requires
            old(self).sized(n_bins),
            cell@.bin_size == bin_size,
        ensures
            final(self).sized(n_bins),
            forall|b: int|
                0 <= b < n_bins ==> #[trigger] final(self).at(b) == (Cell { bin: b, ..cell@ }).after(
                    old(self).at(b),
                    tr,
                ),
    {
        let last: usize = bin_of(tr.1, bin_size);
        if last < n_bins {
            let flow: Double = self.flow[last];
            self.flow.set(last, flow.plus(Double::one()));
        }
        let first: usize = bin_of(tr.0, bin_size);
        let ghost flow = self.flow@;
        let ghost density = self.density@;
        let mut bin: usize = first;
        while bin <= last && bin < n_bins
            invariant
                self.flow@ == flow,
                self.density@.len() == n_bins,
                density.len() == n_bins,
                first <= bin,
                forall|b: int|
                    0 <= b < n_bins ==> #[trigger] self.density@[b] == (if first <= b <= last && b
                        < bin {
                        with_overlap(density[b], tr, bin_size, b as usize)
                    } else {
                        density[b]
                    }),
            decreases n_bins - bin,
        {
            let acc: Double = self.density[bin];
            self.density.set(bin, with_overlap(acc, tr, bin_size, bin));
            bin = bin + 1;
        }
        proof {
            assert forall|b: int| 0 <= b < n_bins implies #[trigger] self.at(b) == (Cell {
                bin: b,
                ..cell@
            }).after(old(self).at(b), tr) by {
                assert(self.density@[b] == self.at(b).1);
            }
        }
    }
}

/// The cell of bin `b` of stream `p` of a link. A link that is not split by
/// pipe has one stream.
spec fn cell_of(s: Scenario, bin_size: Double, link: LinkID, by_pipe: bool, p: int, b: int) -> Cell {
    Cell {
        start: s.start_time,
        bin_size,
        link,
        pipe: if by_pipe {
            Some(p)
        } else {
            None
        },
        bin: b,
    }
}

/// Which group of sums belongs to which link.
struct Groups {
    index: HashMap<LinkID, usize>,
    sums: Vec<Vec<Sums>>,
}

impl Groups {
    /// Every group belongs to one link, and has one stream where links are not
    /// split by pipe.
    spec fn wf(self, n_bins: usize, by_pipe: bool) -> bool {
        &&& forall|id: LinkID| #[trigger]
            self.index@.contains_key(id) ==> self.index@[id] < self.sums@.len()
        &&& forall|a: LinkID, b: LinkID|
            self.index@.contains_key(a) && self.index@.contains_key(b) && a != b
                ==> #[trigger] self.index@[a] != #[trigger] self.index@[b]
        &&& forall|c: int, p: int|
            0 <= c < self.sums@.len() && 0 <= p < self.sums@[c]@.len() ==> (
            #[trigger] self.sums@[c]@[p]).sized(n_bins)
        &&& !by_pipe ==> forall|c: int|
            0 <= c < self.sums@.len() ==> (#[trigger] self.sums@[c])@.len() == 1
    }

    /// The sums of a link are those over the first `n` vehicles and the first
    /// `k` links of the next.
    spec fn holds(
        self,
        s: Scenario,
        bin_size: Double,
        n_bins: usize,
        by_pipe: bool,
        n: nat,
        k: nat,
    ) -> bool {
        forall|id: LinkID, p: int, b: int|
            self.index@.contains_key(id) && 0 <= p < self.sums@[self.index@[id] as int]@.len() && 0
                <= b < n_bins ==> #[trigger] self.sums@[self.index@[id] as int]@[p].at(b)
                == sums_upto(s, cell_of(s, bin_size, id, by_pipe, p, b), n, k)
    }
}

/// Sums over the first `n` vehicles and the first `k` links of the next.
spec fn sums_upto(s: Scenario, cell: Cell, n: nat, k: nat) -> (Double, Double) {
    let vehicles = crate::simulation::vehicle_views(s.vehicles@);
    if k == 0 {
        cell.sums(vehicles, n)
    } else {
        cell.along(cell.sums(vehicles, n), vehicles[n as int], k)
    }
}

/// What one link more of a path adds.
proof fn lemma_sums_step(s: Scenario, cell: Cell, j: nat, i: nat)
    requires
        j < s.vehicles@.len(),
    ensures
        ({
            let v = s.vehicles@[j as int]@;
            let before = sums_upto(s, cell, j, i);
            sums_upto(s, cell, j, i + 1) == match traversal(v, cell.start, i as int) {
                Some(tr) => if cell.used_by(v, i as int) {
                    cell.after(before, tr)
                } else {
                    before
                },
                None => before,
            }
        }),
{
    let views = crate::simulation::vehicle_views(s.vehicles@);
    assert(views[j as int] == s.vehicles@[j as int]@);
    let k: nat = i + 1;
    assert((k - 1) as nat == i);
    assert(cell.along(cell.sums(views, j), views[j as int], 0) == cell.sums(views, j));
}

/// Links beyond the last completed one add nothing.
proof fn lemma_rest_adds_nothing(cell: Cell, acc: (Double, Double), v: VehicleView, i: nat, k: nat)
    requires
        i + 1 >= v.node_times.len(),
        i <= k,
    ensures
        cell.along(acc, v, k) == cell.along(acc, v, i),
    decreases k,
{
    if i < k {
        lemma_rest_adds_nothing(cell, acc, v, i, (k - 1) as nat);
    }
}

impl Groups {
    /// A passage that uses no stream of a group adds nothing.
    proof fn lemma_unused(
        self,
        s: Scenario,
        bin_size: Double,
        n_bins: usize,
        by_pipe: bool,
        j: nat,
        i: nat,
    )
        requires
            j < s.vehicles@.len(),
            self.holds(s, bin_size, n_bins, by_pipe, j, i),
            traversal(s.vehicles@[j as int]@, s.start_time, i as int) is None || forall|
                id: LinkID,
                p: int,
            |
                self.index@.contains_key(id) && 0 <= p < self.sums@[self.index@[id] as int]@.len()
                    ==> !(#[trigger] cell_of(s, bin_size, id, by_pipe, p, 0)).used_by(
                    s.vehicles@[j as int]@,
                    i as int,
                ),
        ensures
            self.holds(s, bin_size, n_bins, by_pipe, j, i + 1),
    {
        let v = s.vehicles@[j as int]@;
        assert forall|id: LinkID, p: int, b: int|
            self.index@.contains_key(id) && 0 <= p < self.sums@[self.index@[id] as int]@.len() && 0
                <= b < n_bins implies #[trigger] self.sums@[self.index@[id] as int]@[p].at(b)
            == sums_upto(s, cell_of(s, bin_size, id, by_pipe, p, b), j, i + 1) by {
            let cell = cell_of(s, bin_size, id, by_pipe, p, b);
            assert(cell_of(s, bin_size, id, by_pipe, p, 0).used_by(v, i as int) == cell.used_by(
                v,
                i as int,
            ));
            lemma_sums_step(s, cell, j, i);
        }
    }

    /// Adds what a vehicle did on the link at place `i` of its path.
    fn add_passage(
        &mut self,
        scenario: &Scenario,
        j: usize,
        i: usize,
        bin_size: Double,
        n_bins: usize,
        by_pipe: bool,
    )
        requires
            j < scenario.vehicles@.len(),
            i < scenario.vehicles@[j as int].path@.len(),
            i + 1 < scenario.vehicles@[j as int].node_times@.len(),
            old(self).wf(n_bins, by_pipe),
            old(self).holds(*scenario, bin_size, n_bins, by_pipe, j as nat, i as nat),
        ensures
            final(self).wf(n_bins, by_pipe),
            final(self).index == old(self).index,
            final(self).shaped_as(*old(self)),
            final(self).holds(*scenario, bin_size, n_bins, by_pipe, j as nat, (i + 1) as nat),
    {
        broadcast use vstd::std_specs::hash::group_hash_axioms;

        let veh: &Vehicle = &scenario.vehicles[j];
        let ghost v = veh@;
        let ghost views = crate::simulation::vehicle_views(scenario.vehicles@);
        assert(views[j as int] == v);
        assert(veh.node_times.len() <= usize::MAX);
        let t_entry: Double = veh.node_times[i].minus(scenario.start_time);
        let t_exit: Double = veh.node_times[i + 1].minus(scenario.start_time);
        if t_exit.le(t_entry) {
            assert(traversal(v, scenario.start_time, i as int) is None);
            proof {
                self.lemma_unused(*scenario, bin_size, n_bins, by_pipe, j as nat, i as nat);
            }
            return;
        }
        let pipe: usize = if by_pipe {
            if i < veh.pipes_taken.len() {
                veh.pipes_taken[i] as usize
            } else {
                0
            }
        } else {
            0
        };
        let id: LinkID = veh.path[i];
        let ghost tr = (t_entry, t_exit);
        assert(traversal(v, scenario.start_time, i as int) == Some(tr));
        let c: usize = match self.index.get(&id) {
            None => {
                proof {
                    self.lemma_unused(*scenario, bin_size, n_bins, by_pipe, j as nat, i as nat);
                }
                return;
            },
            Some(c) => *c,
        };
        if pipe >= self.sums[c].len() {
            proof {
                self.lemma_unused(*scenario, bin_size, n_bins, by_pipe, j as nat, i as nat);
            }
            return;
        }
        let ghost before = self.sums@;
        self.sums[c][pipe].record(
            (t_entry, t_exit),
            bin_size,
            n_bins,
            Ghost(cell_of(*scenario, bin_size, id, by_pipe, pipe as int, 0)),
        );
        proof {
            let after = self.sums@;
            assert(after.len() == before.len());
            assert forall|a: int| 0 <= a < after.len() && a != c implies #[trigger] after[a]
                == before[a] by {}
            assert forall|p: int| 0 <= p < after[c as int]@.len() && p != pipe implies #[trigger] after[c as int]@[p]
                == before[c as int]@[p] by {}
            assert forall|x: LinkID, p: int, b: int|
                self.index@.contains_key(x) && 0 <= p < after[self.index@[x] as int]@.len() && 0
                    <= b < n_bins implies #[trigger] after[self.index@[x] as int]@[p].at(b)
                == sums_upto(
                *scenario,
                cell_of(*scenario, bin_size, x, by_pipe, p, b),
                j as nat,
                (i + 1) as nat,
            ) by {
                let cell = cell_of(*scenario, bin_size, x, by_pipe, p, b);
                let old_at = before[self.index@[x] as int]@[p].at(b);
                assert(old_at == sums_upto(*scenario, cell, j as nat, i as nat));
                lemma_sums_step(*scenario, cell, j as nat, i as nat);
                if x == id && p == pipe {
                    assert(cell.used_by(v, i as int));
                } else if x == id {
                    assert(!cell.used_by(v, i as int));
                } else {
                    assert(self.index@[x] != self.index@[id]);
                }
            }
        }
    }

    /// The same number of groups and streams.
    spec fn shaped_as(self, other: Groups) -> bool {
        &&& self.sums@.len() == other.sums@.len()
        &&& forall|c: int|
            0 <= c < self.sums@.len() ==> (#[trigger] self.sums@[c])@.len() == other.sums@[c]@.len()
    }

    /// Adds up all vehicles.
    fn add_vehicles(&mut self, scenario: &Scenario, bin_size: Double, n_bins: usize, by_pipe: bool)
        requires
            old(self).wf(n_bins, by_pipe),
            old(self).holds(*scenario, bin_size, n_bins, by_pipe, 0, 0),
        ensures
            final(self).wf(n_bins, by_pipe),
            final(self).index == old(self).index,
            final(self).shaped_as(*old(self)),
            final(self).holds(
                *scenario,
                bin_size,
                n_bins,
                by_pipe,
                scenario.vehicles@.len(),
                0,
            ),
    {
        let mut j: usize = 0;
        while j < scenario.vehicles.len()
            invariant
                j <= scenario.vehicles@.len(),
                self.wf(n_bins, by_pipe),
                self.index == old(self).index,
                self.shaped_as(*old(self)),
                self.holds(*scenario, bin_size, n_bins, by_pipe, j as nat, 0),
            decreases scenario.vehicles@.len() - j,
        {
            let veh: &Vehicle = &scenario.vehicles[j];
            let ghost views = crate::simulation::vehicle_views(scenario.vehicles@);
            assert(views[j as int] == veh@);
            let mut i: usize = 0;
            while i < veh.path.len() && i < veh.node_times.len() && i + 1 < veh.node_times.len()
                invariant
                    j < scenario.vehicles@.len(),
                    *veh == scenario.vehicles@[j as int],
                    i <= veh.path@.len(),
                    self.wf(n_bins, by_pipe),
                    self.index == old(self).index,
                    self.shaped_as(*old(self)),
                    self.holds(*scenario, bin_size, n_bins, by_pipe, j as nat, i as nat),
                decreases veh.path@.len() - i,
            {
                self.add_passage(scenario, j, i, bin_size, n_bins, by_pipe);
                i = i + 1;
            }
            proof {
                assert forall|id: LinkID, p: int, b: int|
                    self.index@.contains_key(id) && 0 <= p
                        < self.sums@[self.index@[id] as int]@.len() && 0 <= b
                        < n_bins implies #[trigger] self.sums@[self.index@[id] as int]@[p].at(b)
                    == sums_upto(
                    *scenario,
                    cell_of(*scenario, bin_size, id, by_pipe, p, b),
                    (j + 1) as nat,
                    0,
                ) by {
                    let cell = cell_of(*scenario, bin_size, id, by_pipe, p, b);
                    let acc = cell.sums(views, j as nat);
                    if i < veh@.path.len() {
                        lemma_rest_adds_nothing(cell, acc, veh@, i as nat, veh@.path.len());
                    }
                }
            }
            j = j + 1;
        }
    }
}

impl Scenario {
    /// Position of the last of the first `n` links with this id.
    pub open spec fn find_last_link(self, id: LinkID, n: nat) -> Option<int>
        decreases n,
    {
        if n == 0 {
            None
        } else if self.links@[n - 1].id == id {
            Some(n - 1)
        } else {
            self.find_last_link(id, (n - 1) as nat)
        }
    }
}

/// Number of streams of a link.
spec fn streams(s: Scenario, l: int, by_pipe: bool) -> nat {
    if by_pipe {
        crate::model::at_least_one(s.links@[l].pipes@.len())
    } else {
        1
    }
}

/// Empty sums for the streams of one link.
fn empty_sums(n: usize, n_bins: usize) -> (r: Vec<Sums>)
    ensures
        r@.len() == n,
        forall|p: int| 0 <= p < n ==> (#[trigger] r@[p]).sized(n_bins),
        forall|p: int, b: int|
            0 <= p < n && 0 <= b < n_bins ==> #[trigger] r@[p].at(b) == (
                Double::zero(),
                Double::zero(),
            ),
{
    let mut r: Vec<Sums> = Vec::new();
    let mut p: usize = 0;
    while p < n
        invariant
            p <= n,
            r@.len() == p,
            forall|q: int| 0 <= q < p ==> (#[trigger] r@[q]).sized(n_bins),
            forall|q: int, b: int|
                0 <= q < p && 0 <= b < n_bins ==> #[trigger] r@[q].at(b) == (
                    Double::zero(),
                    Double::zero(),
                ),
        decreases n - p,
    {
        r.push(Sums::new(n_bins));
        p = p + 1;
    }
    r
}

impl Groups {
    /// The groups of the first `n` links: each id has one, sized for the last
    /// link with that id, which owns it.
    spec fn covers(self, s: Scenario, owners: Seq<usize>, by_pipe: bool, n: nat) -> bool {
        &&& owners.len() == self.sums@.len()
        &&& forall|id: LinkID| #[trigger]
            self.index@.contains_key(id) <==> s.find_last_link(id, n) is Some
        &&& forall|id: LinkID| #[trigger]
            self.index@.contains_key(id) ==> {
                let c = self.index@[id] as int;
                &&& s.find_last_link(id, n) == Some(owners[c] as int)
                &&& self.sums@[c]@.len() == streams(s, owners[c] as int, by_pipe)
            }
    }

    /// Empty groups for all links.
    fn build(scenario: &Scenario, n_bins: usize, by_pipe: bool) -> (r: (Self, Vec<usize>))
        ensures
            r.0.wf(n_bins, by_pipe),
            r.0.covers(*scenario, r.1@, by_pipe, scenario.links@.len()),
            forall|c: int, p: int, b: int|
                0 <= c < r.0.sums@.len() && 0 <= p < r.0.sums@[c]@.len() && 0 <= b < n_bins
                    ==> #[trigger] r.0.sums@[c]@[p].at(b) == (Double::zero(), Double::zero()),
    {
        broadcast use vstd::std_specs::hash::group_hash_axioms;

        let mut g = Groups { index: HashMap::new(), sums: Vec::new() };
        let mut owners: Vec<usize> = Vec::new();
        let mut l: usize = 0;
        while l < scenario.links.len()
            invariant
                l <= scenario.links@.len(),
                g.wf(n_bins, by_pipe),
                g.covers(*scenario, owners@, by_pipe, l as nat),
                forall|c: int, p: int, b: int|
                    0 <= c < g.sums@.len() && 0 <= p < g.sums@[c]@.len() && 0 <= b < n_bins
                        ==> #[trigger] g.sums@[c]@[p].at(b) == (Double::zero(), Double::zero()),
            decreases scenario.links@.len() - l,
        {
            let link: &Link = &scenario.links[l];
            let n: usize = if by_pipe && link.pipes.len() > 1 {
                link.pipes.len()
            } else {
                1
            };
            let fresh: Vec<Sums> = empty_sums(n, n_bins);
            let id: LinkID = link.id;
            let ghost before = g;
            let ghost owned = owners@;
            let found: Option<usize> = match g.index.get(&id) {
                Some(c) => Some(*c),
                None => None,
            };
            match found {
                Some(c) => {
                    g.sums.set(c, fresh);
                    owners.set(c, l);
                },
                None => {
                    let c: usize = g.sums.len();
                    g.sums.push(fresh);
                    owners.push(l);
                    g.index.insert(id, c);
                },
            }
            proof {
                let k: nat = (l + 1) as nat;
                assert((k - 1) as nat == l);
                assert forall|x: LinkID| #[trigger] g.index@.contains_key(x) <==> scenario.find_last_link(x, k) is Some by {
                    assert(before.index@.contains_key(x) <==> scenario.find_last_link(
                        x,
                        l as nat,
                    ) is Some);
                }
                assert forall|x: LinkID| #[trigger] g.index@.contains_key(x) implies {
                    let c = g.index@[x] as int;
                    &&& scenario.find_last_link(x, k) == Some(owners@[c] as int)
                    &&& g.sums@[c]@.len() == streams(*scenario, owners@[c] as int, by_pipe)
                } by {
                    if x != id {
                        assert(before.index@.contains_key(x));
                        if before.index@.contains_key(id) {
                            assert(before.index@[x] != before.index@[id]);
                        }
                    }
                }
                assert forall|a: LinkID, b: LinkID|
                    g.index@.contains_key(a) && g.index@.contains_key(b) && a
                        != b implies #[trigger] g.index@[a] != #[trigger] g.index@[b] by {
                    if before.index@.contains_key(a) {
                        assert(before.index@[a] < before.sums@.len());
                    }
                    if before.index@.contains_key(b) {
                        assert(before.index@[b] < before.sums@.len());
                    }
                }
                assert forall|c: int, p: int|
                    0 <= c < g.sums@.len() && 0 <= p < g.sums@[c]@.len() implies (
                #[trigger] g.sums@[c]@[p]).sized(n_bins) by {
                    if c < before.sums@.len() && (found is None || c != found.unwrap()) {
                        assert(before.sums@[c]@[p].sized(n_bins));
                    }
                }
                if !by_pipe {
                    assert forall|c: int| 0 <= c < g.sums@.len() implies (
                    #[trigger] g.sums@[c])@.len() == 1 by {
                        if c < before.sums@.len() {
                            assert(before.sums@[c]@.len() == 1);
                        }
                    }
                }
                assert forall|c: int, p: int, b: int|
                    0 <= c < g.sums@.len() && 0 <= p < g.sums@[c]@.len() && 0 <= b
                        < n_bins implies #[trigger] g.sums@[c]@[p].at(b) == (
                    Double::zero(),
                    Double::zero(),
                ) by {
                    if c < before.sums@.len() && (found is None || c != found.unwrap()) {
                        assert(before.sums@[c]@[p].at(b) == (Double::zero(), Double::zero()));
                    }
                }
            }
            l = l + 1;
        }
        (g, owners)
    }
}

// ── Series ───────────────────────────────────────────────────────────────────

#[derive(Debug)]
pub struct TimeSeries {
    pub t: Vec<Double>,
    pub values: Vec<Double>,
}

/// Start times of the bins.
pub open spec fn time_axis(start: Double, bin_size: Double, n_bins: nat) -> Seq<Double> {
    Seq::new(n_bins, |i: int| start.plus(Double::from_usize(i as usize).times(bin_size)))
}

/// Flow, density and speed of one stream. Flow counts exits per hour; density
/// is vehicle-hours per hour and kilometre; speed is their ratio, and free-flow
/// speed where there is next to no vehicle.
pub ghost struct Rates {
    pub flow: Double,
    pub density: Double,
    pub speed: Double,
}

pub open spec fn rates(
    raw: (Double, Double),
    bin_size: Double,
    length_km: Double,
    u_kmh: Double,
) -> Rates {
    let hours = bin_size.over(Double::from_bits(SECONDS_PER_HOUR));
    let flow = raw.0.over(hours);
    let density = raw.1.over(hours.times(length_km));
    Rates {
        flow,
        density,
        speed: if density.gt(Double::from_bits(IDLE)) {
            flow.over(density)
        } else {
            u_kmh
        },
    }
}

/// Flow, density and speed of one link over time.
#[derive(Debug)]
pub struct LinkStats {
    pub link_id: LinkID,
    /// Vehicles that leave the link per hour.
    pub flow: TimeSeries,
    /// Vehicles per kilometre.
    pub density: TimeSeries,
    /// Space-mean speed in km/h.
    pub speed: TimeSeries,
    /// Jam density in veh/km: that of the diagram, fd.kx * 1000.
    pub kx_veh_km: Double,
    /// Capacity in veh/h: that of the diagram, fd.c * 3600.
    pub capacity_veh_h: Double,
}

/// The same for one pipe of a link.
#[derive(Debug)]
pub struct PipeStats {
    pub link_id: LinkID,
    pub pipe: PipeIdx,
    pub lanes: u8,
    pub flow: TimeSeries,
    pub density: TimeSeries,
    pub speed: TimeSeries,
    pub kx_veh_km: Double,
    pub capacity_veh_h: Double,
}

impl Scenario {
    /// Length in kilometres and free-flow speed in km/h of the first link with
    /// this id.
    pub open spec fn link_scale(self, id: LinkID) -> (Double, Double) {
        match self.find_link(id, 0) {
            Some(l) => (
                self.links@[l].length.over(Double::from_bits(METRES_PER_KM)),
                self.links@[l].fd.u.times(Double::from_bits(KMH_PER_MS)),
            ),
            None => (Double::one(), Double::zero()),
        }
    }

    /// The rates of one bin of a link, or of one of its pipes.
    pub open spec fn bin_rates(
        self,
        bin_size: Double,
        id: LinkID,
        pipe: Option<int>,
        b: int,
    ) -> Rates {
        let cell = Cell { start: self.start_time, bin_size, link: id, pipe, bin: b };
        let vehicles = crate::simulation::vehicle_views(self.vehicles@);
        rates(
            cell.sums(vehicles, vehicles.len()),
            bin_size,
            self.link_scale(id).0,
            self.link_scale(id).1,
        )
    }

    /// Three series hold the rates of a stream over the whole duration.
    pub open spec fn holds_rates(
        self,
        bin_size: Double,
        id: LinkID,
        pipe: Option<int>,
        flow: TimeSeries,
        density: TimeSeries,
        speed: TimeSeries,
    ) -> bool {
        let n = bin_count(self.duration, bin_size) as nat;
        let axis = time_axis(self.start_time, bin_size, n);
        &&& flow.t@ == axis
        &&& density.t@ == axis
        &&& speed.t@ == axis
        &&& flow.values@.len() == n
        &&& density.values@.len() == n
        &&& speed.values@.len() == n
        &&& forall|b: int|
            0 <= b < n ==> {
                let r = #[trigger] self.bin_rates(bin_size, id, pipe, b);
                flow.values@[b] == r.flow && density.values@[b] == r.density && speed.values@[b]
                    == r.speed
            }
    }

    /// What the statistics of a link hold: its rates, and the jam density and the
    /// capacity of its diagram in transport units.
    pub open spec fn has_link_stats(self, bin_size: Double, id: LinkID, st: LinkStats) -> bool {
        &&& self.find_last_link(id, self.links@.len()) is Some
        &&& st.link_id == id
        &&& self.holds_rates(bin_size, id, None, st.flow, st.density, st.speed)
        &&& ({
            let l = self.links@[self.find_last_link(id, self.links@.len()).unwrap()];
            &&& st.kx_veh_km == l.fd.kx.times(Double::from_bits(METRES_PER_KM))
            &&& st.capacity_veh_h == l.fd.c.times(Double::from_bits(SECONDS_PER_HOUR))
        })
    }

    /// What the statistics of one pipe hold.
    pub open spec fn has_pipe_stats(
        self,
        bin_size: Double,
        id: LinkID,
        p: int,
        st: PipeStats,
    ) -> bool {
        &&& self.find_last_link(id, self.links@.len()) is Some
        &&& st.link_id == id
        &&& st.pipe == (p % 256) as u8
        &&& self.holds_rates(bin_size, id, Some(p), st.flow, st.density, st.speed)
        &&& ({
            let l = self.links@[self.find_last_link(id, self.links@.len()).unwrap()];
            let (lanes, capacity) = if p < l.pipes@.len() {
                (l.pipes@[p].lanes, l.pipes@[p].capacity)
            } else {
                (l.num_lanes, l.capacity)
            };
            &&& st.lanes == lanes
            &&& st.kx_veh_km == l.fd.kx.times(Double::from_u64(lanes as u64)).times(
                Double::from_bits(METRES_PER_KM),
            )
            &&& st.capacity_veh_h == capacity.times(Double::from_bits(SECONDS_PER_HOUR))
        })
    }
}

fn make_axis(start: Double, bin_size: Double, n_bins: usize) -> (t: Vec<Double>)
    ensures
        t@ == time_axis(start, bin_size, n_bins as nat),
{
    let mut t: Vec<Double> = Vec::new();
    let mut i: usize = 0;
    while i < n_bins
        invariant
            i <= n_bins,
            t@ == time_axis(start, bin_size, i as nat),
        decreases n_bins - i,
    {
        t.push(start.plus(Double::from_usize(i).times(bin_size)));
        i = i + 1;
        assert(t@ =~= time_axis(start, bin_size, i as nat));
    }
    t
}

/// The rates of every bin from the raw sums of a stream.
fn normalize(scenario: &Scenario, bin_size: Double, id: LinkID, sums: &Sums, pipe: Ghost<Option<int>>) -> (r: (
    TimeSeries,
    TimeSeries,
    TimeSeries,
))
    requires
        sums.sized(bin_count(scenario.duration, bin_size)),
        forall|b: int|
            0 <= b < bin_count(scenario.duration, bin_size) ==> #[trigger] sums.at(b) == (Cell {
                start: scenario.start_time,
                bin_size,
                link: id,
                pipe: pipe@,
                bin: b,
            }).sums(
                crate::simulation::vehicle_views(scenario.vehicles@),
                scenario.vehicles@.len(),
            ),
    ensures
        scenario.holds_rates(bin_size, id, pipe@, r.0, r.1, r.2),
{
    let n_bins: usize = bin_count(scenario.duration, bin_size);
    let (length_km, u_kmh) = match scenario.locate_link(id) {
        Some(l) => (
            scenario.links[l].length.over(Double::from_bits(METRES_PER_KM)),
            scenario.links[l].fd.u.times(Double::from_bits(KMH_PER_MS)),
        ),
        None => (Double::one(), Double::zero()),
    };
    let hours: Double = bin_size.over(Double::from_bits(SECONDS_PER_HOUR));
    let mut flow: Vec<Double> = Vec::new();
    let mut density: Vec<Double> = Vec::new();
    let mut speed: Vec<Double> = Vec::new();
    let mut b: usize = 0;
    while b < n_bins
        invariant
            n_bins == bin_count(scenario.duration, bin_size),
            b <= n_bins,
            sums.sized(n_bins),
            forall|b: int|
                0 <= b < n_bins ==> #[trigger] sums.at(b) == (Cell {
                    start: scenario.start_time,
                    bin_size,
                    link: id,
                    pipe: pipe@,
                    bin: b,
                }).sums(
                    crate::simulation::vehicle_views(scenario.vehicles@),
                    scenario.vehicles@.len(),
                ),
            (length_km, u_kmh) == scenario.link_scale(id),
            hours == bin_size.over(Double::from_bits(SECONDS_PER_HOUR)),
            flow@.len() == b,
            density@.len() == b,
            speed@.len() == b,
            forall|i: int|
                0 <= i < b ==> {
                    let r = #[trigger] scenario.bin_rates(bin_size, id, pipe@, i);
                    flow@[i] == r.flow && density@[i] == r.density && speed@[i] == r.speed
                },
        decreases n_bins - b,
    {
        let q: Double = sums.flow[b].over(hours);
        let k: Double = sums.density[b].over(hours.times(length_km));
        proof {
            assert(sums.at(b as int) == (sums.flow@[b as int], sums.density@[b as int]));
        }
        flow.push(q);
        density.push(k);
        speed.push(
            if k.gt(Double::from_bits(IDLE)) {
                q.over(k)
            } else {
                u_kmh
            },
        );
        b = b + 1;
    }
    let start: Double = scenario.start_time;
    (
        TimeSeries { t: make_axis(start, bin_size, n_bins), values: flow },
        TimeSeries { t: make_axis(start, bin_size, n_bins), values: density },
        TimeSeries { t: make_axis(start, bin_size, n_bins), values: speed },
    )
}

/// Flow, density and speed of every link. A vehicle counts in the flow of the
/// bin in which it leaves the link, and in the density of a bin for the time
/// that it spends there.
pub fn compute_link_stats(scenario: &Scenario, bin_size: Double) -> (stats: HashMap<
    LinkID,
    LinkStats,
>)
    ensures
        forall|id: LinkID| #[trigger] stats@.contains_key(id) <==> scenario.has_link(id),
        forall|id: LinkID| #[trigger]
            stats@.contains_key(id) ==> scenario.has_link_stats(bin_size, id, stats@[id]),
{
    broadcast use vstd::std_specs::hash::group_hash_axioms;

    let n_bins: usize = bin_count(scenario.duration, bin_size);
    let (mut g, owners) = Groups::build(scenario, n_bins, false);
    g.add_vehicles(scenario, bin_size, n_bins, false);
    let mut stats: HashMap<LinkID, LinkStats> = HashMap::new();
    let n: usize = scenario.links.len();
    let mut l: usize = 0;
    while l < n
        invariant
            n == scenario.links@.len(),
            l <= n,
            n_bins == bin_count(scenario.duration, bin_size),
            g.wf(n_bins, false),
            g.covers(*scenario, owners@, false, n as nat),
            g.holds(*scenario, bin_size, n_bins, false, scenario.vehicles@.len(), 0),
            forall|id: LinkID| #[trigger]
                stats@.contains_key(id) <==> exists|j: int|
                    0 <= j < l && (#[trigger] scenario.links@[j]).id == id,
            forall|id: LinkID| #[trigger]
                stats@.contains_key(id) ==> scenario.has_link_stats(bin_size, id, stats@[id]),
        decreases n - l,
    {
        let id: LinkID = scenario.links[l].id;
        proof {
            lemma_last_exists(*scenario, id, l as int, n as nat);
            assert(scenario.links@[l as int].id == id);
        }
        let ghost before = stats@;
        if let Some(c) = g.index.get(&id) {
            let sums: &Sums = &g.sums[*c][0];
            proof {
                assert(g.index@.contains_key(id));
                assert forall|b: int| 0 <= b < n_bins implies #[trigger] sums.at(b) == (Cell {
                    start: scenario.start_time,
                    bin_size,
                    link: id,
                    pipe: None,
                    bin: b,
                }).sums(
                    crate::simulation::vehicle_views(scenario.vehicles@),
                    scenario.vehicles@.len(),
                ) by {
                    assert(g.sums@[g.index@[id] as int]@[0].at(b) == sums_upto(
                        *scenario,
                        cell_of(*scenario, bin_size, id, false, 0, b),
                        scenario.vehicles@.len(),
                        0,
                    ));
                }
            }
            let (flow, density, speed) = normalize(scenario, bin_size, id, sums, Ghost(None));
            let owner: &Link = &scenario.links[owners[*c]];
            stats.insert(
                id,
                LinkStats {
                    link_id: id,
                    flow,
                    density,
                    speed,
                    kx_veh_km: owner.fd.kx.times(Double::from_bits(METRES_PER_KM)),
                    capacity_veh_h: owner.fd.c.times(Double::from_bits(SECONDS_PER_HOUR)),
                },
            );
        }
        proof {
            assert(g.index@.contains_key(id));
            lemma_ids_grow(*scenario, before.dom(), stats@.dom(), id, l as int);
        }
        l = l + 1;
    }
    stats
}

proof fn lemma_ids_grow(s: Scenario, before: Set<LinkID>, after: Set<LinkID>, id: LinkID, l: int)
    requires
        0 <= l < s.links@.len(),
        s.links@[l].id == id,
        after == before.insert(id),
        forall|x: LinkID| #[trigger]
            before.contains(x) <==> exists|j: int| 0 <= j < l && (#[trigger] s.links@[j]).id == x,
    ensures
        forall|x: LinkID| #[trigger]
            after.contains(x) <==> exists|j: int| 0 <= j < l + 1 && (#[trigger] s.links@[j]).id == x,
{
    assert forall|x: LinkID| #[trigger] after.contains(x) <==> exists|j: int|
        0 <= j < l + 1 && (#[trigger] s.links@[j]).id == x by {
        if after.contains(x) {
            if before.contains(x) {
                let j = choose|j: int| 0 <= j < l && (#[trigger] s.links@[j]).id == x;
                assert(0 <= j < l + 1 && s.links@[j].id == x);
            } else {
                assert(s.links@[l].id == x);
            }
        }
    }
}

proof fn lemma_last_exists(s: Scenario, id: LinkID, i: int, n: nat)
    requires
        0 <= i < n <= s.links@.len(),
        s.links@[i].id == id,
    ensures
        s.find_last_link(id, n) is Some,
        0 <= s.find_last_link(id, n).unwrap() < n,
    decreases n,
{
    if s.links@[n - 1].id != id {
        lemma_last_exists(s, id, i, (n - 1) as nat);
    }
}

/// Flow, density and speed of every pipe of every link, each traversal counted
/// on the pipe that the vehicle took.
pub fn compute_pipe_stats(scenario: &Scenario, bin_size: Double) -> (stats: HashMap<
    LinkID,
    Vec<PipeStats>,
>)
    ensures
        forall|id: LinkID| #[trigger] stats@.contains_key(id) <==> scenario.has_link(id),
        forall|id: LinkID| #[trigger]
            stats@.contains_key(id) ==> {
                let l = scenario.links@[scenario.find_last_link(
                    id,
                    scenario.links@.len(),
                ).unwrap()];
                &&& stats@[id]@.len() == crate::model::at_least_one(l.pipes@.len())
                &&& forall|p: int|
                    0 <= p < stats@[id]@.len() ==> scenario.has_pipe_stats(
                        bin_size,
                        id,
                        p,
                        #[trigger] stats@[id]@[p],
                    )
            },
{
    broadcast use vstd::std_specs::hash::group_hash_axioms;

    let n_bins: usize = bin_count(scenario.duration, bin_size);
    let (mut g, owners) = Groups::build(scenario, n_bins, true);
    g.add_vehicles(scenario, bin_size, n_bins, true);
    let mut stats: HashMap<LinkID, Vec<PipeStats>> = HashMap::new();
    let n: usize = scenario.links.len();
    let mut l: usize = 0;
    while l < n
        invariant
            n == scenario.links@.len(),
            l <= n,
            n_bins == bin_count(scenario.duration, bin_size),
            g.wf(n_bins, true),
            g.covers(*scenario, owners@, true, n as nat),
            g.holds(*scenario, bin_size, n_bins, true, scenario.vehicles@.len(), 0),
            forall|id: LinkID| #[trigger]
                stats@.contains_key(id) <==> exists|j: int|
                    0 <= j < l && (#[trigger] scenario.links@[j]).id == id,
            forall|id: LinkID| #[trigger]
                stats@.contains_key(id) ==> {
                    let l = scenario.links@[scenario.find_last_link(
                        id,
                        scenario.links@.len(),
                    ).unwrap()];
                    &&& stats@[id]@.len() == crate::model::at_least_one(l.pipes@.len())
                    &&& forall|p: int|
                        0 <= p < stats@[id]@.len() ==> scenario.has_pipe_stats(
                            bin_size,
                            id,
                            p,
                            #[trigger] stats@[id]@[p],
                        )
                },
        decreases n - l,
    {
        let id: LinkID = scenario.links[l].id;
        proof {
            lemma_last_exists(*scenario, id, l as int, n as nat);
            assert(scenario.links@[l as int].id == id);
        }
        let ghost before = stats@;
        if let Some(c) = g.index.get(&id) {
            let o: usize = owners[*c];
            let sums: &Vec<Sums> = &g.sums[*c];
            assert(g.index@.contains_key(id));
            let entries: Vec<PipeStats> = pipe_entries(
                scenario,
                bin_size,
                id,
                o,
                sums,
            );
            stats.insert(id, entries);
        }
        proof {
            assert(g.index@.contains_key(id));
            lemma_ids_grow(*scenario, before.dom(), stats@.dom(), id, l as int);
        }
        l = l + 1;
    }
    stats
}

/// The statistics of the pipes of one link.
fn pipe_entries(
    scenario: &Scenario,
    bin_size: Double,
    id: LinkID,
    o: usize,
    sums: &Vec<Sums>,
) -> (r: Vec<PipeStats>)
    requires
        o < scenario.links@.len(),
        scenario.find_last_link(id, scenario.links@.len()) == Some(o as int),
        sums@.len() == crate::model::at_least_one(scenario.links@[o as int].pipes@.len()),
        forall|p: int| 0 <= p < sums@.len() ==> (#[trigger] sums@[p]).sized(
            bin_count(scenario.duration, bin_size),
        ),
        forall|p: int, b: int|
            0 <= p < sums@.len() && 0 <= b < bin_count(scenario.duration, bin_size)
                ==> #[trigger] sums@[p].at(b) == sums_upto(
                *scenario,
                cell_of(*scenario, bin_size, id, true, p, b),
                scenario.vehicles@.len(),
                0,
            ),
    ensures
        r@.len() == sums@.len(),
        forall|p: int|
            0 <= p < r@.len() ==> scenario.has_pipe_stats(bin_size, id, p, #[trigger] r@[p]),
{
    let owner: &Link = &scenario.links[o];
    let mut r: Vec<PipeStats> = Vec::new();
    let mut p: usize = 0;
    while p < sums.len()
        invariant
            p <= sums@.len(),
            r@.len() == p,
            o < scenario.links@.len(),
            *owner == scenario.links@[o as int],
            scenario.find_last_link(id, scenario.links@.len()) == Some(o as int),
            forall|p: int| 0 <= p < sums@.len() ==> (#[trigger] sums@[p]).sized(
                bin_count(scenario.duration, bin_size),
            ),
            forall|p: int, b: int|
                0 <= p < sums@.len() && 0 <= b < bin_count(scenario.duration, bin_size)
                    ==> #[trigger] sums@[p].at(b) == sums_upto(
                    *scenario,
                    cell_of(*scenario, bin_size, id, true, p, b),
                    scenario.vehicles@.len(),
                    0,
                ),
            forall|q: int|
                0 <= q < p ==> scenario.has_pipe_stats(bin_size, id, q, #[trigger] r@[q]),
        decreases sums@.len() - p,
    {
        let (lanes, capacity) = if p < owner.pipes.len() {
            (owner.pipes[p].lanes, owner.pipes[p].capacity)
        } else {
            (owner.num_lanes, owner.capacity)
        };
        let (flow, density, speed) = normalize(
            scenario,
            bin_size,
            id,
            &sums[p],
            Ghost(Some(p as int)),
        );
        let ghost before = r@;
        let entry = PipeStats {
            link_id: id,
            pipe: (p % 256) as u8,
            lanes,
            flow,
            density,
            speed,
            kx_veh_km: owner.fd.kx.times(Double::from_u64(lanes as u64)).times(
                Double::from_bits(METRES_PER_KM),
            ),
            capacity_veh_h: capacity.times(Double::from_bits(SECONDS_PER_HOUR)),
        };
        assert(scenario.has_pipe_stats(bin_size, id, p as int, entry));
        r.push(entry);
        proof {
            assert forall|q: int| 0 <= q < p + 1 implies scenario.has_pipe_stats(
                bin_size,
                id,
                q,
                #[trigger] r@[q],
            ) by {
                if q < p {
                    assert(r@[q] == before[q]);
                }
            }
        }
        p = p + 1;
    }
    r
}

// ── Laws ─────────────────────────────────────────────────────────────────────

/// A number, finite or not, that is not negative.
pub open spec fn not_negative(x: Double) -> bool {
    !x.nan() && x.key() >= 0
}

impl Cell {
    proof fn lemma_after(self, acc: (Double, Double), tr: (Double, Double))
        requires
            not_negative(acc.0),
            not_negative(acc.1),
        ensures
            not_negative(self.after(acc, tr).0),
            not_negative(self.after(acc, tr).1),
    {
        crate::double::law_sum_not_below(acc.0, Double::one());
        let t0 = tr.0.max(Double::from_usize(self.bin as usize).times(self.bin_size));
        let t1 = tr.1.min(Double::from_usize((self.bin as usize + 1) as usize).times(self.bin_size));
        if t1.gt(t0) {
            let hour = Double::from_bits(SECONDS_PER_HOUR);
            crate::double::law_difference_not_negative(t1, t0);
            crate::double::law_quotient_not_negative(t1.minus(t0), hour);
            crate::double::law_sum_not_below(acc.1, t1.minus(t0).over(hour));
        }
    }

    proof fn lemma_along(self, acc: (Double, Double), v: VehicleView, k: nat)
        requires
            not_negative(acc.0),
            not_negative(acc.1),
        ensures
            not_negative(self.along(acc, v, k).0),
            not_negative(self.along(acc, v, k).1),
        decreases k,
    {
        if k > 0 {
            self.lemma_along(acc, v, (k - 1) as nat);
            if let Some(tr) = traversal(v, self.start, k - 1) {
                self.lemma_after(self.along(acc, v, (k - 1) as nat), tr);
            }
        }
    }

    proof fn lemma_sums(self, vehicles: Seq<VehicleView>, n: nat)
        ensures
            not_negative(self.sums(vehicles, n).0),
            not_negative(self.sums(vehicles, n).1),
        decreases n,
    {
        if n > 0 {
            self.lemma_sums(vehicles, (n - 1) as nat);
            self.lemma_along(
                self.sums(vehicles, (n - 1) as nat),
                vehicles[n - 1],
                vehicles[n - 1].path.len(),
            );
        }
    }
}

/// Flow, density and speed are not negative, whatever the vehicles did: where
/// the bin lasts a positive part of an hour on a link of positive length, so are
/// flow and density, and so is the speed, where the free-flow speed is not
/// negative and flow and density are not both beyond the finite numbers.
pub proof fn law_rates_are_not_negative(
    s: Scenario,
    bin_size: Double,
    id: LinkID,
    pipe: Option<int>,
    b: int,
)
    requires
        ({
            let hours = bin_size.over(Double::from_bits(SECONDS_PER_HOUR));
            let area = hours.times(s.link_scale(id).0);
            &&& hours.gt(Double::zero()) && hours.finite()
            &&& area.gt(Double::zero()) && area.finite()
        }),
    ensures
        ({
            let r = s.bin_rates(bin_size, id, pipe, b);
            &&& not_negative(r.flow)
            &&& not_negative(r.density)
            &&& not_negative(s.link_scale(id).1) && (r.flow.finite() || r.density.finite())
                ==> not_negative(r.speed)
        }),
{
    let cell = Cell { start: s.start_time, bin_size, link: id, pipe, bin: b };
    let vehicles = crate::simulation::vehicle_views(s.vehicles@);
    cell.lemma_sums(vehicles, vehicles.len());
    let raw = cell.sums(vehicles, vehicles.len());
    let hours = bin_size.over(Double::from_bits(SECONDS_PER_HOUR));
    let r = s.bin_rates(bin_size, id, pipe, b);
    crate::double::law_quotient_not_negative(raw.0, hours);
    crate::double::law_quotient_not_negative(raw.1, hours.times(s.link_scale(id).0));
    if r.density.gt(Double::from_bits(IDLE)) && (r.flow.finite() || r.density.finite()) {
        crate::double::law_quotient_not_negative(r.flow, r.density);
    }
}

// ── Links and their pipes ────────────────────────────────────────────────────

impl Cell {
    /// The traversal at place `i` of the path counts as an exit in this bin.
    pub open spec fn counts(self, v: VehicleView, i: int) -> bool {
        &&& self.used_by(v, i)
        &&& traversal(v, self.start, i) matches Some(tr) && bin_of(tr.1, self.bin_size) == self.bin
    }

    /// Exits in the bin over the first `k` links of a path.
    pub open spec fn exits_along(self, v: VehicleView, k: nat) -> nat
        decreases k,
    {
        if k == 0 {
            0
        } else {
            self.exits_along(v, (k - 1) as nat) + if self.counts(v, k - 1) {
                1nat
            } else {
                0nat
            }
        }
    }

    /// Exits in the bin over the first `n` vehicles.
    pub open spec fn exits(self, vehicles: Seq<VehicleView>, n: nat) -> nat
        decreases n,
    {
        if n == 0 {
            0
        } else {
            self.exits(vehicles, (n - 1) as nat) + self.exits_along(
                vehicles[n - 1],
                vehicles[n - 1].path.len(),
            )
        }
    }

    /// The same bin on one pipe of the link.
    pub open spec fn on_pipe(self, p: int) -> Cell {
        Cell { pipe: Some(p), ..self }
    }

    /// Exits from the first `m` pipes of the link over the first `k` links of a
    /// path.
    pub open spec fn pipe_exits_along(self, v: VehicleView, k: nat, m: nat) -> nat
        decreases m,
    {
        if m == 0 {
            0
        } else {
            self.pipe_exits_along(v, k, (m - 1) as nat) + self.on_pipe(m - 1).exits_along(v, k)
        }
    }

    /// Exits from the first `m` pipes of the link.
    pub open spec fn pipe_exits(self, vehicles: Seq<VehicleView>, n: nat, m: nat) -> nat
        decreases m,
    {
        if m == 0 {
            0
        } else {
            self.pipe_exits(vehicles, n, (m - 1) as nat) + self.on_pipe(m - 1).exits(vehicles, n)
        }
    }

    proof fn lemma_exits_along(self, acc: (Double, Double), a: nat, v: VehicleView, k: nat)
        requires
            acc.0 == ones(a),
        ensures
            self.along(acc, v, k).0 == ones(a + self.exits_along(v, k)),
        decreases k,
    {
        if k > 0 {
            self.lemma_exits_along(acc, a, v, (k - 1) as nat);
        }
    }

    proof fn lemma_pipe_step(self, v: VehicleView, k: nat, m: nat)
        requires
            self.pipe is None,
            k > 0,
        ensures
            self.pipe_exits_along(v, k, m) == self.pipe_exits_along(v, (k - 1) as nat, m)
                + if self.counts(v, k - 1) && pipe_taken(v, k - 1) < m {
                1nat
            } else {
                0nat
            },
        decreases m,
    {
        if m > 0 {
            self.lemma_pipe_step(v, k, (m - 1) as nat);
        }
    }

    proof fn lemma_pipes_along(self, v: VehicleView, k: nat, m: nat)
        requires
            self.pipe is None,
            forall|i: int|
                0 <= i < k && v.path[i] == self.link ==> #[trigger] pipe_taken(v, i) < m,
        ensures
            self.exits_along(v, k) == self.pipe_exits_along(v, k, m),
        decreases k,
    {
        if k > 0 {
            self.lemma_pipes_along(v, (k - 1) as nat, m);
            self.lemma_pipe_step(v, k, m);
            assert(v.path[k - 1] == self.link ==> pipe_taken(v, k - 1) < m);
        } else {
            self.lemma_no_exits(v, m);
        }
    }

    proof fn lemma_no_exits(self, v: VehicleView, m: nat)
        ensures
            self.pipe_exits_along(v, 0, m) == 0,
        decreases m,
    {
        if m > 0 {
            self.lemma_no_exits(v, (m - 1) as nat);
        }
    }

    proof fn lemma_vehicle_step(self, vehicles: Seq<VehicleView>, n: nat, m: nat)
        requires
            n > 0,
        ensures
            self.pipe_exits(vehicles, n, m) == self.pipe_exits(vehicles, (n - 1) as nat, m)
                + self.pipe_exits_along(vehicles[n - 1], vehicles[n - 1].path.len(), m),
        decreases m,
    {
        if m > 0 {
            self.lemma_vehicle_step(vehicles, n, (m - 1) as nat);
        }
    }

    proof fn lemma_nobody(self, vehicles: Seq<VehicleView>, m: nat)
        ensures
            self.pipe_exits(vehicles, 0, m) == 0,
        decreases m,
    {
        if m > 0 {
            self.lemma_nobody(vehicles, (m - 1) as nat);
        }
    }
}

/// One added up `n` times.
pub open spec fn ones(n: nat) -> Double
    decreases n,
{
    if n == 0 {
        Double::zero()
    } else {
        ones((n - 1) as nat).plus(Double::one())
    }
}

/// The flow of a bin, before it is scaled to a rate, counts its exits.
pub proof fn law_flow_counts_exits(cell: Cell, vehicles: Seq<VehicleView>, n: nat)
    ensures
        cell.sums(vehicles, n).0 == ones(cell.exits(vehicles, n)),
    decreases n,
{
    if n > 0 {
        law_flow_counts_exits(cell, vehicles, (n - 1) as nat);
        cell.lemma_exits_along(
            cell.sums(vehicles, (n - 1) as nat),
            cell.exits(vehicles, (n - 1) as nat),
            vehicles[n - 1],
            vehicles[n - 1].path.len(),
        );
    }
}

/// The pipes of a link share its exits: in every bin, each exit from the link
/// is one from exactly one of its pipes, so that the counts of the pipes add up to
/// that of the link.
pub proof fn law_pipes_share_the_exits(cell: Cell, vehicles: Seq<VehicleView>, n: nat, m: nat)
    requires
        cell.pipe is None,
        n <= vehicles.len(),
        forall|v: int, i: int|
            0 <= v < n && 0 <= i < vehicles[v].path.len() && vehicles[v].path[i] == cell.link
                ==> #[trigger] pipe_taken(vehicles[v], i) < m,
    ensures
        cell.exits(vehicles, n) == cell.pipe_exits(vehicles, n, m),
    decreases n,
{
    if n > 0 {
        law_pipes_share_the_exits(cell, vehicles, (n - 1) as nat, m);
        let v = vehicles[n - 1];
        assert forall|i: int| 0 <= i < v.path.len() && v.path[i] == cell.link implies #[trigger]
        pipe_taken(v, i) < m by {
            assert(pipe_taken(vehicles[n - 1], i) < m);
        }
        cell.lemma_pipes_along(v, v.path.len(), m);
        cell.lemma_vehicle_step(vehicles, n, m);
    } else {
        cell.lemma_nobody(vehicles, m);
    }
}

/// Ones add up to a whole number without rounding.
proof fn lemma_ones(n: nat)
    requires
        n < crate::double::TWO_53,
    ensures
        ones(n) == crate::double::whole(n),
    decreases n,
{
    crate::double::law_zero_and_one_are_whole();
    if n > 0 {
        lemma_ones((n - 1) as nat);
        crate::double::law_whole_numbers_add_up((n - 1) as nat, 1);
    }
}

impl Cell {
    /// The flows of the first `m` pipes of the link, added up.
    pub open spec fn pipe_flows(self, vehicles: Seq<VehicleView>, n: nat, m: nat) -> Double
        decreases m,
    {
        if m == 0 {
            Double::zero()
        } else {
            self.pipe_flows(vehicles, n, (m - 1) as nat).plus(
                self.on_pipe(m - 1).sums(vehicles, n).0,
            )
        }
    }

    /// The vehicle-hours that a traversal adds to the bin, where it adds any.
    pub open spec fn share(self, v: VehicleView, i: int) -> Option<Double> {
        match traversal(v, self.start, i) {
            Some(tr) => {
                let t0 = tr.0.max(Double::from_usize(self.bin as usize).times(self.bin_size));
                let t1 = tr.1.min(
                    Double::from_usize((self.bin + 1) as usize).times(self.bin_size),
                );
                if self.used_by(v, i) && bin_of(tr.0, self.bin_size) <= self.bin <= bin_of(
                    tr.1,
                    self.bin_size,
                ) && t1.gt(t0) {
                    Some(t1.minus(t0).over(Double::from_bits(SECONDS_PER_HOUR)))
                } else {
                    None
                }
            },
            None => None,
        }
    }

    /// The shares of the first `k` links of a path, in order.
    pub open spec fn shares_along(self, v: VehicleView, k: nat) -> Seq<Double>
        decreases k,
    {
        if k == 0 {
            Seq::empty()
        } else {
            crate::diagnostics::push_some(
                self.shares_along(v, (k - 1) as nat),
                self.share(v, k - 1),
            )
        }
    }

    /// The shares of the first `n` vehicles, in order.
    pub open spec fn shares(self, vehicles: Seq<VehicleView>, n: nat) -> Seq<Double>
        decreases n,
    {
        if n == 0 {
            Seq::empty()
        } else {
            self.shares(vehicles, (n - 1) as nat) + self.shares_along(
                vehicles[n - 1],
                vehicles[n - 1].path.len(),
            )
        }
    }

    /// The shares on the first `m` pipes of the link, over the first `k` links of
    /// a path.
    pub open spec fn pipe_shares_along(self, v: VehicleView, k: nat, m: nat) -> Multiset<Double>
        decreases m,
    {
        if m == 0 {
            Multiset::empty()
        } else {
            self.pipe_shares_along(v, k, (m - 1) as nat).add(
                self.on_pipe(m - 1).shares_along(v, k).to_multiset(),
            )
        }
    }

    /// The shares on the first `m` pipes of the link, all together.
    pub open spec fn pipe_shares(self, vehicles: Seq<VehicleView>, n: nat, m: nat) -> Multiset<
        Double,
    >
        decreases m,
    {
        if m == 0 {
            Multiset::empty()
        } else {
            self.pipe_shares(vehicles, n, (m - 1) as nat).add(
                self.on_pipe(m - 1).shares(vehicles, n).to_multiset(),
            )
        }
    }

    proof fn lemma_shares_along(self, acc: (Double, Double), v: VehicleView, k: nat)
        ensures
            self.along(acc, v, k).1 == added(acc.1, self.shares_along(v, k)),
        decreases k,
    {
        if k > 0 {
            self.lemma_shares_along(acc, v, (k - 1) as nat);
            let before = self.shares_along(v, (k - 1) as nat);
            if let Some(x) = self.share(v, k - 1) {
                assert(before.push(x).drop_last() =~= before);
            }
        }
    }

    proof fn lemma_pipe_share_step(self, v: VehicleView, k: nat, m: nat)
        requires
            self.pipe is None,
            k > 0,
        ensures
            self.pipe_shares_along(v, k, m) == match self.share(v, k - 1) {
                Some(x) => if pipe_taken(v, k - 1) < m {
                    self.pipe_shares_along(v, (k - 1) as nat, m).insert(x)
                } else {
                    self.pipe_shares_along(v, (k - 1) as nat, m)
                },
                None => self.pipe_shares_along(v, (k - 1) as nat, m),
            },
        decreases m,
    {
        broadcast use vstd::seq_lib::group_to_multiset_ensures;

        if m > 0 {
            self.lemma_pipe_share_step(v, k, (m - 1) as nat);
            let cell = self.on_pipe(m - 1);
            let before = cell.shares_along(v, (k - 1) as nat);
            let rest = self.pipe_shares_along(v, (k - 1) as nat, (m - 1) as nat);
            if let Some(x) = self.share(v, k - 1) {
                if pipe_taken(v, k - 1) == m - 1 {
                    assert(cell.share(v, k - 1) == Some(x));
                    assert(rest.add(before.to_multiset().insert(x)) =~= rest.add(
                        before.to_multiset(),
                    ).insert(x));
                } else {
                    assert(cell.share(v, k - 1) is None);
                    assert(rest.insert(x).add(before.to_multiset()) =~= rest.add(
                        before.to_multiset(),
                    ).insert(x));
                }
            } else {
                assert(cell.share(v, k - 1) is None);
            }
        }
    }

    proof fn lemma_pipe_shares_along(self, v: VehicleView, k: nat, m: nat)
        requires
            self.pipe is None,
            forall|i: int|
                0 <= i < k && v.path[i] == self.link ==> #[trigger] pipe_taken(v, i) < m,
        ensures
            self.shares_along(v, k).to_multiset() == self.pipe_shares_along(v, k, m),
        decreases k,
    {
        broadcast use vstd::seq_lib::group_to_multiset_ensures;

        if k > 0 {
            self.lemma_pipe_shares_along(v, (k - 1) as nat, m);
            self.lemma_pipe_share_step(v, k, m);
            assert(v.path[k - 1] == self.link ==> pipe_taken(v, k - 1) < m);
        } else {
            self.lemma_no_shares(v, m);
            assert(self.shares_along(v, 0).to_multiset() =~= Multiset::empty());
        }
    }

    proof fn lemma_no_shares(self, v: VehicleView, m: nat)
        ensures
            self.pipe_shares_along(v, 0, m) == Multiset::<Double>::empty(),
        decreases m,
    {
        broadcast use vstd::seq_lib::group_to_multiset_ensures;

        if m > 0 {
            self.lemma_no_shares(v, (m - 1) as nat);
            assert(self.on_pipe(m - 1).shares_along(v, 0).to_multiset() =~= Multiset::empty());
            assert(self.pipe_shares_along(v, 0, m) =~= Multiset::empty());
        }
    }

    proof fn lemma_share_vehicle(self, vehicles: Seq<VehicleView>, n: nat, m: nat)
        requires
            n > 0,
        ensures
            self.pipe_shares(vehicles, n, m) == self.pipe_shares(vehicles, (n - 1) as nat, m).add(
                self.pipe_shares_along(vehicles[n - 1], vehicles[n - 1].path.len(), m),
            ),
        decreases m,
    {
        let v = vehicles[n - 1];
        if m > 0 {
            self.lemma_share_vehicle(vehicles, n, (m - 1) as nat);
            let cell = self.on_pipe(m - 1);
            let (a, b) = (
                cell.shares(vehicles, (n - 1) as nat),
                cell.shares_along(v, v.path.len()),
            );
            vstd::seq_lib::lemma_multiset_commutative(a, b);
            assert(self.pipe_shares(vehicles, n, m) =~= self.pipe_shares(
                vehicles,
                (n - 1) as nat,
                m,
            ).add(self.pipe_shares_along(v, v.path.len(), m)));
        } else {
            assert(Multiset::<Double>::empty().add(Multiset::empty()) =~= Multiset::empty());
        }
    }

    proof fn lemma_nobody_shares(self, vehicles: Seq<VehicleView>, m: nat)
        ensures
            self.pipe_shares(vehicles, 0, m) == Multiset::<Double>::empty(),
        decreases m,
    {
        broadcast use vstd::seq_lib::group_to_multiset_ensures;

        if m > 0 {
            self.lemma_nobody_shares(vehicles, (m - 1) as nat);
            assert(self.on_pipe(m - 1).shares(vehicles, 0).to_multiset() =~= Multiset::empty());
            assert(self.pipe_shares(vehicles, 0, m) =~= Multiset::empty());
        }
    }
}

/// Numbers added up in order, to what is there.
pub open spec fn added(acc: Double, xs: Seq<Double>) -> Double
    decreases xs.len(),
{
    if xs.len() == 0 {
        acc
    } else {
        added(acc, xs.drop_last()).plus(xs.last())
    }
}

proof fn lemma_added_on(acc: Double, a: Seq<Double>, b: Seq<Double>)
    ensures
        added(acc, a + b) == added(added(acc, a), b),
    decreases b.len(),
{
    if b.len() == 0 {
        assert(a + b =~= a);
    } else {
        lemma_added_on(acc, a, b.drop_last());
        assert((a + b).drop_last() =~= a + b.drop_last());
        assert((a + b).last() == b.last());
    }
}

/// The flows of the pipes add up to the flow of the link: in every bin, before they
/// are scaled to rates by the same number, their sum is that of the link, and no
/// rounding comes in, with fewer than 2^53 exits.
pub proof fn law_pipe_flows_add_up(cell: Cell, vehicles: Seq<VehicleView>, n: nat, m: nat)
    requires
        cell.pipe is None,
        n <= vehicles.len(),
        forall|v: int, i: int|
            0 <= v < n && 0 <= i < vehicles[v].path.len() && vehicles[v].path[i] == cell.link
                ==> #[trigger] pipe_taken(vehicles[v], i) < m,
        cell.exits(vehicles, n) < crate::double::TWO_53,
    ensures
        cell.pipe_flows(vehicles, n, m) == cell.sums(vehicles, n).0,
{
    law_pipes_share_the_exits(cell, vehicles, n, m);
    law_flow_counts_exits(cell, vehicles, n);
    lemma_ones(cell.exits(vehicles, n));
    lemma_pipe_flows(cell, vehicles, n, m);
}

proof fn lemma_pipe_flows(cell: Cell, vehicles: Seq<VehicleView>, n: nat, m: nat)
    requires
        cell.pipe_exits(vehicles, n, m) < crate::double::TWO_53,
    ensures
        cell.pipe_flows(vehicles, n, m) == crate::double::whole(cell.pipe_exits(vehicles, n, m)),
    decreases m,
{
    crate::double::law_zero_and_one_are_whole();
    if m > 0 {
        lemma_pipe_flows(cell, vehicles, n, (m - 1) as nat);
        let pipe = cell.on_pipe(m - 1);
        law_flow_counts_exits(pipe, vehicles, n);
        lemma_ones(pipe.exits(vehicles, n));
        crate::double::law_whole_numbers_add_up(
            cell.pipe_exits(vehicles, n, (m - 1) as nat),
            pipe.exits(vehicles, n),
        );
    }
}

/// The density of a bin, before it is scaled, adds up the shares of the traversals,
/// one by one.
pub proof fn law_density_adds_up_shares(cell: Cell, vehicles: Seq<VehicleView>, n: nat)
    ensures
        cell.sums(vehicles, n).1 == added(Double::zero(), cell.shares(vehicles, n)),
    decreases n,
{
    if n > 0 {
        law_density_adds_up_shares(cell, vehicles, (n - 1) as nat);
        let v = vehicles[n - 1];
        cell.lemma_shares_along(cell.sums(vehicles, (n - 1) as nat), v, v.path.len());
        lemma_added_on(
            Double::zero(),
            cell.shares(vehicles, (n - 1) as nat),
            cell.shares_along(v, v.path.len()),
        );
    }
}

/// The pipes of a link share its vehicle-hours: in every bin, the shares that add up
/// to the density of the link are those of its pipes, each on exactly one of them. So
/// the densities of the pipes add up to that of the link, but for the rounding of
/// sums that are taken in another order.
pub proof fn law_pipes_share_the_hours(cell: Cell, vehicles: Seq<VehicleView>, n: nat, m: nat)
    requires
        cell.pipe is None,
        n <= vehicles.len(),
        forall|v: int, i: int|
            0 <= v < n && 0 <= i < vehicles[v].path.len() && vehicles[v].path[i] == cell.link
                ==> #[trigger] pipe_taken(vehicles[v], i) < m,
    ensures
        cell.shares(vehicles, n).to_multiset() == cell.pipe_shares(vehicles, n, m),
    decreases n,
{
    broadcast use vstd::seq_lib::group_to_multiset_ensures;

    if n > 0 {
        law_pipes_share_the_hours(cell, vehicles, (n - 1) as nat, m);
        let v = vehicles[n - 1];
        assert forall|i: int| 0 <= i < v.path.len() && v.path[i] == cell.link implies #[trigger]
        pipe_taken(v, i) < m by {
            assert(pipe_taken(vehicles[n - 1], i) < m);
        }
        cell.lemma_pipe_shares_along(v, v.path.len(), m);
        cell.lemma_share_vehicle(vehicles, n, m);
        vstd::seq_lib::lemma_multiset_commutative(
            cell.shares(vehicles, (n - 1) as nat),
            cell.shares_along(v, v.path.len()),
        );
    } else {
        cell.lemma_nobody_shares(vehicles, m);
        assert(cell.shares(vehicles, 0).to_multiset() =~= Multiset::empty());
    }
}

/// The exact sum of some numbers, in units of `2^-1074`.
pub open spec fn total(xs: Seq<Double>) -> int
    decreases xs.len(),
{
    if xs.len() == 0 {
        0
    } else {
        total(xs.drop_last()) + units(xs.last())
    }
}

proof fn lemma_total_on(a: Seq<Double>, b: Seq<Double>)
    ensures
        total(a + b) == total(a) + total(b),
    decreases b.len(),
{
    if b.len() == 0 {
        assert(a + b =~= a);
    } else {
        lemma_total_on(a, b.drop_last());
        assert((a + b).drop_last() =~= a + b.drop_last());
        assert((a + b).last() == b.last());
    }
}

/// None of the numbers is below zero, or no number.
pub open spec fn none_negative(xs: Seq<Double>) -> bool {
    forall|i: int| 0 <= i < xs.len() ==> !(#[trigger] xs[i]).nan() && xs[i].key() >= 0
}

/// A sum that is taken one by one is off by no more than a share of `n * 2^-52`.
proof fn lemma_added_error(xs: Seq<Double>)
    requires
        none_negative(xs),
        added(Double::zero(), xs).finite(),
        xs.len() <= TWO_52,
    ensures
        added(Double::zero(), xs).key() >= 0,
        total(xs) >= 0,
        TWO_52 * size(units(added(Double::zero(), xs)) - total(xs)) <= xs.len() * total(xs),
    decreases xs.len(),
{
    crate::double::law_zero_has_no_units();
    if xs.len() > 0 {
        let rest = xs.drop_last();
        let x = xs.last();
        assert(none_negative(rest)) by {
            assert forall|i: int| 0 <= i < rest.len() implies !(#[trigger] rest[i]).nan()
                && rest[i].key() >= 0 by {
                assert(xs[i] == rest[i]);
            }
        }
        assert(xs[xs.len() - 1] == x);
        lemma_added_rises(rest);
        let acc = added(Double::zero(), rest);
        crate::double::law_sum_not_below(acc, x);
        crate::double::law_sum_commutes(acc, x);
        crate::double::law_sum_not_below(x, acc);
        lemma_added_error(rest);
        crate::double::law_sum_is_nearly_exact(acc, x);
        let (v, u, s, t) = (
            units(acc),
            units(x),
            units(acc.plus(x)),
            total(rest),
        );
        let n = rest.len() as int;
        assert(TWO_52 * size(s - (t + u)) <= (n + 1) * (t + u)) by (nonlinear_arith)
            requires
                TWO_52 * size(v - t) <= n * t,
                2 * TWO_52 * size(s - (v + u)) <= v + u,
                0 <= n <= TWO_52,
                t >= 0,
                u >= 0,
                v >= 0,
        {
            assert(size(s - (t + u)) <= size(s - (v + u)) + size(v - t));
            assert(n * t <= TWO_52 * t) by (nonlinear_arith)
                requires
                    n <= TWO_52,
                    t >= 0,
            ;
            assert(size(v - t) <= t) by (nonlinear_arith)
                requires
                    TWO_52 * size(v - t) <= n * t,
                    n * t <= TWO_52 * t,
            ;
            assert(v <= 2 * t);
            assert(TWO_52 * size(s - (v + u)) <= t + u);
            assert(TWO_52 * size(s - (t + u)) <= TWO_52 * size(s - (v + u)) + TWO_52 * size(
                v - t,
            )) by (nonlinear_arith)
                requires
                    size(s - (t + u)) <= size(s - (v + u)) + size(v - t),
            ;
            assert((n + 1) * (t + u) == n * t + n * u + t + u) by (nonlinear_arith);
            assert(n * u >= 0) by (nonlinear_arith)
                requires
                    n >= 0,
                    u >= 0,
            ;
        }
    }
}

proof fn lemma_added_rises(xs: Seq<Double>)
    requires
        none_negative(xs),
    ensures
        !added(Double::zero(), xs).nan(),
        added(Double::zero(), xs).key() >= 0,
    decreases xs.len(),
{
    if xs.len() > 0 {
        let rest = xs.drop_last();
        assert(none_negative(rest)) by {
            assert forall|i: int| 0 <= i < rest.len() implies !(#[trigger] rest[i]).nan()
                && rest[i].key() >= 0 by {
                assert(xs[i] == rest[i]);
            }
        }
        lemma_added_rises(rest);
        assert(xs[xs.len() - 1] == xs.last());
        crate::double::law_sum_not_below(added(Double::zero(), rest), xs.last());
    }
}

impl Cell {
    proof fn lemma_shares_not_negative(self, vehicles: Seq<VehicleView>, n: nat)
        ensures
            none_negative(self.shares(vehicles, n)),
        decreases n,
    {
        if n > 0 {
            self.lemma_shares_not_negative(vehicles, (n - 1) as nat);
            let v = vehicles[n - 1];
            self.lemma_shares_along_not_negative(v, v.path.len());
            let (a, b) = (
                self.shares(vehicles, (n - 1) as nat),
                self.shares_along(v, v.path.len()),
            );
            assert forall|i: int| 0 <= i < (a + b).len() implies !(#[trigger] (a + b)[i]).nan() && (a
                + b)[i].key() >= 0 by {
                if i < a.len() {
                    assert((a + b)[i] == a[i]);
                } else {
                    assert((a + b)[i] == b[i - a.len()]);
                }
            }
        }
    }

    proof fn lemma_shares_along_not_negative(self, v: VehicleView, k: nat)
        ensures
            none_negative(self.shares_along(v, k)),
        decreases k,
    {
        if k > 0 {
            self.lemma_shares_along_not_negative(v, (k - 1) as nat);
            if let Some(x) = self.share(v, k - 1) {
                let tr = traversal(v, self.start, k - 1)->0;
                let t0 = tr.0.max(Double::from_usize(self.bin as usize).times(self.bin_size));
                let t1 = tr.1.min(
                    Double::from_usize((self.bin + 1) as usize).times(self.bin_size),
                );
                let hour = Double::from_bits(SECONDS_PER_HOUR);
                assert(hour.finite() && hour.gt(Double::zero()));
                crate::double::law_difference_not_negative(t1, t0);
                crate::double::law_quotient_not_negative(t1.minus(t0), hour);
                let before = self.shares_along(v, (k - 1) as nat);
                assert forall|i: int| 0 <= i < before.push(x).len() implies !(
                #[trigger] before.push(x)[i]).nan() && before.push(x)[i].key() >= 0 by {
                    if i < before.len() {
                        assert(before.push(x)[i] == before[i]);
                    }
                }
            }
        }
    }

    /// The exact sum of the shares on the first `m` pipes, over the first `k` links
    /// of a path.
    spec fn pipe_total_along(self, v: VehicleView, k: nat, m: nat) -> int
        decreases m,
    {
        if m == 0 {
            0
        } else {
            self.pipe_total_along(v, k, (m - 1) as nat) + total(
                self.on_pipe(m - 1).shares_along(v, k),
            )
        }
    }

    /// The exact sum of the shares on the first `m` pipes.
    spec fn pipe_total(self, vehicles: Seq<VehicleView>, n: nat, m: nat) -> int
        decreases m,
    {
        if m == 0 {
            0
        } else {
            self.pipe_total(vehicles, n, (m - 1) as nat) + total(
                self.on_pipe(m - 1).shares(vehicles, n),
            )
        }
    }

    proof fn lemma_pipe_total_step(self, v: VehicleView, k: nat, m: nat)
        requires
            self.pipe is None,
            k > 0,
        ensures
            self.pipe_total_along(v, k, m) == self.pipe_total_along(v, (k - 1) as nat, m)
                + match self.share(v, k - 1) {
                Some(x) => if pipe_taken(v, k - 1) < m {
                    units(x)
                } else {
                    0
                },
                None => 0,
            },
        decreases m,
    {
        if m > 0 {
            self.lemma_pipe_total_step(v, k, (m - 1) as nat);
            let cell = self.on_pipe(m - 1);
            let before = cell.shares_along(v, (k - 1) as nat);
            if let Some(x) = cell.share(v, k - 1) {
                assert(before.push(x).drop_last() =~= before);
            }
        }
    }

    proof fn lemma_total_along(self, v: VehicleView, k: nat, m: nat)
        requires
            self.pipe is None,
            forall|i: int|
                0 <= i < k && v.path[i] == self.link ==> #[trigger] pipe_taken(v, i) < m,
        ensures
            total(self.shares_along(v, k)) == self.pipe_total_along(v, k, m),
        decreases k,
    {
        if k > 0 {
            self.lemma_total_along(v, (k - 1) as nat, m);
            self.lemma_pipe_total_step(v, k, m);
            assert(v.path[k - 1] == self.link ==> pipe_taken(v, k - 1) < m);
            let before = self.shares_along(v, (k - 1) as nat);
            if let Some(x) = self.share(v, k - 1) {
                assert(before.push(x).drop_last() =~= before);
            }
        } else {
            self.lemma_no_total(v, m);
        }
    }

    proof fn lemma_no_total(self, v: VehicleView, m: nat)
        ensures
            self.pipe_total_along(v, 0, m) == 0,
        decreases m,
    {
        if m > 0 {
            self.lemma_no_total(v, (m - 1) as nat);
        }
    }

    proof fn lemma_total_vehicle(self, vehicles: Seq<VehicleView>, n: nat, m: nat)
        requires
            n > 0,
        ensures
            self.pipe_total(vehicles, n, m) == self.pipe_total(vehicles, (n - 1) as nat, m)
                + self.pipe_total_along(vehicles[n - 1], vehicles[n - 1].path.len(), m),
        decreases m,
    {
        if m > 0 {
            self.lemma_total_vehicle(vehicles, n, (m - 1) as nat);
            let cell = self.on_pipe(m - 1);
            lemma_total_on(
                cell.shares(vehicles, (n - 1) as nat),
                cell.shares_along(vehicles[n - 1], vehicles[n - 1].path.len()),
            );
        }
    }

    proof fn lemma_total(self, vehicles: Seq<VehicleView>, n: nat, m: nat)
        requires
            self.pipe is None,
            n <= vehicles.len(),
            forall|v: int, i: int|
                0 <= v < n && 0 <= i < vehicles[v].path.len() && vehicles[v].path[i] == self.link
                    ==> #[trigger] pipe_taken(vehicles[v], i) < m,
        ensures
            total(self.shares(vehicles, n)) == self.pipe_total(vehicles, n, m),
        decreases n,
    {
        if n > 0 {
            self.lemma_total(vehicles, (n - 1) as nat, m);
            let v = vehicles[n - 1];
            assert forall|i: int| 0 <= i < v.path.len() && v.path[i] == self.link implies #[trigger]
            pipe_taken(v, i) < m by {
                assert(pipe_taken(vehicles[n - 1], i) < m);
            }
            self.lemma_total_along(v, v.path.len(), m);
            self.lemma_total_vehicle(vehicles, n, m);
            lemma_total_on(
                self.shares(vehicles, (n - 1) as nat),
                self.shares_along(v, v.path.len()),
            );
        } else {
            self.lemma_nobody_total(vehicles, m);
        }
    }

    proof fn lemma_nobody_total(self, vehicles: Seq<VehicleView>, m: nat)
        ensures
            self.pipe_total(vehicles, 0, m) == 0,
        decreases m,
    {
        if m > 0 {
            self.lemma_nobody_total(vehicles, (m - 1) as nat);
        }
    }

    proof fn lemma_fewer_shares(self, p: int, vehicles: Seq<VehicleView>, n: nat)
        requires
            self.pipe is None,
        ensures
            self.on_pipe(p).shares(vehicles, n).len() <= self.shares(vehicles, n).len(),
        decreases n,
    {
        if n > 0 {
            self.lemma_fewer_shares(p, vehicles, (n - 1) as nat);
            self.lemma_fewer_along(p, vehicles[n - 1], vehicles[n - 1].path.len());
        }
    }

    proof fn lemma_fewer_along(self, p: int, v: VehicleView, k: nat)
        requires
            self.pipe is None,
        ensures
            self.on_pipe(p).shares_along(v, k).len() <= self.shares_along(v, k).len(),
        decreases k,
    {
        if k > 0 {
            self.lemma_fewer_along(p, v, (k - 1) as nat);
        }
    }

    /// The densities of the first `m` pipes, added up exactly.
    pub open spec fn pipe_densities(self, vehicles: Seq<VehicleView>, n: nat, m: nat) -> int
        decreases m,
    {
        if m == 0 {
            0
        } else {
            self.pipe_densities(vehicles, n, (m - 1) as nat) + units(
                self.on_pipe(m - 1).sums(vehicles, n).1,
            )
        }
    }

    proof fn lemma_pipe_densities(self, vehicles: Seq<VehicleView>, n: nat, m: nat)
        requires
            self.pipe is None,
            forall|p: int|
                0 <= p < m ==> (#[trigger] self.on_pipe(p)).sums(vehicles, n).1.finite(),
            self.shares(vehicles, n).len() <= TWO_52,
        ensures
            self.pipe_total(vehicles, n, m) >= 0,
            TWO_52 * size(self.pipe_densities(vehicles, n, m) - self.pipe_total(vehicles, n, m))
                <= self.shares(vehicles, n).len() * self.pipe_total(vehicles, n, m),
        decreases m,
    {
        if m > 0 {
            self.lemma_pipe_densities(vehicles, n, (m - 1) as nat);
            let cell = self.on_pipe(m - 1);
            assert(cell.sums(vehicles, n).1.finite());
            law_density_adds_up_shares(cell, vehicles, n);
            cell.lemma_shares_not_negative(vehicles, n);
            self.lemma_fewer_shares(m - 1, vehicles, n);
            let xs = cell.shares(vehicles, n);
            lemma_added_error(xs);
            let (a, b) = (
                self.pipe_densities(vehicles, n, (m - 1) as nat),
                self.pipe_total(vehicles, n, (m - 1) as nat),
            );
            let (c, t) = (units(cell.sums(vehicles, n).1), total(xs));
            let (few, all) = (xs.len() as int, self.shares(vehicles, n).len() as int);
            assert(TWO_52 * size((a + c) - (b + t)) <= all * (b + t)) by (nonlinear_arith)
                requires
                    TWO_52 * size(a - b) <= all * b,
                    TWO_52 * size(c - t) <= few * t,
                    few <= all,
                    t >= 0,
            {
                assert(size((a + c) - (b + t)) <= size(a - b) + size(c - t));
                assert(TWO_52 * size((a + c) - (b + t)) <= TWO_52 * size(a - b) + TWO_52 * size(
                    c - t,
                )) by (nonlinear_arith)
                    requires
                        size((a + c) - (b + t)) <= size(a - b) + size(c - t),
                ;
                assert(few * t <= all * t) by (nonlinear_arith)
                    requires
                        few <= all,
                        t >= 0,
                ;
                assert(all * (b + t) == all * b + all * t) by (nonlinear_arith);
            }
        }
    }
}

/// The densities of the pipes add up to the density of the link, within the rounding:
/// in every bin, before they are scaled to densities by the same number, their exact
/// sum differs from that of the link by no more than a share of `n * 2^-51` of the
/// vehicle-hours, where `n` traversals have a share in them.
pub proof fn law_pipe_densities_add_up(cell: Cell, vehicles: Seq<VehicleView>, n: nat, m: nat)
    requires
        cell.pipe is None,
        n <= vehicles.len(),
        forall|v: int, i: int|
            0 <= v < n && 0 <= i < vehicles[v].path.len() && vehicles[v].path[i] == cell.link
                ==> #[trigger] pipe_taken(vehicles[v], i) < m,
        cell.shares(vehicles, n).len() <= TWO_52,
        cell.sums(vehicles, n).1.finite(),
        forall|p: int| 0 <= p < m ==> (#[trigger] cell.on_pipe(p)).sums(vehicles, n).1.finite(),
    ensures
        TWO_52 * size(cell.pipe_densities(vehicles, n, m) - units(cell.sums(vehicles, n).1)) <= 2
            * (cell.shares(vehicles, n).len() * total(cell.shares(vehicles, n))),
{
    law_density_adds_up_shares(cell, vehicles, n);
    cell.lemma_shares_not_negative(vehicles, n);
    lemma_added_error(cell.shares(vehicles, n));
    cell.lemma_total(vehicles, n, m);
    cell.lemma_pipe_densities(vehicles, n, m);
    let (a, b, t) = (
        cell.pipe_densities(vehicles, n, m),
        units(cell.sums(vehicles, n).1),
        total(cell.shares(vehicles, n)),
    );
    assert(size(a - b) <= size(a - t) + size(b - t));
    assert(TWO_52 * size(a - b) <= TWO_52 * size(a - t) + TWO_52 * size(b - t)) by (nonlinear_arith)
        requires
            size(a - b) <= size(a - t) + size(b - t),
    ;
}

} // verus!
