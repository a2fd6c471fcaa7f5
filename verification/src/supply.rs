//! The supply constraint of a pipe over a whole run: headway and storage.

use crate::double::Double;
use crate::events::EventType;
use crate::invariants::tally;
use crate::journeys::Spot;
use crate::model::{LinkID, PipeIdx, PipeView, Scenario, VehID, VehicleView};
use crate::simulation::SimView;
use vstd::prelude::*;

verus! {

// ── Entries and exits ────────────────────────────────────────────────────────

impl VehicleView {
    /// The vehicle has taken pipe `p` of link `l` at place `k` of its path.
    pub open spec fn took(self, k: int, l: LinkID, p: PipeIdx) -> bool {
        &&& 0 <= k < self.pipes_taken.len()
        &&& self.path[k] == l
        &&& self.pipes_taken[k] == p
    }

    /// The vehicle has passed the end of that pipe, too.
    pub open spec fn left(self, k: int, l: LinkID, p: PipeIdx) -> bool {
        self.took(k, l, p) && k + 1 < self.node_times.len()
    }
}

impl SimView {
    /// The list holds the rides on a pipe, each once: the vehicle, and the place
    /// of the link in its path.
    pub open spec fn lists_rides(self, l: LinkID, p: PipeIdx, rides: Seq<(VehID, int)>) -> bool {
        &&& rides.no_duplicates()
        &&& forall|v: VehID, k: int| #[trigger]
            rides.contains((v, k)) <==> v < self.vehicles.len() && self.vehicles[v as int].took(
                k,
                l,
                p,
            )
    }

    /// The list holds the rides that have ended, each once.
    pub open spec fn lists_ends(self, l: LinkID, p: PipeIdx, ends: Seq<(VehID, int)>) -> bool {
        &&& ends.no_duplicates()
        &&& forall|v: VehID, k: int| #[trigger]
            ends.contains((v, k)) <==> v < self.vehicles.len() && self.vehicles[v as int].left(
                k,
                l,
                p,
            )
    }

    /// When a ride began.
    pub open spec fn entry_time(self, ride: (VehID, int)) -> Double {
        self.vehicles[ride.0 as int].node_times[ride.1]
    }

    /// When a ride ended.
    pub open spec fn exit_time(self, ride: (VehID, int)) -> Double {
        self.vehicles[ride.0 as int].node_times[ride.1 + 1]
    }

    /// Two rides began in their order.
    pub open spec fn begun_in_order(self, a: (VehID, int), b: (VehID, int)) -> bool {
        self.entry_time(a).le(self.entry_time(b))
    }

    /// Two rides ended in their order.
    pub open spec fn ended_in_order(self, a: (VehID, int), b: (VehID, int)) -> bool {
        self.exit_time(a).le(self.exit_time(b))
    }

    /// The ride behind place `i` began no sooner than the headway allows.
    pub open spec fn keeps_headway(
        self,
        rides: Seq<(VehID, int)>,
        i: int,
        capacity: Double,
    ) -> bool {
        self.entry_time(rides[i]).plus(Double::one().over(capacity)).le(
            self.entry_time(rides[i + 1]),
        )
    }

    /// The ride at place `i` began only when the wave of the exit `dn` places
    /// before had arrived.
    pub open spec fn awaits_wave(
        self,
        rides: Seq<(VehID, int)>,
        ends: Seq<(VehID, int)>,
        i: int,
        dn: int,
        delay: Double,
    ) -> bool {
        &&& i - dn < ends.len()
        &&& self.exit_time(ends[i - dn]).plus(delay).le(self.entry_time(rides[i]))
    }

    /// The release at place `i` comes no sooner than the wave of its exit.
    pub open spec fn release_after(
        self,
        ends: Seq<(VehID, int)>,
        i: int,
        release: Double,
        delay: Double,
    ) -> bool {
        release.nan() || self.exit_time(ends[i]).plus(delay).le(release)
    }

    /// Where a pipe has slots: every exit that the pipe has heard of has
    /// released one, those used by the rides beyond the free slots are gone, and
    /// `debt` more exits are being recorded.
    pub open spec fn slots_recorded(
        self,
        l: LinkID,
        p: PipeIdx,
        rides: Seq<(VehID, int)>,
        ends: Seq<(VehID, int)>,
        debt: nat,
        dn: int,
    ) -> bool {
        let pipe = self.pipe(l, p);
        let used = if rides.len() > dn {
            rides.len() - dn
        } else {
            0
        };
        &&& pipe.discards == 0
        &&& used + pipe.releases.len() + tally(self.events, EventType::LinkExit, l, p) + debt
            == ends.len()
        &&& forall|i: int|
            0 <= i < pipe.releases.len() ==> self.release_after(
                ends,
                used + i,
                #[trigger] pipe.releases[i],
                pipe.wave_delay,
            )
        &&& forall|i: int|
            dn <= i < rides.len() ==> #[trigger] self.awaits_wave(
                rides,
                ends,
                i,
                dn,
                pipe.wave_delay,
            )
    }

    /// The two lists tell all that has happened on the pipe, in order, and the
    /// pipe has kept its headway and its storage.
    pub open spec fn recorded(
        self,
        l: LinkID,
        p: PipeIdx,
        rides: Seq<(VehID, int)>,
        ends: Seq<(VehID, int)>,
        debt: nat,
    ) -> bool {
        let pipe = self.pipe(l, p);
        &&& self.lists_rides(l, p, rides)
        &&& self.lists_ends(l, p, ends)
        &&& forall|i: int, j: int|
            0 <= i < j < rides.len() ==> #[trigger] self.begun_in_order(rides[i], rides[j])
        &&& forall|i: int, j: int|
            0 <= i < j < ends.len() ==> #[trigger] self.ended_in_order(ends[i], ends[j])
        &&& pipe.entered == if rides.len() < usize::MAX {
            rides.len()
        } else {
            usize::MAX as nat
        }
        &&& pipe.capacity.gt(Double::zero()) ==> {
            &&& forall|i: int|
                0 <= i < rides.len() - 1 ==> #[trigger] self.keeps_headway(rides, i, pipe.capacity)
            &&& rides.len() > 0 ==> pipe.next_entry == self.entry_time(rides.last()).plus(
                Double::one().over(pipe.capacity),
            )
        }
        &&& pipe.storage_veh matches Some(dn) ==> self.slots_recorded(
            l,
            p,
            rides,
            ends,
            debt,
            dn as int,
        )
    }

    /// There is a record of the pipe.
    pub open spec fn supplied(self, l: LinkID, p: PipeIdx, debt: nat) -> bool {
        exists|rides: Seq<(VehID, int)>, ends: Seq<(VehID, int)>| #[trigger]
            self.recorded(l, p, rides, ends, debt)
    }

    /// Where there are no overrides: there is a record of every pipe.
    pub open spec fn stocked(self) -> bool {
        self.schedule.len() == 0 ==> forall|l: LinkID, p: PipeIdx|
            self.has_pipe(l, p) ==> #[trigger] self.supplied(l, p, 0)
    }
}

impl PipeView {
    /// The books of the two pipes hold the same.
    pub open spec fn same_books(self, other: PipeView) -> bool {
        &&& self.capacity == other.capacity
        &&& self.storage_veh == other.storage_veh
        &&& self.wave_delay == other.wave_delay
        &&& self.entered == other.entered
        &&& self.releases == other.releases
        &&& self.next_entry == other.next_entry
        &&& self.discards == other.discards
    }
}

// ── Steps ────────────────────────────────────────────────────────────────────

impl SimView {
    /// A pipe of which nothing has changed.
    pub(crate) proof fn lemma_record_stays(
        self,
        t: SimView,
        l: LinkID,
        p: PipeIdx,
        debt: nat,
        later: nat,
    )
        requires
            self.supplied(l, p, debt),
            t.vehicles == self.vehicles,
            t.pipe(l, p).same_books(self.pipe(l, p)),
            tally(t.events, EventType::LinkExit, l, p) + later == tally(
                self.events,
                EventType::LinkExit,
                l,
                p,
            ) + debt,
        ensures
            t.supplied(l, p, later),
    {
        let (rides, ends) = choose|rides: Seq<(VehID, int)>, ends: Seq<(VehID, int)>| #[trigger]
            self.recorded(l, p, rides, ends, debt);
        assert forall|i: int, j: int| 0 <= i < j < rides.len() implies #[trigger] t.begun_in_order(
            rides[i],
            rides[j],
        ) by {
            assert(self.begun_in_order(rides[i], rides[j]));
        }
        assert forall|i: int, j: int| 0 <= i < j < ends.len() implies #[trigger] t.ended_in_order(
            ends[i],
            ends[j],
        ) by {
            assert(self.ended_in_order(ends[i], ends[j]));
        }
        let pipe = t.pipe(l, p);
        if pipe.capacity.gt(Double::zero()) {
            assert forall|i: int| 0 <= i < rides.len() - 1 implies #[trigger] t.keeps_headway(
                rides,
                i,
                pipe.capacity,
            ) by {
                assert(self.keeps_headway(rides, i, pipe.capacity));
            }
        }
        if let Some(dn) = pipe.storage_veh {
            assert forall|i: int| dn <= i < rides.len() implies #[trigger] t.awaits_wave(
                rides,
                ends,
                i,
                dn as int,
                pipe.wave_delay,
            ) by {
                assert(self.awaits_wave(rides, ends, i, dn as int, pipe.wave_delay));
            }
            assert(self.slots_recorded(l, p, rides, ends, debt, dn as int));
            assert(t.slots_recorded(l, p, rides, ends, later, dn as int));
        }
        assert(t.recorded(l, p, rides, ends, later));
    }

    /// All pipes, where nothing has changed.
    pub(crate) proof fn lemma_stock_stays(self, t: SimView)
        requires
            self.stocked(),
            t.same_frame(self),
            t.vehicles == self.vehicles,
            forall|l: LinkID, p: PipeIdx|
                self.has_pipe(l, p) ==> (#[trigger] t.pipe(l, p)).same_books(self.pipe(l, p)),
            forall|l: LinkID, p: PipeIdx| #[trigger]
                tally(t.events, EventType::LinkExit, l, p) == tally(
                    self.events,
                    EventType::LinkExit,
                    l,
                    p,
                ),
        ensures
            t.stocked(),
    {
        if t.schedule.len() == 0 {
            assert forall|l: LinkID, p: PipeIdx| t.has_pipe(l, p) implies #[trigger] t.supplied(
                l,
                p,
                0,
            ) by {
                assert(t.links[l as int].pipes.len() == self.links[l as int].pipes.len());
                assert(self.has_pipe(l, p));
                assert(self.supplied(l, p, 0));
                assert(t.pipe(l, p).same_books(self.pipe(l, p)));
                assert(tally(t.events, EventType::LinkExit, l, p) == tally(
                    self.events,
                    EventType::LinkExit,
                    l,
                    p,
                ));
                self.lemma_record_stays(t, l, p, 0, 0);
            }
        }
    }

    /// What has been passed by now, as `on_pace` tells it.
    proof fn lemma_times_past(self, r: crate::journeys::Roads, l: LinkID, p: PipeIdx, ends: Seq<(VehID, int)>, i: int)
        requires
            self.on_pace(r),
            self.schedule.len() == 0,
            self.lists_ends(l, p, ends),
            0 <= i < ends.len(),
        ensures
            self.exit_time(ends[i]).finite(),
            self.exit_time(ends[i]).le(self.now),
    {
        let (v, k) = ends[i];
        assert(ends.contains((v, k)));
        assert(self.pace_right(r, self.vehicles[v as int]));
        assert(self.past_at(self.vehicles[v as int], k + 1));
    }

    proof fn lemma_entries_past(self, r: crate::journeys::Roads, l: LinkID, p: PipeIdx, rides: Seq<(VehID, int)>, i: int)
        requires
            self.orderly(),
            self.on_pace(r),
            self.schedule.len() == 0,
            self.lists_rides(l, p, rides),
            0 <= i < rides.len(),
        ensures
            self.entry_time(rides[i]).finite(),
            self.entry_time(rides[i]).le(self.now),
    {
        let (v, k) = rides[i];
        assert(rides.contains((v, k)));
        assert(self.vehicles[v as int].on_course());
        assert(self.pace_right(r, self.vehicles[v as int]));
        assert(self.past_at(self.vehicles[v as int], k));
    }

    /// The exit of a vehicle is recorded: its slot is released after the wave.
    pub(crate) proof fn lemma_exit_recorded(self, r: crate::journeys::Roads, t: SimView, l: LinkID, p: PipeIdx)
        requires
            self.on_pace(r),
            self.schedule.len() == 0,
            self.now.finite(),
            self.supplied(l, p, 1),
            t.vehicles == self.vehicles,
            t.events == self.events,
            t.pipe(l, p) == self.pipe(l, p).discharged(self.now),
        ensures
            t.supplied(l, p, 0),
    {
        let (rides, ends) = choose|rides: Seq<(VehID, int)>, ends: Seq<(VehID, int)>| #[trigger]
            self.recorded(l, p, rides, ends, 1);
        let (before, pipe) = (self.pipe(l, p), t.pipe(l, p));
        assert forall|i: int, j: int| 0 <= i < j < rides.len() implies #[trigger] t.begun_in_order(
            rides[i],
            rides[j],
        ) by {
            assert(self.begun_in_order(rides[i], rides[j]));
        }
        assert forall|i: int, j: int| 0 <= i < j < ends.len() implies #[trigger] t.ended_in_order(
            ends[i],
            ends[j],
        ) by {
            assert(self.ended_in_order(ends[i], ends[j]));
        }
        if pipe.capacity.gt(Double::zero()) {
            assert forall|i: int| 0 <= i < rides.len() - 1 implies #[trigger] t.keeps_headway(
                rides,
                i,
                pipe.capacity,
            ) by {
                assert(self.keeps_headway(rides, i, pipe.capacity));
            }
        }
        if let Some(dn) = pipe.storage_veh {
            let used = if rides.len() > dn {
                rides.len() - dn
            } else {
                0
            };
            let delay = pipe.wave_delay;
            assert(self.slots_recorded(l, p, rides, ends, 1, dn as int));
            assert forall|i: int| dn <= i < rides.len() implies #[trigger] t.awaits_wave(
                rides,
                ends,
                i,
                dn as int,
                delay,
            ) by {
                assert(self.awaits_wave(rides, ends, i, dn as int, delay));
            }
            assert forall|i: int| 0 <= i < pipe.releases.len() implies t.release_after(
                ends,
                used + i,
                #[trigger] pipe.releases[i],
                delay,
            ) by {
                if i < before.releases.len() {
                    assert(self.release_after(ends, used + i, before.releases[i], delay));
                } else {
                    self.lemma_times_past(r, l, p, ends, used + i);
                    if delay.nan() {
                        reveal(Double::spec_plus);
                    } else {
                        crate::double::law_sum_monotone(
                            self.exit_time(ends[used + i]),
                            self.now,
                            delay,
                        );
                    }
                }
            }
            assert(t.slots_recorded(l, p, rides, ends, 0, dn as int));
        }
        assert(t.recorded(l, p, rides, ends, 0));
    }

    /// What `v` records as it passes a node: its old rides stay, the one that it
    /// has been on ends, and one begins where `to` tells so.
    proof fn lemma_rides_go_on(
        self,
        t: SimView,
        v: VehID,
        from: Spot,
        to: Option<(LinkID, PipeIdx)>,
        l: LinkID,
        p: PipeIdx,
        k: int,
    )
        requires
            self.orderly(),
            v < self.vehicles.len(),
            self.holds(from, v),
            from is Queued || from is Waiting,
            t.vehicles.len() == self.vehicles.len(),
            self.passes(self.vehicles[v as int], t.vehicles[v as int]),
            match to {
                Some(there) => t.vehicles[v as int].took(
                    self.vehicles[v as int].pipes_taken.len() as int,
                    there.0,
                    there.1,
                ),
                None => t.vehicles[v as int].pipes_taken.len()
                    == self.vehicles[v as int].pipes_taken.len(),
            },
        ensures
            ({
                let (before, after) = (self.vehicles[v as int], t.vehicles[v as int]);
                &&& before.took(k, l, p) ==> k < before.node_times.len() && after.node_times[k]
                    == before.node_times[k]
                &&& before.left(k, l, p) ==> after.node_times[k + 1] == before.node_times[k + 1]
                &&& after.took(k, l, p) <==> before.took(k, l, p) || (to == Some((l, p)) && k
                    == before.pipes_taken.len())
                &&& after.left(k, l, p) <==> before.left(k, l, p) || (from == Spot::Waiting(l, p)
                    && k == before.node_times.len() - 1)
                &&& to == Some((l, p)) ==> after.node_times[before.pipes_taken.len() as int]
                    == self.now
                &&& from == Spot::Waiting(l, p) ==> before.node_times.len() > 0
                    && after.node_times[before.node_times.len() as int] == self.now
            }),
    {
        let (before, after) = (self.vehicles[v as int], t.vehicles[v as int]);
        assert(self.fits(from, before));
        assert(before.on_course());
        if 0 <= k < before.pipes_taken.len() {
            assert(after.pipes_taken[k] == before.pipes_taken[k]);
        }
    }

    /// A vehicle passes a node: the records of one pipe.
    proof fn lemma_passage_recorded(
        self,
        r: crate::journeys::Roads,
        t: SimView,
        v: VehID,
        from: Spot,
        to: Option<(LinkID, PipeIdx)>,
        l: LinkID,
        p: PipeIdx,
    )
        requires
            self.orderly(),
            self.on_pace(r),
            self.schedule.len() == 0,
            self.now.finite(),
            self.supplied(l, p, 0),
            v < self.vehicles.len(),
            self.holds(from, v),
            from is Queued || from is Waiting,
            t.vehicles == self.vehicles.update(v as int, t.vehicles[v as int]),
            self.passes(self.vehicles[v as int], t.vehicles[v as int]),
            match to {
                Some(there) => t.vehicles[v as int].took(
                    self.vehicles[v as int].pipes_taken.len() as int,
                    there.0,
                    there.1,
                ),
                None => t.vehicles[v as int].pipes_taken.len()
                    == self.vehicles[v as int].pipes_taken.len(),
            },
            to == Some((l, p)) ==> self.pipe(l, p).accepts(self.now) && t.pipe(l, p).same_books(
                self.pipe(l, p).taken_in(self.now),
            ),
            to != Some((l, p)) ==> t.pipe(l, p).same_books(self.pipe(l, p)),
            tally(t.events, EventType::LinkExit, l, p) == tally(
                self.events,
                EventType::LinkExit,
                l,
                p,
            ) + if from == Spot::Waiting(l, p) {
                1nat
            } else {
                0nat
            },
        ensures
            t.supplied(l, p, 0),
    {
        let (rides, ends) = choose|rides: Seq<(VehID, int)>, ends: Seq<(VehID, int)>| #[trigger]
            self.recorded(l, p, rides, ends, 0);
        let (before, pipe) = (self.pipe(l, p), t.pipe(l, p));
        let (enters, leaves) = (to == Some((l, p)), from == Spot::Waiting(l, p));
        let begun = (v, self.vehicles[v as int].pipes_taken.len() as int);
        let ended = (v, self.vehicles[v as int].node_times.len() - 1);
        let rides2 = if enters {
            rides.push(begun)
        } else {
            rides
        };
        let ends2 = if leaves {
            ends.push(ended)
        } else {
            ends
        };
        self.lemma_rides_go_on(t, v, from, to, l, p, begun.1);
        self.lemma_rides_go_on(t, v, from, to, l, p, ended.1);
        assert forall|w: VehID, k: int| #[trigger]
            rides2.contains((w, k)) <==> w < t.vehicles.len() && t.vehicles[w as int].took(
                k,
                l,
                p,
            ) by {
            lemma_push_once(rides, begun, (w, k));
            assert(rides.contains((w, k)) <==> w < self.vehicles.len()
                && self.vehicles[w as int].took(k, l, p));
            self.lemma_rides_go_on(t, v, from, to, l, p, k);
        }
        assert forall|w: VehID, k: int| #[trigger]
            ends2.contains((w, k)) <==> w < t.vehicles.len() && t.vehicles[w as int].left(
                k,
                l,
                p,
            ) by {
            lemma_push_once(ends, ended, (w, k));
            assert(ends.contains((w, k)) <==> w < self.vehicles.len()
                && self.vehicles[w as int].left(k, l, p));
            self.lemma_rides_go_on(t, v, from, to, l, p, k);
        }
        assert(!rides.contains(begun));
        assert(!ends.contains(ended)) by {
            assert(ends.contains((v, ended.1)) <==> v < self.vehicles.len()
                && self.vehicles[v as int].left(ended.1, l, p));
        }
        lemma_push_once(rides, begun, begun);
        lemma_push_once(ends, ended, ended);
        assert(t.lists_rides(l, p, rides2));
        assert(t.lists_ends(l, p, ends2));
        assert forall|i: int| 0 <= i < rides.len() implies t.entry_time(#[trigger] rides[i])
            == self.entry_time(rides[i]) && self.entry_time(rides[i]).le(self.now)
            && self.entry_time(rides[i]).finite() by {
            let (w, k) = rides[i];
            assert(rides.contains((w, k)));
            self.lemma_rides_go_on(t, v, from, to, l, p, k);
            self.lemma_entries_past(r, l, p, rides, i);
        }
        assert forall|i: int| 0 <= i < ends.len() implies t.exit_time(#[trigger] ends[i])
            == self.exit_time(ends[i]) && self.exit_time(ends[i]).le(self.now) by {
            let (w, k) = ends[i];
            assert(ends.contains((w, k)));
            self.lemma_rides_go_on(t, v, from, to, l, p, k);
            self.lemma_times_past(r, l, p, ends, i);
        }
        assert(enters ==> t.entry_time(begun) == self.now);
        assert(leaves ==> t.exit_time(ended) == self.now);
        assert forall|i: int, j: int| 0 <= i < j < rides2.len() implies #[trigger] t.begun_in_order(
            rides2[i],
            rides2[j],
        ) by {
            assert(rides2[i] == rides[i]);
            if j < rides.len() {
                assert(rides2[j] == rides[j]);
                assert(self.begun_in_order(rides[i], rides[j]));
            }
        }
        assert forall|i: int, j: int| 0 <= i < j < ends2.len() implies #[trigger] t.ended_in_order(
            ends2[i],
            ends2[j],
        ) by {
            assert(ends2[i] == ends[i]);
            if j < ends.len() {
                assert(ends2[j] == ends[j]);
                assert(self.ended_in_order(ends[i], ends[j]));
            }
        }
        if pipe.capacity.gt(Double::zero()) {
            assert forall|i: int| 0 <= i < rides2.len() - 1 implies #[trigger] t.keeps_headway(
                rides2,
                i,
                pipe.capacity,
            ) by {
                assert(rides2[i] == rides[i]);
                if i + 1 < rides.len() {
                    assert(rides2[i + 1] == rides[i + 1]);
                    assert(self.keeps_headway(rides, i, pipe.capacity));
                } else {
                    assert(rides[i] == rides.last());
                }
            }
            if !enters && rides.len() > 0 {
                assert(rides.last() == rides[rides.len() - 1]);
            }
        }
        if let Some(dn) = pipe.storage_veh {
            let delay = pipe.wave_delay;
            assert(self.slots_recorded(l, p, rides, ends, 0, dn as int));
            let used = if rides.len() > dn {
                rides.len() - dn
            } else {
                0
            };
            let used2 = if rides2.len() > dn {
                rides2.len() - dn
            } else {
                0
            };
            assert forall|i: int| dn <= i < rides2.len() implies #[trigger] t.awaits_wave(
                rides2,
                ends2,
                i,
                dn as int,
                delay,
            ) by {
                if i < rides.len() {
                    assert(rides2[i] == rides[i]);
                    assert(self.awaits_wave(rides, ends, i, dn as int, delay));
                } else {
                    assert(before.entered >= dn);
                    assert(self.release_after(ends, used + 0, before.releases[0], delay));
                }
                assert(ends2[i - dn] == ends[i - dn]);
            }
            assert forall|i: int| 0 <= i < pipe.releases.len() implies t.release_after(
                ends2,
                used2 + i,
                #[trigger] pipe.releases[i],
                delay,
            ) by {
                let k = used2 + i - used;
                assert(pipe.releases[i] == before.releases[k]);
                assert(self.release_after(ends, used + k, before.releases[k], delay));
                assert(ends2[used + k] == ends[used + k]);
            }
            assert(t.slots_recorded(l, p, rides2, ends2, 0, dn as int));
        }
        assert(t.recorded(l, p, rides2, ends2, 0));
    }

    /// A vehicle passes a node: the records of all pipes.
    pub(crate) proof fn lemma_stock_goes_on(
        self,
        r: crate::journeys::Roads,
        t: SimView,
        v: VehID,
        from: Spot,
        to: Option<(LinkID, PipeIdx)>,
    )
        requires
            self.orderly(),
            self.on_pace(r),
            self.stocked(),
            self.schedule.len() == 0,
            self.now.finite(),
            v < self.vehicles.len(),
            self.holds(from, v),
            from is Queued || from is Waiting,
            t.same_frame(self),
            t.vehicles == self.vehicles.update(v as int, t.vehicles[v as int]),
            self.passes(self.vehicles[v as int], t.vehicles[v as int]),
            match to {
                Some(there) => t.vehicles[v as int].took(
                    self.vehicles[v as int].pipes_taken.len() as int,
                    there.0,
                    there.1,
                ) && self.pipe(there.0, there.1).accepts(self.now),
                None => t.vehicles[v as int].pipes_taken.len()
                    == self.vehicles[v as int].pipes_taken.len(),
            },
            t.books_go_on(self, to),
            forall|l: LinkID, p: PipeIdx| #[trigger]
                tally(t.events, EventType::LinkExit, l, p) == tally(
                    self.events,
                    EventType::LinkExit,
                    l,
                    p,
                ) + if from == Spot::Waiting(l, p) {
                    1nat
                } else {
                    0nat
                },
        ensures
            t.stocked(),
    {
        assert forall|l: LinkID, p: PipeIdx| t.has_pipe(l, p) implies #[trigger] t.supplied(
            l,
            p,
            0,
        ) by {
            assert(t.links[l as int].pipes.len() == self.links[l as int].pipes.len());
            assert(self.has_pipe(l, p));
            assert(self.supplied(l, p, 0));
            assert(t.pipe(l, p).same_books(
                if to == Some((l, p)) {
                    self.pipe(l, p).taken_in(self.now)
                } else {
                    self.pipe(l, p)
                },
            ));
            assert(tally(t.events, EventType::LinkExit, l, p) == tally(
                self.events,
                EventType::LinkExit,
                l,
                p,
            ) + if from == Spot::Waiting(l, p) {
                1nat
            } else {
                0nat
            });
            self.lemma_passage_recorded(r, t, v, from, to, l, p);
        }
    }

    /// The books of all pipes are as before, but for one that takes in a vehicle.
    pub open spec fn books_go_on(self, earlier: SimView, to: Option<(LinkID, PipeIdx)>) -> bool {
        forall|l: LinkID, p: PipeIdx|
            earlier.has_pipe(l, p) ==> (#[trigger] self.pipe(l, p)).same_books(
                if to == Some((l, p)) {
                    earlier.pipe(l, p).taken_in(earlier.now)
                } else {
                    earlier.pipe(l, p)
                },
            )
    }
}

// ── Laws ─────────────────────────────────────────────────────────────────────

/// `rides` is all that has entered a pipe and `ends` all that has left it, each in
/// the order of time. Entries are no closer than the headway 1/C; once the `dn` slots
/// of the pipe are used up, entry `i` comes no sooner than the backward wave of exit
/// `i - dn`; and there are never more than `dn` vehicles on the pipe.
pub open spec fn keeps_supply(
    t: SimView,
    l: LinkID,
    p: PipeIdx,
    rides: Seq<(VehID, int)>,
    ends: Seq<(VehID, int)>,
) -> bool {
    let pipe = t.pipe(l, p);
    &&& t.lists_rides(l, p, rides)
    &&& t.lists_ends(l, p, ends)
    &&& forall|i: int, j: int|
        0 <= i < j < rides.len() ==> #[trigger] t.begun_in_order(rides[i], rides[j])
    &&& forall|i: int, j: int|
        0 <= i < j < ends.len() ==> #[trigger] t.ended_in_order(ends[i], ends[j])
    &&& pipe.capacity.gt(Double::zero()) ==> forall|i: int|
        0 <= i < rides.len() - 1 ==> #[trigger] t.keeps_headway(rides, i, pipe.capacity)
    &&& pipe.storage_veh matches Some(dn) ==> {
        &&& forall|i: int|
            dn <= i < rides.len() ==> #[trigger] t.awaits_wave(
                rides,
                ends,
                i,
                dn as int,
                pipe.wave_delay,
            )
        &&& rides.len() - ends.len() <= dn
    }
}

/// The supply constraint holds over a whole run: without overrides, let `rides`
/// be all that has entered a pipe and `ends` all that has left it, each in the
/// order of time. Entries are no closer than the headway 1/C; once the `dn` slots
/// of the pipe are used up, entry `i` comes no sooner than the backward wave of
/// exit `i - dn`; and so there are never more than `dn` vehicles on the pipe.
pub proof fn law_supply_constraint(s: SimView, n: nat, l: LinkID, p: PipeIdx) -> (record: (
    Seq<(VehID, int)>,
    Seq<(VehID, int)>,
))
    requires
        s.orderly(),
        s.paced(),
        s.schedule.len() == 0,
        s.ticking(),
        forall|i: nat| i < n ==> (#[trigger] s.steps(i)).live(),
        s.steps(n).has_pipe(l, p),
    ensures
        keeps_supply(s.steps(n), l, p, record.0, record.1),
{
    crate::journeys::lemma_run_paced(s, n);
    let t = s.steps(n);
    assert(t.supplied(l, p, 0));
    let (rides, ends) = choose|rides: Seq<(VehID, int)>, ends: Seq<(VehID, int)>| #[trigger]
        t.recorded(l, p, rides, ends, 0);
    if let Some(dn) = t.pipe(l, p).storage_veh {
        assert(t.slots_recorded(l, p, rides, ends, 0, dn as int));
    }
    (rides, ends)
}

/// The same of a scenario: without overrides, every pipe keeps its headway and its
/// slots.
pub proof fn law_scenario_keeps_supply(scenario: Scenario, n: nat, l: LinkID, p: PipeIdx) -> (record: (
    Seq<(VehID, int)>,
    Seq<(VehID, int)>,
))
    requires
        crate::journeys::well_timed(scenario),
        scenario.link_schedule@.len() == 0,
        forall|i: nat| i < n ==> (#[trigger] SimView::initial(scenario).steps(i)).live(),
        SimView::initial(scenario).steps(n).has_pipe(l, p),
    ensures
        keeps_supply(SimView::initial(scenario).steps(n), l, p, record.0, record.1),
{
    let s = crate::journeys::law_fresh_run_is_in_order(scenario);
    crate::journeys::lemma_fresh_live(scenario, s, n);
    crate::journeys::lemma_initial_schedule(scenario);
    let first = SimView::initial(scenario);
    if n == 0 {
        assert(s.steps(0) == s && first.steps(0) == first);
    }
    let record = law_supply_constraint(s, n, l, p);
    if n == 0 {
        let (rides, ends) = record;
        let pipe = first.pipe(l, p);
        assert(first.lists_rides(l, p, rides));
        assert(first.lists_ends(l, p, ends));
        assert forall|i: int, j: int| 0 <= i < j < rides.len() implies #[trigger]
        first.begun_in_order(rides[i], rides[j]) by {
            assert(s.begun_in_order(rides[i], rides[j]));
        }
        assert forall|i: int, j: int| 0 <= i < j < ends.len() implies #[trigger]
        first.ended_in_order(ends[i], ends[j]) by {
            assert(s.ended_in_order(ends[i], ends[j]));
        }
        if pipe.capacity.gt(Double::zero()) {
            assert forall|i: int| 0 <= i < rides.len() - 1 implies #[trigger] first.keeps_headway(
                rides,
                i,
                pipe.capacity,
            ) by {
                assert(s.keeps_headway(rides, i, pipe.capacity));
            }
        }
        if let Some(dn) = pipe.storage_veh {
            assert forall|i: int| dn <= i < rides.len() implies #[trigger] first.awaits_wave(
                rides,
                ends,
                i,
                dn as int,
                pipe.wave_delay,
            ) by {
                assert(s.awaits_wave(rides, ends, i, dn as int, pipe.wave_delay));
            }
        }
    }
    record
}

pub(crate) proof fn lemma_push_once<A>(s: Seq<A>, a: A, x: A)
    ensures
        s.push(a).contains(x) <==> s.contains(x) || x == a,
        s.no_duplicates() && !s.contains(a) ==> s.push(a).no_duplicates(),
{
    let t = s.push(a);
    assert(t[s.len() as int] == a);
    if s.contains(x) {
        let i = choose|i: int| 0 <= i < s.len() && s[i] == x;
        assert(t[i] == x);
    }
    if t.contains(x) && x != a {
        let i = choose|i: int| 0 <= i < t.len() && t[i] == x;
        assert(s[i] == x);
    }
    if s.no_duplicates() && !s.contains(a) {
        assert forall|i: int, j: int| 0 <= i < t.len() && 0 <= j < t.len() && i != j implies t[i]
            != t[j] by {
            if i == s.len() {
                assert(s.contains(s[j]));
            } else if j == s.len() {
                assert(s.contains(s[i]));
            }
        }
    }
}

} // verus!
