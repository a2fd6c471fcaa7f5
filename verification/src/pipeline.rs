//! From a scenario to a finished simulation.

use crate::assignment::{assign_demand, is_assignable, unrouted_demand, AssignError, AssignErrorView};
use crate::model::{Node, Scenario, VehicleView};
use crate::simulation::{SimView, Simulation};
use crate::validation::{Validate, ValidationError};
use vstd::multiset::Multiset;
use vstd::prelude::*;

verus! {

/// Why a scenario is not simulated.
#[derive(Debug, Clone)]
pub enum RunFault<T> {
    /// The scenario is not well-formed.
    Invalid { fault: ValidationError },
    /// Nodes do not stand at the places that their ids name.
    NodeIds,
    /// The routing graph cannot hold the scenario, or a travel time is negative
    /// or no number.
    NotRoutable,
    /// The demand cannot be assigned.
    Unassigned { fault: AssignError<T> },
}

/// A finished simulation.
pub struct RunOutcome {
    pub sim: Simulation,
    /// Number of events processed.
    pub events: usize,
    /// The places of the demand entries that ask for vehicles and have no route.
    pub unrouted: Vec<usize>,
}

/// Nodes stand at the places that their ids name.
pub open spec fn placed(nodes: Seq<Node>) -> bool {
    forall|i: int| 0 <= i < nodes.len() ==> (#[trigger] nodes[i]).id == i
}

/// The vehicles after the assignment: those of the scenario on their cheapest
/// routes, and those that the demand asks for.
pub open spec fn assigned_vehicles(s: Scenario) -> Result<Seq<VehicleView>, AssignErrorView> {
    let roads = crate::assignment::roads_of(s);
    let before = crate::simulation::vehicle_views(s.vehicles@);
    match roads.assigned_from(
        Seq::empty(),
        crate::model::demand_views(s.demand@),
        before.len(),
        0,
    ) {
        Err(e) => Err(e),
        Ok(new) => Ok(crate::assignment::all_rerouted(roads, before) + new),
    }
}

impl RunOutcome {
    /// The outcome is that of a run of the scenario with these vehicles.
    pub open spec fn is_of(self, s: Scenario, vehicles: Seq<VehicleView>) -> bool {
        let ready = s.in_state(Multiset::empty(), s.start_time, false);
        &&& (SimView { vehicles, ..ready }).started().ends(self.events, self.sim@)
        &&& self.sim.scenario.nodes == s.nodes
        &&& self.sim.scenario.demand == s.demand
        &&& self.sim.scenario.classes == s.classes
        &&& self.sim.scenario.assignment_excluded == s.assignment_excluded
    }
}

/// What a run makes of a scenario.
pub open spec fn runs_to(
    s: Scenario,
    assignment: bool,
    r: Result<RunOutcome, RunFault<String>>,
) -> bool {
    if !s.valid() {
        r matches Err(RunFault::Invalid { fault }) && s.reports(fault)
    } else if !placed(s.nodes@) {
        r matches Err(RunFault::NodeIds)
    } else if !assignment {
        r matches Ok(o) && o.is_of(s, crate::simulation::vehicle_views(s.vehicles@))
            && o.unrouted@.len() == 0
    } else if !(crate::assignment::graph_fits(s) && crate::assignment::costs_ok(
        crate::assignment::edges_of(s),
    )) {
        r matches Err(RunFault::NotRoutable)
    } else {
        match assigned_vehicles(s) {
            Err(e) => r matches Err(RunFault::Unassigned { fault }) && fault@ == e,
            Ok(vehicles) => r matches Ok(o) && o.is_of(s, vehicles) && o.unrouted@
                == crate::assignment::unrouted_upto(
                crate::assignment::roads_of(s),
                crate::model::demand_views(s.demand@),
                s.demand@.len(),
            ),
        }
    }
}

fn stand_at_ids(nodes: &Vec<Node>) -> (r: bool)
    ensures
        r == placed(nodes@),
{
    let mut i: usize = 0;
    while i < nodes.len()
        invariant
            i <= nodes@.len(),
            forall|k: int| 0 <= k < i ==> (#[trigger] nodes@[k]).id == k,
        decreases nodes@.len() - i,
    {
        if nodes[i].id != i {
            return false;
        }
        i = i + 1;
    }
    true
}

/// Checks a scenario, assigns its demand where that is asked for, and simulates
/// it.
pub fn run_scenario(scenario: Scenario, assignment: bool) -> (r: Result<
    RunOutcome,
    RunFault<String>,
>)
    ensures
        runs_to(scenario, assignment, r),
{
    if let Err(fault) = scenario.validate() {
        return Err(RunFault::Invalid { fault });
    }
    if !stand_at_ids(&scenario.nodes) {
        return Err(RunFault::NodeIds);
    }
    let mut s: Scenario = scenario;
    let mut unrouted: Vec<usize> = Vec::new();
    if assignment {
        if !is_assignable(&s) {
            return Err(RunFault::NotRoutable);
        }
        unrouted = unrouted_demand(&s);
        if let Err(fault) = assign_demand(&mut s) {
            return Err(RunFault::Unassigned { fault });
        }
    }
    proof {
        assert forall|l: int| 0 <= l < s.links@.len() implies (
        #[trigger] s.links@[l])@.pipe_specs.len() <= 255 by {
            crate::validation::law_valid_network(scenario, l, 0);
        }
    }
    let ghost vehicles = crate::simulation::vehicle_views(s.vehicles@);
    let ghost ready = scenario.in_state(Multiset::empty(), scenario.start_time, false);
    assert(s.in_state(Multiset::empty(), s.start_time, false) =~= (SimView { vehicles, ..ready }));
    let mut sim: Simulation = Simulation::new(s);
    let events: usize = sim.run();
    Ok(RunOutcome { sim, events, unrouted })
}

/// The assignment adds vehicles behind those that a scenario has. Each of those keeps its
/// place, its id, its class, its time and where it goes from and to, and either takes a
/// route from the one to the other or keeps its path.
pub proof fn law_assignment_keeps_the_vehicles(s: Scenario, i: int)
    requires
        0 <= i < s.vehicles@.len(),
    ensures
        assigned_vehicles(s) matches Ok(r) ==> {
            let v = s.vehicles@[i];
            &&& r.len() >= s.vehicles@.len()
            &&& r[i].id == v.id && r[i].class_id == v.class_id && r[i].start_time == v.start_time
            &&& r[i].origin == v.origin && r[i].destination == v.destination
            &&& r[i].state == v.state
            &&& match crate::assignment::route_of(
                crate::assignment::ids_of(s),
                crate::assignment::edges_of(s),
                v.origin,
                v.destination,
            ) {
                Some((_, path)) => r[i].path == path,
                None => r[i].path == v.path@,
            }
        },
{
}

/// A run without assignment starts with the vehicles of the scenario as they are, and
/// finds no demand without a route; one of a scenario that is not valid, or whose nodes
/// stand elsewhere than their ids say, is refused.
pub proof fn law_runs_are_of_valid_scenarios(
    s: Scenario,
    assignment: bool,
    r: Result<RunOutcome, RunFault<String>>,
)
    requires
        runs_to(s, assignment, r),
    ensures
        r is Ok ==> s.valid() && forall|i: int|
            0 <= i < s.nodes@.len() ==> (#[trigger] s.nodes@[i]).id == i,
        !assignment && s.valid() ==> (r is Err <==> exists|i: int|
            0 <= i < s.nodes@.len() && (#[trigger] s.nodes@[i]).id != i),
        r matches Err(RunFault::Invalid { .. }) ==> !s.valid(),
        r matches Err(RunFault::Unassigned { .. }) ==> assignment,
        r matches Err(RunFault::NotRoutable) ==> assignment,
        !assignment && r is Ok ==> r->Ok_0.unrouted@.len() == 0,
{
}

} // verus!
