use pipe_stream::assignment::AssignError;
use pipe_stream::benchmarks::run_benchmarks;
use pipe_stream::double::Double;
use pipe_stream::geo::VariantError;
use pipe_stream::io::{CompileError, LinkFault, NetworkFault};
use pipe_stream::model::Demand;
use pipe_stream::patch::{OpFault, Patch, PatchError, PatchWarning};
use pipe_stream::pipeline::RunFault;
use pipe_stream::reference::{ReferenceCheck, ReferenceKind};
use pipe_stream::validation::ValidationError;
use pipe_stream::verification::{
    Check, CheckKind, CheckStatus, Detail, ElementReport, ElementType,
};

fn d(x: f64) -> Double {
    Double { bits: x.to_bits() }
}

fn classes() -> Vec<String> {
    vec!["car".to_string(), "b\"us".to_string()]
}

fn patches() -> Vec<Patch> {
    vec![Patch { name: "works".to_string(), description: String::new(), ops: vec![] }]
}

#[test]
fn a_bad_link_is_named() {
    let text = |fault| CompileError::Link { id: 12, fault }.message(&classes());
    assert_eq!(
        text(LinkFault::Lanes { lanes: 300 }),
        "Link 12: 'lanes' must be in 1..=255 (got 300)"
    );
    assert_eq!(
        text(LinkFault::UnknownClass { name: "tram".to_string() }),
        r#"Link 12: unknown vehicle class 'tram' (declared classes: ["car", "b\"us"])"#
    );
    assert_eq!(
        text(LinkFault::MoveKey { key: "x".to_string() }),
        "Link 12: 'moves' key 'x' is not a link id"
    );
    assert_eq!(
        CompileError::<String>::Network { fault: NetworkFault::NotGeoJson }.message(&classes()),
        "Failed to parse GeoJSON"
    );
}

#[test]
fn a_bad_patch_is_named() {
    let text = |fault| PatchError::Op { patch: 0, op: 3, fault }.message(&patches(), &classes());
    assert_eq!(
        text(OpFault::WindowEmpty { from: d(600.0), until: d(0.5) }),
        "patch 'works' op 3: window until (0.5) must be > from (600)"
    );
    assert_eq!(
        text(OpFault::PipeCount { link: 4, from: 2, to: 1 }),
        "patch 'works' op 3: pipe count of link 4 must not change mid-run (2 → 1)"
    );
    assert_eq!(text(OpFault::Factor), "patch 'works': scale_demand factor must be ≥ 0");
    assert_eq!(
        VariantError::Patch(PatchError::<String>::NodeMissingId).message(&patches(), &classes()),
        "Node feature missing id"
    );
}

#[test]
fn warnings_name_their_patch() {
    let w = PatchWarning::LateActivation { patch: 0, link: 7, at: d(4000.0), end: d(3600.0) };
    assert_eq!(
        w.message(&patches()),
        "patch 'works': link 7 activates at 4000 — after the horizon end 3600; it will stay closed"
    );
    let w = PatchWarning::OutsideHorizon { patch: 1, op: 0 };
    assert_eq!(
        w.message(&patches()),
        "patch '' op 0: window lies outside the simulation horizon — ignored"
    );
}

#[test]
fn a_malformed_scenario_is_explained() {
    assert_eq!(
        ValidationError::InvalidSpeed { link: 3, speed: d(-0.25) }.message(),
        "Link 3 has invalid speed -0.25"
    );
    assert_eq!(
        ValidationError::LaneSumMismatch { link: 3, sum: 1000, lanes: 2 }.message(),
        "Link 3: pipe lanes sum to 1000 but the link has 2 lanes"
    );
    assert_eq!(
        ValidationError::Untraversable { vehicle: 9, class_id: 1, link: 2, next: Some(5) }.message(),
        "Vehicle 9 (class 1) cannot traverse link 2: no pipe allows this class for the movement toward link 5"
    );
    assert_eq!(
        ValidationError::SchedulePipeCount { entry: 0, link: 2, specs: 3, pipes: 1 }.message(),
        "Schedule entry 0 (link 2): pipe count must not change mid-run (1 → 3)"
    );
    let fault = ValidationError::ClassCount { count: 65 };
    assert_eq!(
        RunFault::<String>::Invalid { fault }.message(&vec![], &classes()),
        "Invalid scenario: Scenario must define between 1 and 64 vehicle classes (got 65)"
    );
}

#[test]
fn demand_without_a_lane_is_explained() {
    let demand = vec![Demand {
        period_start: d(0.0),
        period_end: d(60.0),
        origin: 10,
        destination: 204,
        flow: d(0.0),
        count: d(1.0),
        class: None,
    }];
    let fault = AssignError::NotServed { demand: 0, link: 8, next: Some(9) };
    assert_eq!(
        RunFault::Unassigned { fault }.message(&demand, &classes()),
        "Assignment failed: Demand 10→204 (class 'car'): link 8 has no pipe usable by this class \
         for its movement toward link 9 — adjust pipe classes/moves or the route"
    );
}

fn check(kind: CheckKind, detail: Detail, measured: Option<Double>) -> Check {
    Check { kind, status: CheckStatus::Pass, measured, expected: measured, error_pct: None, detail }
}

#[test]
fn checks_say_what_they_rest_on() {
    let c = check(
        CheckKind::FreeFlow,
        Detail::Traversals { count: 4, length: d(100.0), speed: d(12.345) },
        Some(d(8.1)),
    );
    assert_eq!(c.kind.name(), "Free-flow traversal time");
    assert_eq!(c.unit(), "s");
    assert_eq!(
        c.text(),
        format!("Fastest of 4 traversals vs L/u = 100.00/{:.2}. Faster than free flow would violate the FD.", 12.345)
    );
    let c = check(
        CheckKind::StorageBound,
        Detail::Occupancy { storage_exact: d(3.4), peak: 3, slots: 4 },
        Some(d(3.0)),
    );
    assert_eq!(
        c.text(),
        "Peak simultaneous vehicles vs ⌈kx·L·lanes⌉ = ⌈3.40⌉. Utilisation 75%."
    );
    assert_eq!(check(CheckKind::Fifo, Detail::NoPairs, None).unit(), "");
}

#[test]
fn elements_have_labels() {
    let element = |element_type, pipe| ElementReport {
        element_type,
        element_id: 17,
        pipe,
        status: CheckStatus::Pass,
        checks: vec![],
    };
    assert_eq!(element(ElementType::Link, Some(2)).label(), "Link 17 · pipe 2");
    assert_eq!(element(ElementType::Link, None).label(), "Link 17");
    assert_eq!(element(ElementType::Node, None).label(), "Node 17");
    assert_eq!(element(ElementType::Entry, None).label(), "Entry 17");
}

#[test]
fn benchmarks_have_descriptions() {
    let results = run_benchmarks();
    assert!(results.iter().all(|r| !r.vacuous));
    assert!(results[0].description().starts_with("One vehicle on an empty"));
    let mut odd = results[5];
    odd.vacuous = true;
    assert_eq!(
        odd.description(),
        "INVALID CASE: the car queue failed to form, immunity is vacuous."
    );
}

#[test]
fn comparisons_say_how_they_are_made() {
    let c = ReferenceCheck {
        link_id: 0,
        label: None,
        t_start: d(0.0),
        t_end: d(60.0),
        kind: ReferenceKind::Flow,
        observed: d(100.0),
        simulated: d(110.0),
        geh: Some(d(0.976)),
        error_pct: d(10.0),
        status: CheckStatus::Pass,
    };
    assert!(c.detail().starts_with("GEH = 0.98 (DMRB: <5 acceptable"));
}
