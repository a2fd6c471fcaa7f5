use pipe_stream::double::Double;
use pipe_stream::geo::{compile_scenario_from_network_value, compile_with_patches, parse_json, VariantError};
use pipe_stream::io::LinkFault;
use pipe_stream::json::Json;
use pipe_stream::model::{Demand, LinkAttrs, PipeSpec, ALL_CLASSES};
use pipe_stream::patch::{
    apply_patches, CompiledPatches, OpFault, Patch, PatchError, PatchOp, PatchWarning,
};

fn d(x: f64) -> Double {
    Double { bits: x.to_bits() }
}

fn f(x: Double) -> f64 {
    f64::from_bits(x.bits)
}

fn json(text: &str) -> Json {
    parse_json(text).expect("valid JSON")
}

fn network_with(pipes: &str) -> Json {
    let mut text = String::from(
        r#"{"type": "FeatureCollection", "features": [
        {"type": "Feature", "geometry": {"type": "Point", "coordinates": [0, 0]},
         "properties": {"id": 0, "type": "Entry"}},
        {"type": "Feature", "geometry": {"type": "Point", "coordinates": [1, 0]},
         "properties": {"id": 1, "type": "Exit"}},
        {"type": "Feature", "geometry": {"type": "LineString", "coordinates": [[0,0],[1,0]]},
         "properties": {"id": 0, "node_up": 0, "node_down": 1, "length": 100.0,
                        "speed": 10.0, "lanes": 2, "capacity": 1.0,
                        "fd_u": 10.0, "fd_w": 5.0, "fd_kx": 0.02, "fd_c": 0.5"#,
    );
    text.push_str(pipes);
    text.push_str("}}]}");
    json(&text)
}

fn network_json() -> Json {
    network_with("")
}

fn config_json() -> Json {
    json(r#"{"start_time": 0.0, "duration": 3600.0}"#)
}

fn demand_list() -> Vec<Demand> {
    vec![Demand {
        period_start: d(0.0),
        period_end: d(600.0),
        origin: 0,
        destination: 1,
        flow: d(360.0),
        count: d(60.0),
        class: None,
    }]
}

fn patch(ops: Vec<PatchOp>) -> Patch {
    Patch { name: "test".to_string(), description: String::new(), ops }
}

fn apply(net: Json, ops: Vec<PatchOp>) -> Result<CompiledPatches, PatchError<String>> {
    apply_patches(net, demand_list(), &config_json(), &vec![patch(ops)])
}

fn capacity(from: f64, until: f64, value: f64) -> PatchOp {
    PatchOp::SetLink {
        link: 0,
        from: Some(d(from)),
        until: Some(d(until)),
        set: LinkAttrs { capacity: Some(d(value)), ..Default::default() },
    }
}

fn fault_of(ops: Vec<PatchOp>) -> OpFault<String> {
    match apply(network_json(), ops) {
        Err(PatchError::Op { fault, .. }) => fault,
        other => panic!("{other:?}"),
    }
}

/// What the error says that these operations give.
fn text_of(ops: Vec<PatchOp>) -> String {
    let err = apply(network_json(), ops).expect_err("the patch is rejected");
    err.message(&vec![patch(vec![])], &vec!["car".to_string()])
}

#[test]
fn empty_patch_list_is_inert() {
    let out = apply_patches(network_json(), demand_list(), &config_json(), &vec![]).unwrap();
    assert!(out.schedule.is_empty());
    assert!(out.assignment_excluded.is_empty());
    assert!(out.warnings.is_empty());
    assert_eq!(format!("{:?}", out.network), format!("{:?}", network_json()));
    assert_eq!(format!("{:?}", out.demand), format!("{:?}", demand_list()));
}

#[test]
fn windowed_set_link_emits_boundary_and_revert() {
    let out = apply(network_json(), vec![capacity(600.0, 1200.0, 0.5)]).unwrap();
    assert_eq!(out.schedule.len(), 2);
    assert_eq!(f(out.schedule[0].time), 600.0);
    assert_eq!(out.schedule[0].attrs.capacity.map(f), Some(0.5));
    assert_eq!(f(out.schedule[1].time), 1200.0);
    assert_eq!(out.schedule[1].attrs.capacity.map(f), Some(1.0));
    assert!(out.schedule[1].attrs.speed.is_none(), "untouched fields stay absent");
}

#[test]
fn overlapping_windows_later_wins_and_layers_revert() {
    let ops = vec![capacity(600.0, 1800.0, 0.5), capacity(1200.0, 1500.0, 0.25)];
    let out = apply(network_json(), ops).unwrap();
    let caps: Vec<(f64, f64)> =
        out.schedule.iter().map(|c| (f(c.time), f(c.attrs.capacity.unwrap()))).collect();
    assert_eq!(caps, vec![(600.0, 0.5), (1200.0, 0.25), (1500.0, 0.5), (1800.0, 1.0)]);
}

#[test]
fn close_pipe_zeroes_only_that_mask() {
    let op =
        PatchOp::ClosePipe { link: 0, pipe: 0, from: Some(d(100.0)), until: Some(d(200.0)) };
    let net = network_with(r#", "pipes": [{"lanes": 1}, {"lanes": 1}]"#);
    let out = apply(net, vec![op]).unwrap();
    assert_eq!(out.schedule.len(), 2);
    assert_eq!(out.schedule[0].attrs.class_masks, Some(vec![0, ALL_CLASSES]));
    assert_eq!(out.schedule[1].attrs.class_masks, Some(vec![ALL_CLASSES, ALL_CLASSES]));
}

#[test]
fn whole_horizon_close_link_excludes_from_assignment() {
    let op = PatchOp::CloseLink { link: 0, from: None, until: None };
    let out = apply(network_json(), vec![op]).unwrap();
    assert_eq!(out.assignment_excluded, vec![0]);
    assert_eq!(f(out.schedule[0].time), 0.0);
    assert_eq!(out.schedule[0].attrs.class_masks, Some(vec![0]));
}

#[test]
fn add_link_requires_contiguous_id() {
    let op = || PatchOp::AddLink {
        feature: json(
            r#"{"type": "Feature",
                "geometry": {"type": "LineString", "coordinates": [[0,0],[1,0]]},
                "properties": {"id": 5, "node_up": 0, "node_down": 1, "length": 100.0}}"#,
        ),
        active_from: None,
    };
    let err = text_of(vec![op()]);
    assert!(err.contains("next free id: 1"), "got: {err}");
    match fault_of(vec![op()]) {
        OpFault::LinkIdNotNext { id, next } => assert_eq!((id, next), (5, 1)),
        other => panic!("got: {other:?}"),
    }
}

fn second_link(active_from: Option<f64>) -> PatchOp {
    PatchOp::AddLink {
        feature: json(
            r#"{"type": "Feature",
                "geometry": {"type": "LineString", "coordinates": [[0,0],[1,0]]},
                "properties": {"id": 1, "node_up": 0, "node_down": 1, "length": 100.0,
                               "speed": 10.0, "lanes": 1, "capacity": 0.5}}"#,
        ),
        active_from: active_from.map(d),
    }
}

#[test]
fn add_link_with_activation_closes_until_t() {
    let out = apply(network_json(), vec![second_link(Some(1800.0))]).unwrap();
    assert_eq!(out.network.get("features").unwrap().as_array().unwrap().len(), 4);
    assert_eq!(out.schedule.len(), 2);
    assert_eq!(f(out.schedule[0].time), 0.0);
    assert_eq!(out.schedule[0].attrs.class_masks, Some(vec![0]));
    assert_eq!(f(out.schedule[1].time), 1800.0);
    assert_eq!(out.schedule[1].attrs.class_masks, Some(vec![ALL_CLASSES]));
}

fn scale(factor: f64, origin: Option<usize>, from: Option<f64>, until: Option<f64>) -> PatchOp {
    PatchOp::ScaleDemand {
        factor: d(factor),
        origin,
        destination: None,
        class: None,
        from: from.map(d),
        until: until.map(d),
    }
}

#[test]
fn scale_demand_filters_and_scales() {
    let out = apply(network_json(), vec![scale(1.5, Some(0), None, None)]).unwrap();
    assert!((f(out.demand[0].flow) - 540.0).abs() < 1e-9);
    assert!((f(out.demand[0].count) - 90.0).abs() < 1e-9);
}

#[test]
fn scale_demand_outside_window_is_untouched() {
    let out = apply(network_json(), vec![scale(2.0, None, Some(700.0), Some(900.0))]).unwrap();
    assert!(
        (f(out.demand[0].flow) - 360.0).abs() < 1e-9,
        "period [0,600) does not intersect [700,900)"
    );
    let patches = vec![patch(vec![])];
    assert!(out.warnings.iter().any(|w| w.message(&patches).contains("matched no demand")));
    assert!(out.warnings.iter().any(|w| matches!(w, PatchWarning::NoDemandMatched { .. })));
}

fn two_pipes() -> PatchOp {
    PatchOp::SetLink {
        link: 0,
        from: None,
        until: None,
        set: LinkAttrs {
            pipe_specs: Some(vec![
                PipeSpec { lanes: 1, class_mask: ALL_CLASSES },
                PipeSpec { lanes: 1, class_mask: ALL_CLASSES },
            ]),
            ..Default::default()
        },
    }
}

#[test]
fn pipe_count_change_is_rejected() {
    let err = text_of(vec![two_pipes()]);
    assert!(err.contains("pipe"), "got: {err}");
    match fault_of(vec![two_pipes()]) {
        OpFault::NoPartition { link } => assert_eq!(link, 0),
        other => panic!("got: {other:?}"),
    }
}

#[test]
fn unknown_link_is_rejected() {
    let err = text_of(vec![PatchOp::CloseLink { link: 42, from: None, until: None }]);
    assert!(err.contains("unknown link 42"), "got: {err}");
    match fault_of(vec![PatchOp::CloseLink { link: 42, from: None, until: None }]) {
        OpFault::UnknownLink { link } => assert_eq!(link, 42),
        other => panic!("got: {other:?}"),
    }
}

#[test]
fn operations_that_cannot_be_applied() {
    let named = |ops: Vec<PatchOp>| format!("{:?}", fault_of(ops));
    let node = |id: usize| PatchOp::AddNode { id, node_type: None, x: d(2.0), y: d(0.0) };
    assert_eq!(named(vec![node(7)]), "NodeIdNotNext { id: 7, next: 2 }");
    let add = |text: &str| PatchOp::AddLink { feature: json(text), active_from: None };
    assert_eq!(named(vec![add("{}")]), "FeatureMissingProperties");
    assert_eq!(named(vec![add(r#"{"properties": {}}"#)]), "FeatureMissingId");
    assert_eq!(named(vec![add(r#"{"properties": {"id": 1}}"#)]), "FeatureMissingNodeUp");
    assert_eq!(
        named(vec![add(r#"{"properties": {"id": 1, "node_up": 0}}"#)]),
        "FeatureMissingNodeDown"
    );
    assert_eq!(
        named(vec![add(r#"{"properties": {"id": 1, "node_up": 0, "node_down": 9}}"#)]),
        "UnknownNode { node: 9 }"
    );
    assert_eq!(
        named(vec![add(r#"{"geometry": {"type": "Point"},
                           "properties": {"id": 1, "node_up": 0, "node_down": 1}}"#)]),
        "NotALine"
    );
    match fault_of(vec![add(
        r#"{"geometry": {"type": "LineString"},
            "properties": {"id": 1, "node_up": 0, "node_down": 1, "lanes": 0}}"#,
    )]) {
        OpFault::Link { id, fault: LinkFault::Lanes { lanes } } => assert_eq!((id, lanes), (1, 0)),
        other => panic!("{other:?}"),
    }
    assert_eq!(named(vec![second_link(Some(f64::INFINITY))]), "ActivationNotFinite");
    assert_eq!(named(vec![scale(-1.0, None, None, None)]), "Factor");
    assert_eq!(named(vec![scale(f64::NAN, None, None, None)]), "Factor");
    let pipe = |pipe: u8, from: Option<f64>, until: Option<f64>| PatchOp::ClosePipe {
        link: 0,
        pipe,
        from: from.map(d),
        until: until.map(d),
    };
    assert_eq!(named(vec![pipe(1, None, None)]), "PipeOutOfRange { link: 0, pipe: 1, pipes: 1 }");
    assert_eq!(named(vec![pipe(0, Some(f64::NAN), None)]), "WindowNotFinite");
    assert!(matches!(fault_of(vec![pipe(0, Some(9.0), Some(9.0))]), OpFault::WindowEmpty { .. }));
    let set = |set: LinkAttrs| PatchOp::SetLink { link: 0, from: None, until: None, set };
    assert_eq!(
        named(vec![set(LinkAttrs { class_masks: Some(vec![1, 2]), ..Default::default() })]),
        "MaskCount { link: 0, masks: 2, pipes: 1 }"
    );
    assert_eq!(named(vec![set(LinkAttrs { num_lanes: Some(0), ..Default::default() })]), "NoLanes");
    match apply(network_with(r#", "pipes": [{"lanes": 2}]"#), vec![two_pipes()]) {
        Err(PatchError::Op { patch, op, fault: OpFault::PipeCount { link, from, to } }) => {
            assert_eq!((patch, op, link, from, to), (0, 0, 0, 1, 2));
        }
        other => panic!("{other:?}"),
    }
}

#[test]
fn networks_that_cannot_be_patched() {
    let error = |text: &str| {
        let r = apply_patches(json(text), vec![], &config_json(), &vec![patch(vec![])]);
        format!("{:?}", r.unwrap_err())
    };
    assert_eq!(error("[]"), "NotACollection");
    assert_eq!(
        error(r#"{"features": [{"geometry": {"type": "Point"}, "properties": {}}]}"#),
        "NodeMissingId"
    );
    assert_eq!(
        error(r#"{"features": [{"geometry": {"type": "LineString"}, "properties": {}}]}"#),
        "LinkMissingId"
    );
    assert_eq!(
        error(
            r#"{"features": [{"geometry": {"type": "LineString"},
                              "properties": {"id": 3, "lanes": 0}}]}"#
        ),
        "BaseLink { id: 3, fault: Lanes { lanes: 0 } }"
    );
}

#[test]
fn warnings_say_what_happened() {
    let out = apply(network_json(), vec![second_link(Some(9999.0))]).unwrap();
    assert!(out.warnings.iter().any(|w| matches!(
        w,
        PatchWarning::LateActivation { link: 1, .. }
    )));
    let out = apply(network_json(), vec![scale(2.0, None, Some(300.0), Some(900.0))]).unwrap();
    assert!(out.warnings.iter().any(|w| matches!(w, PatchWarning::PartialOverlap { .. })));
    assert_eq!(f(out.demand[0].count), 120.0);
    let out = apply(network_json(), vec![capacity(5000.0, 6000.0, 0.5)]).unwrap();
    assert!(out.schedule.is_empty());
    assert!(out.warnings.contains(&PatchWarning::OutsideHorizon { patch: 0, op: 0 }));
    let out = apply(network_json(), vec![capacity(600.0, 1200.0, 0.5)]).unwrap();
    assert!(out.warnings.contains(&PatchWarning::StaticAssignment));
}

#[test]
fn entries_hold_all_that_the_patches_touch() {
    let ops = vec![
        capacity(600.0, 1200.0, 0.5),
        PatchOp::SetLink {
            link: 0,
            from: Some(d(900.0)),
            until: None,
            set: LinkAttrs { speed: Some(d(5.0)), ..Default::default() },
        },
    ];
    let out = apply(network_json(), ops).unwrap();
    let seen: Vec<(f64, Option<f64>, Option<f64>)> = out
        .schedule
        .iter()
        .map(|c| (f(c.time), c.attrs.capacity.map(f), c.attrs.speed.map(f)))
        .collect();
    assert_eq!(
        seen,
        vec![
            (600.0, Some(0.5), Some(10.0)),
            (900.0, Some(0.5), Some(5.0)),
            (1200.0, Some(1.0), Some(5.0)),
        ]
    );
}

#[test]
fn added_demand_and_nodes_reach_the_scenario() {
    let ops = vec![
        PatchOp::AddNode { id: 2, node_type: Some("Exit".to_string()), x: d(2.5), y: d(-0.1) },
        PatchOp::AddDemand { demand: demand_list().remove(0) },
    ];
    let (s, warnings) = compile_with_patches(
        network_json(),
        demand_list(),
        &config_json(),
        &vec![patch(ops)],
    )
    .unwrap();
    assert_eq!(s.nodes.len(), 3);
    assert_eq!((f(s.nodes[2].points.0), f(s.nodes[2].points.1)), (2.5, -0.1));
    assert_eq!(s.demand.len(), 2);
    assert!(warnings.is_empty());
}

#[test]
fn a_variant_without_patches_is_the_base_scenario() {
    let (s, warnings) =
        compile_with_patches(network_json(), demand_list(), &config_json(), &vec![]).unwrap();
    let base =
        compile_scenario_from_network_value(&network_json(), demand_list(), &config_json()).unwrap();
    assert_eq!(format!("{s:?}"), format!("{base:?}"));
    assert!(warnings.is_empty());
}

#[test]
fn a_variant_carries_its_schedule_and_exclusions() {
    let ops = vec![PatchOp::CloseLink { link: 0, from: None, until: None }];
    let (s, _) = compile_with_patches(
        network_json(),
        demand_list(),
        &config_json(),
        &vec![patch(ops)],
    )
    .unwrap();
    assert_eq!(s.assignment_excluded, vec![0]);
    assert_eq!(s.link_schedule.len(), 1);
    let r = compile_with_patches(
        network_json(),
        demand_list(),
        &config_json(),
        &vec![patch(vec![PatchOp::CloseLink { link: 3, from: None, until: None }])],
    );
    assert!(matches!(r, Err(VariantError::Patch(_))));
    let r = compile_with_patches(json("7"), demand_list(), &config_json(), &vec![]);
    assert!(matches!(r, Err(VariantError::Compile(_))));
}

#[test]
fn a_later_operation_wins_over_the_activation_of_a_link() {
    let open = PatchOp::SetLink {
        link: 1,
        from: None,
        until: None,
        set: LinkAttrs { class_masks: Some(vec![u64::MAX]), ..Default::default() },
    };
    let out = apply(network_json(), vec![second_link(Some(1800.0)), open]).unwrap();
    assert_eq!(f(out.schedule[0].time), 0.0);
    assert_eq!(out.schedule[0].attrs.class_masks, Some(vec![u64::MAX]));
}

#[test]
fn the_schedule_lies_in_the_horizon_and_excluded_ids_ascend() {
    let close = |link: usize| PatchOp::CloseLink { link, from: None, until: None };
    let out = apply(
        network_json(),
        vec![
            second_link(None),
            close(1),
            close(0),
            close(1),
            capacity(-50.0, 100.0, 0.5),
            capacity(3000.0, 9000.0, 0.25),
        ],
    )
    .expect("applies");
    assert_eq!(out.assignment_excluded, vec![0, 1]);
    assert!(!out.schedule.is_empty());
    for e in &out.schedule {
        assert!(0.0 <= f(e.time) && f(e.time) < 3600.0);
    }
    for w in out.schedule.windows(2) {
        assert!((f(w[0].time), w[0].link_id) < (f(w[1].time), w[1].link_id));
    }
}
