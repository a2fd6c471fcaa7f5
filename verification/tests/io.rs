use pipe_stream::double::Double;
use pipe_stream::geo::{compile_scenario_from_network_value, compile_scenario_from_values, parse_json};
use pipe_stream::io::{
    class_mask_from_names, compile_scenario_from_features, parse_index, parse_link_params, CompileError,
    Feature, Geometry, LinkFault, NetworkFault,
};
use pipe_stream::json::Json;
use pipe_stream::model::{Demand, NodeType, Scenario, ALL_CLASSES};

fn d(x: f64) -> Double {
    Double { bits: x.to_bits() }
}

fn f(x: Double) -> f64 {
    f64::from_bits(x.bits)
}

fn network(pipes: &str) -> String {
    let mut text = String::from(
        r#"{"type": "FeatureCollection", "features": [
        {"type": "Feature", "geometry": {"type": "Point", "coordinates": [0, 0]},
         "properties": {"id": 0, "type": "Entry"}},
        {"type": "Feature", "geometry": {"type": "Point", "coordinates": [1, 0]},
         "properties": {"id": 1, "type": "Exit"}},
        {"type": "Feature", "geometry": {"type": "LineString", "coordinates": [[0,0],[1,0]]},
         "properties": {"id": 0, "node_up": 0, "node_down": 1, "length": 300.0,
                        "speed": 25.0, "lanes": 3, "capacity": 1.5, "friction": 0.8,
                        "moves": {"7": [0]}, "#,
    );
    text.push_str(pipes);
    text.push_str("}}]}");
    text
}

fn json(text: &str) -> Json {
    parse_json(text).expect("valid JSON")
}

fn config_with_classes() -> Json {
    json(r#"{"duration": 600, "classes": ["car", "bus"]}"#)
}

#[test]
fn parses_pipes_moves_friction_and_classes() {
    let text = network(r#""pipes": [{"lanes": 1, "classes": ["bus"]}, {"lanes": 2}]"#);
    let s = compile_scenario_from_values(&text, vec![], &config_with_classes())
        .expect("network with pipes should compile");
    assert_eq!(s.classes, vec!["car", "bus"]);
    let l = &s.links[0];
    assert_eq!(l.pipe_specs.len(), 2);
    assert_eq!(l.pipe_specs[0].lanes, 1);
    assert_eq!(l.pipe_specs[0].class_mask, 0b10, "bus is class index 1");
    assert_eq!(l.pipe_specs[1].lanes, 2);
    assert_eq!(l.pipe_specs[1].class_mask, ALL_CLASSES);
    assert_eq!(l.moves.get(&7), Some(&vec![0u8]));
    assert!((f(l.friction) - 0.8).abs() < 1e-12);
}

#[test]
fn unknown_pipe_class_is_rejected() {
    let text = network(r#""pipes": [{"lanes": 3, "classes": ["tramway"]}]"#);
    let res = compile_scenario_from_values(&text, vec![], &config_with_classes());
    let err = res.expect_err("unknown class must be rejected");
    let text = err.message(&vec!["car".to_string(), "bus".to_string()]);
    assert!(text.contains("tramway"), "error should name the class: {text}");
    assert_eq!(
        text,
        r#"Link 0: unknown vehicle class 'tramway' (declared classes: ["car", "bus"])"#
    );
    match err {
        CompileError::Link { id, fault: LinkFault::UnknownClass { name } } => {
            assert_eq!(id, 0);
            assert_eq!(name, "tramway");
        }
        other => panic!("{other:?}"),
    }
}

#[test]
fn demand_class_is_parsed() {
    let text = network(r#""pipes": [{"lanes": 3}]"#);
    let demand = vec![Demand {
        period_start: d(0.0),
        period_end: d(60.0),
        origin: 0,
        destination: 1,
        flow: d(60.0),
        count: d(1.0),
        class: Some("bus".to_string()),
    }];
    let s = compile_scenario_from_values(&text, demand, &config_with_classes()).unwrap();
    assert_eq!(s.demand[0].class.as_deref(), Some("bus"));
}

/// Three nodes and two links, listed out of order.
fn shuffled() -> Scenario {
    let text = r#"{"type": "FeatureCollection", "features": [
        {"type": "Feature", "geometry": {"type": "LineString", "coordinates": [[1,0],[2,0.5],[3,0]]},
         "properties": {"id": 1, "node_up": 1, "node_down": 2, "length": 500.0, "speed": 20.0}},
        {"type": "Feature", "geometry": {"type": "Point", "coordinates": [3, 0]},
         "properties": {"id": 2, "type": "Exit"}},
        {"type": "Feature", "geometry": {"type": "Point", "coordinates": [0.25, -1e-3]},
         "properties": {"id": 0, "type": "Entry"}},
        {"type": "Feature", "geometry": {"type": "LineString", "coordinates": [[0,0],[1,0]]},
         "properties": {"id": 0, "node_up": 0, "node_down": 1, "length": 100}},
        {"type": "Feature", "geometry": {"type": "Point", "coordinates": [1, 0]},
         "properties": {"id": 1}}
    ]}"#;
    compile_scenario_from_values(text, vec![], &json("{}")).expect("compiles")
}

#[test]
fn nodes_and_links_are_in_the_order_of_their_ids() {
    let s = shuffled();
    assert_eq!(s.nodes.iter().map(|n| n.id).collect::<Vec<_>>(), vec![0, 1, 2]);
    assert_eq!(s.links.iter().map(|l| l.id).collect::<Vec<_>>(), vec![0, 1]);
    assert_eq!(s.nodes[0].node_type, NodeType::Entry);
    assert_eq!(s.nodes[1].node_type, NodeType::Internal);
    assert_eq!(s.nodes[2].node_type, NodeType::Exit);
    assert_eq!((f(s.nodes[0].points.0), f(s.nodes[0].points.1)), (0.25, -1e-3));
    let line: Vec<(f64, f64)> = s.links[1].points.iter().map(|p| (f(p.0), f(p.1))).collect();
    assert_eq!(line, vec![(1.0, 0.0), (2.0, 0.5), (3.0, 0.0)]);
}

#[test]
fn topology_follows_the_links() {
    let s = shuffled();
    for link in &s.links {
        assert!(s.nodes[link.node_up].outgoing_links.contains(&link.id));
        assert!(s.nodes[link.node_down].incoming_links.contains(&link.id));
    }
    assert!(s.nodes[0].incoming_links.is_empty());
    assert_eq!(s.nodes[1].incoming_links, vec![0]);
}

#[test]
fn what_a_network_leaves_out_has_defaults() {
    let s = shuffled();
    assert_eq!(f(s.start_time), 0.0);
    assert_eq!(f(s.duration), 3600.0);
    assert_eq!(s.classes, vec!["car"]);
    let l = &s.links[1];
    assert_eq!(f(l.length), 500.0);
    assert_eq!(f(l.speed), 20.0);
    assert_eq!(f(l.fd.u), 20.0);
    assert_eq!(l.num_lanes, 1);
    assert_eq!(f(l.friction), 1.0);
    assert!(l.pipe_specs.is_empty() && l.moves.is_empty());
}

fn fault(text: &str) -> String {
    format!("{:?}", compile_scenario_from_values(text, vec![], &json("{}")).unwrap_err())
}

#[test]
fn texts_that_are_no_network() {
    let network_fault = |text: &str| match compile_scenario_from_values(text, vec![], &json("{}")) {
        Err(CompileError::Network { fault }) => fault,
        other => panic!("{other:?}"),
    };
    assert_eq!(network_fault("{"), NetworkFault::NotJson);
    assert_eq!(network_fault("[]"), NetworkFault::NotGeoJson);
    assert_eq!(network_fault(r#"{"type": "Nothing"}"#), NetworkFault::NotGeoJson);
    assert_eq!(
        network_fault(r#"{"type": "Point", "coordinates": [0, 0]}"#),
        NetworkFault::NotACollection
    );
}

fn one(geometry: &str, properties: &str) -> String {
    format!(
        r#"{{"type": "FeatureCollection", "features": [
            {{"type": "Feature", "geometry": {geometry}, "properties": {properties}}}]}}"#
    )
}

#[test]
fn features_that_lack_something() {
    let point = r#"{"type": "Point", "coordinates": [0, 0]}"#;
    let line = r#"{"type": "LineString", "coordinates": [[0, 0], [1, 0]]}"#;
    assert_eq!(fault(&one(point, "null")), "FeatureMissingProperties");
    assert_eq!(fault(&one("null", "{}")), "FeatureMissingGeometry");
    assert_eq!(fault(&one(point, "{}")), "NodeMissingId");
    assert_eq!(fault(&one(line, "{}")), "LinkMissingId");
    assert_eq!(fault(&one(line, r#"{"id": 0}"#)), "LinkMissingNodeUp");
    assert_eq!(fault(&one(line, r#"{"id": 0, "node_up": 0}"#)), "LinkMissingNodeDown");
    // Other shapes are passed over.
    let s = compile_scenario_from_values(
        &one(r#"{"type": "MultiPoint", "coordinates": [[0, 0]]}"#, "{}"),
        vec![],
        &json("{}"),
    )
    .unwrap();
    assert!(s.nodes.is_empty() && s.links.is_empty());
}

#[test]
fn points_that_lack_a_coordinate() {
    let feature = |p: Vec<Double>| {
        vec![Feature { properties: Some(json(r#"{"id": 0}"#)), geometry: Some(Geometry::Point(p)) }]
    };
    let err = |p: Vec<Double>| {
        format!("{:?}", compile_scenario_from_features(&feature(p), vec![], &json("{}")).unwrap_err())
    };
    assert_eq!(err(vec![]), "NodeMissingX");
    assert_eq!(err(vec![d(1.0)]), "NodeMissingY");
    assert!(compile_scenario_from_features(&feature(vec![d(1.0), d(2.0)]), vec![], &json("{}")).is_ok());
}

#[test]
fn link_properties_that_are_wrong() {
    let classes = vec!["car".to_string()];
    let err = |text: &str| format!("{:?}", parse_link_params(&json(text), &classes).unwrap_err());
    assert_eq!(err(r#"{"lanes": 0}"#), "Lanes { lanes: 0 }");
    assert_eq!(err(r#"{"lanes": 256}"#), "Lanes { lanes: 256 }");
    assert_eq!(err(r#"{"pipes": 3}"#), "PipesNotAList");
    assert_eq!(err(r#"{"pipes": [{}]}"#), "PipeLanes");
    assert_eq!(err(r#"{"pipes": [{"lanes": 1, "classes": [4]}]}"#), "ClassNotText");
    assert_eq!(
        err(r#"{"pipes": [{"lanes": 1, "classes": ["bus"]}]}"#),
        r#"UnknownClass { name: "bus" }"#
    );
    assert_eq!(err(r#"{"moves": 1}"#), "MovesNotAnObject");
    assert_eq!(err(r#"{"moves": {"x": [0]}}"#), r#"MoveKey { key: "x" }"#);
    assert_eq!(err(r#"{"moves": {"1": 0}}"#), "MovePipesNotAList");
    assert_eq!(err(r#"{"moves": {"1": [256]}}"#), "MovePipe");
}

#[test]
fn link_ids_as_text() {
    let parse = |s: &str| parse_index(&s.to_string());
    assert_eq!(parse("0"), Some(0));
    assert_eq!(parse("+12"), Some(12));
    assert_eq!(parse("007"), Some(7));
    assert_eq!(parse("18446744073709551615"), Some(usize::MAX));
    assert_eq!(parse("18446744073709551616"), None);
    assert_eq!(parse(""), None);
    assert_eq!(parse("+"), None);
    assert_eq!(parse("-1"), None);
    assert_eq!(parse("1 "), None);
}

#[test]
fn class_names_make_a_mask() {
    let classes: Vec<String> = ["car", "bus", "tram"].iter().map(|s| s.to_string()).collect();
    let names = |list: &[&str]| list.iter().map(|s| Json::Text(s.to_string())).collect();
    assert_eq!(class_mask_from_names(&names(&["car", "tram"]), &classes).unwrap(), 0b101);
    assert_eq!(class_mask_from_names(&names(&[]), &classes).unwrap(), 0);
}

#[test]
fn values_are_read_as_the_text_says() {
    let v = json(r#"{"a": -3, "b": 1.5, "c": [true, null, "x"], "d": 18446744073709551615}"#);
    assert_eq!(v.get("a").unwrap().as_u64(), None);
    assert_eq!(f(v.number_at("a").unwrap()), -3.0);
    assert_eq!(f(v.number_at("b").unwrap()), 1.5);
    assert_eq!(v.index_at("d"), Some(u64::MAX));
    assert_eq!(v.get("c").unwrap().as_array().unwrap().len(), 3);
    assert_eq!(v.get("c").unwrap().as_array().unwrap()[2].as_str().unwrap(), "x");
    assert!(v.get("e").is_none());
    assert_eq!(format!("{:?}", v.copy()), format!("{v:?}"));
    assert!(parse_json("nothing").is_none());
}

#[test]
fn a_value_compiles_as_its_text_does() {
    let text = network(r#""pipes": [{"lanes": 3}]"#);
    let a = compile_scenario_from_values(&text, vec![], &config_with_classes()).unwrap();
    let b = compile_scenario_from_network_value(&json(&text), vec![], &config_with_classes()).unwrap();
    assert_eq!(format!("{a:?}"), format!("{b:?}"));
}
