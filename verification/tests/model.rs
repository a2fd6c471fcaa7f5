use pipe_stream::double::Double;
use pipe_stream::model::{
    all_classes_mask, default_classes, default_friction, FundamentalDiagram, Link, LinkAttrs, Pipe,
    PipeSpec, StorageAvailability, ALL_CLASSES,
};

fn d(x: f64) -> Double {
    Double { bits: x.to_bits() }
}

fn f(x: Double) -> f64 {
    f64::from_bits(x.bits)
}

fn fd(u: f64, w: f64, kx: f64, c: f64) -> FundamentalDiagram {
    FundamentalDiagram { u: d(u), w: d(w), kx: d(kx), c: d(c) }
}

fn link() -> Link {
    Link::new(0, 0, 1, d(100.0), d(10.0), 3, d(1.7), fd(10.0, 5.0, 0.02, 0.5), vec![])
}

#[test]
fn default_materialization_is_single_pipe_copying_link_capacity() {
    let mut l = link();
    l.materialize_pipes();
    assert_eq!(l.pipes.len(), 1);
    let p = &l.pipes[0];
    assert_eq!(p.lanes, 3);
    assert_eq!(p.class_mask, ALL_CLASSES);
    // The capacity is copied as it stands: 1.7 is not fd.c * lanes = 1.5.
    assert_eq!(f(p.capacity), 1.7);
    assert_eq!(p.storage_exact, l.storage_exact());
    assert_eq!(p.storage_veh, l.storage_veh());
    assert_eq!(p.wave_delay, l.wave_delay());
}

#[test]
fn explicit_specs_derive_per_pipe_scalars() {
    let mut l = link();
    l.pipe_specs = vec![
        PipeSpec { lanes: 1, class_mask: 0b10 },
        PipeSpec { lanes: 2, class_mask: ALL_CLASSES },
    ];
    l.materialize_pipes();
    assert_eq!(l.pipes.len(), 2);
    assert!((f(l.pipes[0].capacity) - 0.5).abs() < 1e-12);
    assert!((f(l.pipes[1].capacity) - 1.0).abs() < 1e-12);
    assert_eq!(l.pipes[0].storage_veh, Some(2));
    assert_eq!(l.pipes[1].storage_veh, Some(4));
    assert!((f(l.pipes[0].wave_delay) - 20.0).abs() < 1e-12);
    assert!(l.pipes[0].allows_class(1));
    assert!(!l.pipes[0].allows_class(0));
    assert!(l.pipes[1].allows_class(0));
}

#[test]
fn materialization_is_idempotent_and_resets_state() {
    let mut l = link();
    l.materialize_pipes();
    l.pipes[0].entered_count = 7;
    l.pipes[0].entry_queue.push_back(1);
    l.materialize_pipes();
    assert_eq!(l.pipes[0].entered_count, 0);
    assert!(l.pipes[0].entry_queue.is_empty());
}

fn pipe() -> Pipe {
    // kx * L * lanes = 0.02 * 100 * 1 = 2 slots, L/w = 20 s.
    Pipe::new(1, ALL_CLASSES, d(1.0), d(100.0), &fd(10.0, 5.0, 0.02, 1.0))
}

#[test]
fn slots_are_released_by_the_backward_wave() {
    let mut p = pipe();
    assert_eq!(p.storage_veh, Some(2));
    assert_eq!(f(p.wave_delay), 20.0);
    p.admit_vehicle(d(0.0));
    p.admit_vehicle(d(1.0));
    assert_eq!(p.storage_availability(d(2.0)), StorageAvailability::Blocked);
    assert!(p.is_spilled(d(2.0)));
    p.discharge(d(10.0));
    assert_eq!(p.vehicles_on_pipe, 1);
    assert_eq!(p.storage_availability(d(11.0)), StorageAvailability::AvailableAt(d(30.0)));
    assert_eq!(p.storage_availability(d(30.0)), StorageAvailability::Available);
    assert!(!p.is_spilled(d(30.0)));
    p.admit_vehicle(d(30.0));
    assert_eq!(p.entered_count, 3);
    assert!(p.release_times.is_empty());
}

#[test]
fn an_over_filled_pipe_swallows_releases() {
    let mut p = pipe();
    p.admit_vehicle(d(0.0));
    p.admit_vehicle(d(1.0));
    // Half the length: one slot for two vehicles.
    p.refresh_frozen(1, ALL_CLASSES, d(1.0), d(50.0), &fd(10.0, 5.0, 0.02, 1.0));
    assert_eq!(p.storage_veh, Some(1));
    assert_eq!(p.pending_release_discards, 1);
    p.discharge(d(5.0));
    assert_eq!(p.pending_release_discards, 0);
    assert_eq!(p.storage_availability(d(100.0)), StorageAvailability::Blocked);
    p.discharge(d(6.0));
    assert_eq!(p.storage_availability(d(16.0)), StorageAvailability::Available);
}

#[test]
fn a_refresh_that_keeps_the_storage_keeps_the_waves() {
    let mut p = pipe();
    p.admit_vehicle(d(0.0));
    p.discharge(d(10.0));
    p.refresh_frozen(1, 0, d(2.0), d(100.0), &fd(10.0, 5.0, 0.02, 1.0));
    assert_eq!(p.class_mask, 0);
    assert_eq!(p.release_times.len(), 1);
    assert_eq!(f(p.release_times[0]), 30.0);
}

#[test]
fn masks_allow_their_bits_alone() {
    let p = Pipe::new(1, 1 << 63, d(1.0), d(100.0), &fd(10.0, 5.0, 0.02, 1.0));
    assert!(p.allows_class(63));
    assert!(!p.allows_class(62));
    assert!(!p.allows_class(64));
}

#[test]
fn an_override_touches_what_it_sets() {
    let mut l = link();
    l.materialize_pipes();
    let attrs = LinkAttrs {
        speed: Some(d(7.0)),
        num_lanes: Some(2),
        class_masks: Some(vec![0]),
        ..Default::default()
    };
    l.apply_attrs(&attrs);
    l.refresh_pipes_in_place(&attrs.class_masks);
    assert_eq!(f(l.speed), 7.0);
    assert_eq!(f(l.capacity), 1.7);
    assert_eq!(l.pipes[0].lanes, 2);
    assert_eq!(l.pipes[0].class_mask, 0);
    assert_eq!(l.pipes[0].storage_veh, Some(4));
}

#[test]
fn a_link_serves_what_some_pipe_serves() {
    let mut l = link();
    assert!(l.serves(0, Some(9)));
    l.pipe_specs = vec![
        PipeSpec { lanes: 1, class_mask: 0b10 },
        PipeSpec { lanes: 2, class_mask: 0b01 },
    ];
    l.moves.insert(5, vec![1]);
    assert!(l.serves(0, Some(5)));
    assert!(!l.serves(1, Some(5)));
    assert!(l.serves(1, Some(6)));
    assert!(l.serves(1, None));
    assert!(!l.serves(2, None));
}

#[test]
fn defaults_for_what_the_input_leaves_out() {
    assert_eq!(all_classes_mask(), u64::MAX);
    assert_eq!(f(default_friction()), 1.0);
    assert_eq!(default_classes(), vec!["car"]);
}
