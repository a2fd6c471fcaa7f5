use pipe_stream::double::Double;
use pipe_stream::reference::ObservedRecord;
use pipe_stream::requests::{
    check_records, checked_bin_size, checked_grid, file_stem, patch_path, seconds_or_zero,
    trim_suffixes, unix_now, validate_name, verification_fails, RequestFault,
};
use pipe_stream::verification::VerificationSummary;

fn d(x: f64) -> Double {
    Double { bits: x.to_bits() }
}

fn f(x: Double) -> f64 {
    f64::from_bits(x.bits)
}

#[test]
fn names_stay_inside_their_directory() {
    for name in ["a", "Grid 2.1", "a_b-c", "x.json"] {
        assert!(validate_name(name).is_ok(), "{name}");
    }
    for name in ["", "..", "a/b", "a\\b", "a..b", "caf\u{e9}"] {
        assert!(validate_name(name).is_err(), "{name}");
    }
    assert!(validate_name(&"x".repeat(128)).is_ok());
    assert!(validate_name(&"x".repeat(129)).is_err());
}

#[test]
fn files_of_patches() {
    assert_eq!(patch_path("grid", "close lane"), "scenarios/grid/patches/close lane.json");
    assert_eq!(file_stem("a.json").as_deref(), Some("a"));
    assert_eq!(file_stem("a.json.json").as_deref(), Some("a.json"));
    assert_eq!(file_stem("a.txt"), None);
    assert_eq!(trim_suffixes("a.json.json"), "a");
    assert_eq!(trim_suffixes("a"), "a");
}

#[test]
fn widths_of_at_least_one() {
    assert_eq!(checked_bin_size(None).map(f), Ok(60.0));
    assert_eq!(checked_bin_size(Some(d(1.0))).map(f), Ok(1.0));
    for x in [0.5, -3.0, f64::NAN, f64::INFINITY] {
        assert_eq!(checked_bin_size(Some(d(x))), Err(RequestFault::BinSize));
        assert!(matches!(checked_grid(Some(d(x)), None), Err(RequestFault::Grid)));
        assert!(matches!(checked_grid(None, Some(d(x))), Err(RequestFault::Grid)));
    }
    let p = checked_grid(None, Some(d(30.0))).unwrap();
    assert_eq!((f(p.dx_m), f(p.dt_s)), (50.0, 30.0));
}

fn record(t_end: f64, flow: Option<f64>) -> ObservedRecord {
    ObservedRecord {
        link_id: 0,
        t_start: d(0.0),
        t_end: d(t_end),
        flow_veh_h: flow.map(d),
        speed_kmh: None,
        label: None,
    }
}

#[test]
fn records_must_say_something() {
    assert_eq!(check_records(&vec![record(60.0, Some(1.0))]), Ok(()));
    assert_eq!(
        check_records(&vec![record(60.0, Some(1.0)), record(0.0, Some(1.0))]),
        Err(RequestFault::RecordEmpty { record: 1 })
    );
    assert_eq!(
        check_records(&vec![record(60.0, None)]),
        Err(RequestFault::RecordWithoutValue { record: 0 })
    );
}

#[test]
fn a_failed_check_or_case_fails_the_verification() {
    let mut s = VerificationSummary {
        elements_checked: 1,
        elements_pass: 1,
        elements_warn: 0,
        elements_fail: 0,
        elements_not_exercised: 0,
        checks_total: 1,
        checks_fail: 0,
    };
    assert!(!verification_fails(&s, 0));
    assert!(verification_fails(&s, 1));
    s.elements_fail = 1;
    s.checks_fail = 1;
    assert!(verification_fails(&s, 0));
}

#[test]
fn the_clock_tells_seconds() {
    // 2020-01-01.
    assert!(unix_now() > 1_577_836_800);
    assert_eq!(seconds_or_zero(None), 0);
    assert_eq!(seconds_or_zero(Some(5)), 5);
}
