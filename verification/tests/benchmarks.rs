use pipe_stream::benchmarks::{run_benchmarks, run_case, BenchmarkCase};
use pipe_stream::double::Double;
use pipe_stream::requests::count_failed;
use pipe_stream::verification::CheckStatus;

fn f(x: Double) -> f64 {
    f64::from_bits(x.bits)
}

#[test]
fn all_benchmarks_pass_against_theory() {
    for b in run_benchmarks() {
        assert_eq!(
            b.status,
            CheckStatus::Pass,
            "benchmark '{}' deviates from analytic solution: analytic {} {}, measured {}, err {:.3}%",
            b.case.id(),
            f(b.analytic),
            b.case.unit(),
            f(b.measured),
            f(b.error_pct)
        );
    }
}

#[test]
fn a_case_runs_by_itself() {
    let all = run_benchmarks();
    assert_eq!(count_failed(&all), 0);
    for b in &all {
        let again = run_case(b.case);
        assert_eq!(again.measured, b.measured);
        assert!(!b.vacuous, "{}", b.case.name());
    }
    let cases: Vec<BenchmarkCase> = all.iter().map(|b| b.case).collect();
    for i in 0..cases.len() {
        for j in 0..i {
            assert_ne!(cases[i].id(), cases[j].id());
        }
    }
}
