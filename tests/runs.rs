use ci_bench::{
    next_step, report, run_single, start, Benchmark, DispatchError, ReportError, ReportLine,
    RunError, RunEvent, RunStep,
};
use std::sync::atomic::{AtomicUsize, Ordering};

fn noop() {}

fn bench(name: &str) -> Benchmark<fn()> {
    Benchmark::new(name.to_string(), noop as fn())
}

fn lines(v: &[ReportLine]) -> Vec<(u64, String)> {
    v.iter().map(|l| (l.count, l.name.clone())).collect()
}

/// Runs the decisions of a top-level run against canned measurements.
fn simulate(
    benches: &[Benchmark<fn()>],
    available: bool,
    calibration: u64,
    raw: Vec<u64>,
) -> Result<Vec<(u64, String)>, RunError> {
    let mut step = start(benches);
    let mut raw = Some(raw);
    loop {
        let event = match &step {
            RunStep::ProbeProfiler => RunEvent::ProfilerProbed(available),
            RunStep::MeasureCalibration => RunEvent::CalibrationMeasured(calibration),
            RunStep::MeasureAll { .. } => RunEvent::AllMeasured(raw.take().unwrap()),
            RunStep::Finish(l) => return Ok(lines(l)),
            RunStep::Fail(_) => match step {
                RunStep::Fail(e) => return Err(e),
                _ => unreachable!(),
            },
        };
        step = next_step(benches, &step, event);
    }
}

#[test]
fn report_keeps_registration_order() {
    let benches = vec![bench("c"), bench("a"), bench("b")];
    let out = simulate(&benches, true, 10, vec![30, 110, 20]).ok().unwrap();
    assert_eq!(
        out,
        vec![
            (20, "c".to_string()),
            (100, "a".to_string()),
            (10, "b".to_string())
        ]
    );
}

#[test]
fn hidden_benchmarks_are_not_reported() {
    let benches = vec![
        bench("setup").hidden(),
        bench("work").exclude_setup_instructions("setup".to_string()),
    ];
    let out = simulate(&benches, true, 0, vec![5, 9]).ok().unwrap();
    assert_eq!(out.len(), 1);
    assert_eq!(out[0].1, "work");
}

#[test]
fn setup_instructions_are_excluded() {
    let benches = vec![
        bench("setup").hidden(),
        bench("work").exclude_setup_instructions("setup".to_string()),
    ];
    let out = report(&benches, 1000, &vec![5000, 9000]).ok().unwrap();
    assert_eq!(lines(&out), vec![(4000, "work".to_string())]);
}

#[test]
fn setup_may_be_visible_and_registered_later() {
    let benches = vec![
        bench("work").exclude_setup_instructions("setup".to_string()),
        bench("setup"),
    ];
    let out = report(&benches, 100, &vec![900, 400]).ok().unwrap();
    assert_eq!(
        lines(&out),
        vec![(500, "work".to_string()), (300, "setup".to_string())]
    );
}

#[test]
fn repeated_runs_give_identical_reports() {
    let benches = vec![
        bench("setup").hidden(),
        bench("work").exclude_setup_instructions("setup".to_string()),
        bench("plain"),
    ];
    let first = simulate(&benches, true, 1000, vec![5000, 9000, 1500]).ok().unwrap();
    let second = simulate(&benches, true, 1000, vec![5000, 9000, 1500]).ok().unwrap();
    assert_eq!(first, second);
}

#[test]
fn missing_profiler_reports_nothing() {
    let benches = vec![bench("a"), bench("b")];
    let out = simulate(&benches, false, 0, vec![1, 2]).ok().unwrap();
    assert!(out.is_empty());
}

#[test]
fn invalid_registry_fails_before_measuring() {
    let benches = vec![bench("a"), bench("a")];
    assert!(matches!(start(&benches), RunStep::Fail(RunError::Invalid(_))));
}

#[test]
fn count_below_calibration_fails() {
    let benches = vec![bench("a"), bench("b"), bench("c")];
    assert!(matches!(
        report(&benches, 100, &vec![100, 99, 50]),
        Err(ReportError::BelowCalibration { index: 1 })
    ));
}

#[test]
fn count_below_setup_fails() {
    let benches = vec![
        bench("setup").hidden(),
        bench("work").exclude_setup_instructions("setup".to_string()),
    ];
    assert!(matches!(
        report(&benches, 10, &vec![500, 400]),
        Err(ReportError::BelowSetup { index: 1 })
    ));
}

#[test]
fn unknown_setup_fails() {
    let benches = vec![bench("work").exclude_setup_instructions("setup".to_string())];
    assert!(matches!(
        report(&benches, 0, &vec![5]),
        Err(ReportError::UnknownSetup { index: 0 })
    ));
}

#[test]
fn wrong_number_of_counts_fails() {
    let benches = vec![bench("a"), bench("b")];
    assert!(matches!(
        simulate(&benches, true, 0, vec![1]),
        Err(RunError::CountMismatch)
    ));
}

#[test]
fn unexpected_event_fails() {
    let benches = vec![bench("a")];
    let step = next_step(&benches, &RunStep::ProbeProfiler, RunEvent::CalibrationMeasured(3));
    assert!(matches!(step, RunStep::Fail(RunError::UnexpectedEvent)));
}

static RUNS: AtomicUsize = AtomicUsize::new(0);

fn counted() {
    RUNS.fetch_add(1, Ordering::SeqCst);
}

#[test]
fn calibration_index_runs_nothing() {
    let benches = vec![Benchmark::new("a".to_string(), counted as fn())];
    let before = RUNS.load(Ordering::SeqCst);
    assert!(matches!(run_single(-1, &benches), Ok(None)));
    assert_eq!(RUNS.load(Ordering::SeqCst), before);
    assert!(matches!(run_single(0, &benches), Ok(Some(0))));
    assert_eq!(RUNS.load(Ordering::SeqCst), before + 1);
}

#[test]
fn out_of_range_index_fails() {
    let benches = vec![bench("a")];
    assert!(matches!(
        run_single(1, &benches),
        Err(DispatchError::IndexOutOfRange(1))
    ));
    assert!(matches!(
        run_single(-2, &benches),
        Err(DispatchError::IndexOutOfRange(-2))
    ));
}
