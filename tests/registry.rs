use ci_bench::{validate, Benchmark, ReportingMode};
use std::sync::atomic::{AtomicUsize, Ordering};

fn noop() {}

fn bench(name: &str) -> Benchmark<fn()> {
    Benchmark::new(name.to_string(), noop as fn())
}

#[test]
fn new_benchmark_reports_all_instructions() {
    let b = bench("work");
    assert_eq!(b.name(), "work");
    assert!(matches!(b.reporting_mode(), ReportingMode::AllInstructions));
}

#[test]
fn hidden_benchmark_keeps_its_name() {
    let b = bench("setup").hidden();
    assert_eq!(b.name(), "setup");
    assert!(matches!(b.reporting_mode(), ReportingMode::Hidden));
}

#[test]
fn exclude_setup_names_the_setup() {
    let b = bench("work").exclude_setup_instructions("setup".to_string());
    match b.reporting_mode() {
        ReportingMode::AllInstructionsExceptSetup(s) => assert_eq!(s, "setup"),
        _ => panic!("wrong mode"),
    }
}

#[test]
fn run_calls_the_function() {
    static CALLS: AtomicUsize = AtomicUsize::new(0);
    let b = Benchmark::new("count".to_string(), || {
        CALLS.fetch_add(1, Ordering::SeqCst);
    });
    b.run();
    b.run();
    assert_eq!(CALLS.load(Ordering::SeqCst), 2);
}

#[test]
fn valid_registry_is_accepted() {
    let benches = vec![
        bench("setup").hidden(),
        bench("work").exclude_setup_instructions("setup".to_string()),
        bench("other"),
    ];
    assert!(validate(&benches).is_ok());
}

#[test]
fn empty_registry_is_accepted() {
    let benches: Vec<Benchmark<fn()>> = Vec::new();
    assert!(validate(&benches).is_ok());
}

#[test]
fn duplicate_name_is_listed_once() {
    let benches = vec![bench("x"), bench("y"), bench("x"), bench("x"), bench("z")];
    let err = validate(&benches).unwrap_err();
    assert_eq!(err.duplicate_names, vec!["x".to_string()]);
    assert!(err.undefined_names.is_empty());
}

#[test]
fn all_duplicates_are_listed_in_order_of_second_occurrence() {
    let benches = vec![bench("a"), bench("b"), bench("b"), bench("a"), bench("c")];
    let err = validate(&benches).unwrap_err();
    assert_eq!(err.duplicate_names, vec!["b".to_string(), "a".to_string()]);
    assert_eq!(
        err.message(),
        "The following benchmarks are defined multiple times: b, a"
    );
}

#[test]
fn duplicate_message_names_x_once() {
    let benches = vec![bench("x"), bench("x"), bench("x")];
    let message = validate(&benches).unwrap_err().message();
    assert_eq!(message.matches('x').count(), 1);
}

#[test]
fn dangling_setup_is_reported() {
    let benches = vec![
        bench("a").exclude_setup_instructions("b".to_string()),
        bench("c").exclude_setup_instructions("b".to_string()),
        bench("d").exclude_setup_instructions("e".to_string()),
        bench("f").exclude_setup_instructions("a".to_string()),
    ];
    let err = validate(&benches).unwrap_err();
    assert!(err.duplicate_names.is_empty());
    assert_eq!(err.undefined_names, vec!["b".to_string(), "e".to_string()]);
    assert_eq!(
        err.message(),
        "The following benchmark names are referenced, but have no corresponding benchmarks: b, e"
    );
}

#[test]
fn duplicates_and_dangling_names_are_both_reported() {
    let benches = vec![
        bench("a"),
        bench("a").exclude_setup_instructions("missing".to_string()),
    ];
    let err = validate(&benches).unwrap_err();
    assert_eq!(err.duplicate_names, vec!["a".to_string()]);
    assert_eq!(err.undefined_names, vec!["missing".to_string()]);
    assert_eq!(
        err.message(),
        "The following benchmarks are defined multiple times: a; \
The following benchmark names are referenced, but have no corresponding benchmarks: missing"
    );
}
