use ci_bench::{dispatch, parse_cachegrind_output, parse_index, Invocation};

fn args(v: &[&str]) -> Vec<String> {
    v.iter().map(|s| s.to_string()).collect()
}

#[test]
fn summary_line_is_read() {
    let text = b"desc: I1 cache\ncmd: ./bench --bench-run 3\nevents: Ir\nfl=foo.rs\n1 2\nsummary: 123456\n";
    assert_eq!(parse_cachegrind_output(text), Some(123456));
}

#[test]
fn summary_value_is_trimmed() {
    assert_eq!(parse_cachegrind_output(b"summary:   42 \r\n"), Some(42));
}

#[test]
fn first_summary_line_wins() {
    assert_eq!(parse_cachegrind_output(b"summary: 7\nsummary: 8\n"), Some(7));
}

#[test]
fn summary_without_final_newline() {
    assert_eq!(parse_cachegrind_output(b"events: Ir\nsummary: 18446744073709551615"), Some(u64::MAX));
}

#[test]
fn summary_prefix_must_start_the_line() {
    assert_eq!(parse_cachegrind_output(b"x summary: 5\n"), None);
}

#[test]
fn missing_summary_is_none() {
    assert_eq!(parse_cachegrind_output(b"events: Ir\n"), None);
    assert_eq!(parse_cachegrind_output(b""), None);
}

#[test]
fn unparsable_summary_is_none() {
    assert_eq!(parse_cachegrind_output(b"summary: 12a\n"), None);
    assert_eq!(parse_cachegrind_output(b"summary: \n"), None);
    assert_eq!(parse_cachegrind_output(b"summary: 18446744073709551616\n"), None);
    assert_eq!(parse_cachegrind_output(b"summary: -3\n"), None);
}

#[test]
fn summary_accepts_plus_sign() {
    assert_eq!(parse_cachegrind_output(b"summary: +9\n"), Some(9));
}

#[test]
fn index_parsing() {
    assert_eq!(parse_index("-1"), Some(-1));
    assert_eq!(parse_index("0"), Some(0));
    assert_eq!(parse_index("+17"), Some(17));
    assert_eq!(parse_index("9223372036854775807"), Some(isize::MAX));
    assert_eq!(parse_index("-9223372036854775808"), Some(isize::MIN));
    assert_eq!(parse_index("9223372036854775808"), None);
    assert_eq!(parse_index(""), None);
    assert_eq!(parse_index("-"), None);
    assert_eq!(parse_index("1x"), None);
    assert_eq!(parse_index(" 1"), None);
}

#[test]
fn child_invocation_is_dispatched() {
    assert!(matches!(
        dispatch(&args(&["exe", "--bench-run", "3"])),
        Invocation::Child(3)
    ));
    assert!(matches!(
        dispatch(&args(&["exe", "--bench-run", "-1"])),
        Invocation::Child(-1)
    ));
}

#[test]
fn other_invocations_are_top_level() {
    assert!(matches!(dispatch(&args(&["exe"])), Invocation::TopLevel));
    assert!(matches!(dispatch(&args(&["exe", "--bench"])), Invocation::TopLevel));
    assert!(matches!(
        dispatch(&args(&["exe", "--bench-run"])),
        Invocation::TopLevel
    ));
    assert!(matches!(
        dispatch(&args(&["exe", "--other", "3"])),
        Invocation::TopLevel
    ));
    assert!(matches!(
        dispatch(&args(&["exe", "--bench-run", "three"])),
        Invocation::TopLevel
    ));
}

#[test]
fn output_file_is_named_after_the_measurement() {
    assert_eq!(
        ci_bench::output_file("handshake_no_resume"),
        "target/cachegrind/cachegrind.out.handshake_no_resume"
    );
}

#[test]
fn profiler_arguments_for_a_benchmark() {
    assert_eq!(
        ci_bench::profiler_args("x86_64", "/bin/bench", 12, "work"),
        args(&[
            "x86_64",
            "-R",
            "valgrind",
            "--tool=cachegrind",
            "--cache-sim=no",
            "--cachegrind-out-file=target/cachegrind/cachegrind.out.work",
            "/bin/bench",
            "--bench-run",
            "12",
        ])
    );
}

#[test]
fn profiler_arguments_for_calibration() {
    let a = ci_bench::profiler_args("aarch64", "exe", ci_bench::CALIBRATION_INDEX, "calibration");
    assert_eq!(a[8], "-1");
    assert_eq!(a[5], "--cachegrind-out-file=target/cachegrind/cachegrind.out.calibration");
    assert_eq!(parse_index(&a[8]), Some(-1));
}

#[test]
fn written_index_is_read_back() {
    for i in [0isize, 7, 10, 12345, -1, -40, isize::MAX, isize::MIN] {
        let a = ci_bench::profiler_args("a", "e", i, "n");
        assert_eq!(a[8], i.to_string());
        assert_eq!(parse_index(&a[8]), Some(i));
    }
}

#[test]
fn summary_value_is_trimmed_of_unicode_whitespace() {
    assert_eq!(parse_cachegrind_output("summary: 5\u{a0}\n".as_bytes()), Some(5));
    assert_eq!(parse_cachegrind_output("summary: \u{3000}\u{85}77\u{2029}\u{2000} \n".as_bytes()), Some(77));
    assert_eq!(parse_cachegrind_output("summary: \u{1680}8\u{202f}\u{205f}\u{200a}".as_bytes()), Some(8));
    assert_eq!(parse_cachegrind_output("summary: 8\u{200b}".as_bytes()), None);
}
