use katsu_compat::outcome::{Expectations, Outcome, TestResult};
use katsu_compat::report::{markdown, module_of, tally, ModuleTally};

fn result(test: &str, outcome: Outcome) -> TestResult {
    TestResult { test: test.into(), outcome, detail: String::new() }
}

#[test]
fn tests_are_grouped_by_the_module_their_name_names() {
    assert_eq!(module_of("test/parallel/test-fs-read.js"), "fs");
    assert_eq!(module_of("test/parallel/test-http2-server.js"), "http2");
    assert_eq!(module_of("test/es-module/test-esm-loader.mjs"), "esm");
}

#[test]
fn a_name_that_matches_no_module_lands_in_other_rather_than_being_forced() {
    assert_eq!(module_of("test/parallel/test-blorp-thing.js"), "other");
}

#[test]
fn a_module_with_nothing_but_skips_has_no_rate_at_all() {
    let tallied = tally(&[result("test/parallel/test-vm-a.js", Outcome::Skipped)]);
    assert_eq!(tallied.get("vm").unwrap().rate_tenths(), None);
}

#[test]
fn skipped_tests_stay_out_of_the_denominator() {
    let t = ModuleTally { pass: 3, fail: 1, timeout: 0, skipped: 96 };
    assert_eq!(t.attempted(), 4);
    assert_eq!(t.rate_tenths(), Some(750));
}

#[test]
fn the_report_lists_the_failures_rather_than_only_counting_them() {
    let results = vec![
        result("test/parallel/test-fs-a.js", Outcome::Pass),
        result("test/parallel/test-http-b.js", Outcome::Fail),
    ];
    let out = markdown("node v24.18.0", "nodejs/node v24.18.0", &results);
    assert!(out.contains("test-http-b.js"), "the failing test must be named");
    assert!(out.contains("50.0%"));
}

#[test]
fn module_names_strip_every_test_prefix_and_stop_at_dots_and_dashes() {
    assert_eq!(module_of("test-test-fs-x.js"), "fs");
    assert_eq!(module_of("test-url.js"), "url");
    assert_eq!(module_of("parallel/test-v8.flags.js"), "v8");
    assert_eq!(module_of(""), "other");
    assert_eq!(module_of("dir/"), "other");
    assert_eq!(module_of("test/parallel/fs-read.js"), "fs");
}

#[test]
fn tally_counts_every_outcome_per_module() {
    let tallied = tally(&[
        result("test/parallel/test-fs-a.js", Outcome::Pass),
        result("test/parallel/test-fs-b.js", Outcome::Fail),
        result("test/parallel/test-fs-c.js", Outcome::Timeout),
        result("test/parallel/test-fs-d.js", Outcome::Skipped),
        result("test/parallel/test-fs-e.js", Outcome::Pass),
        result("test/parallel/test-zz-top.js", Outcome::Pass),
    ]);
    assert_eq!(tallied.len(), 2);
    assert_eq!(tallied.key_at(0), "fs");
    assert_eq!(tallied.key_at(1), "other");
    let fs = tallied.get("fs").unwrap();
    assert_eq!((fs.pass, fs.fail, fs.timeout, fs.skipped), (2, 1, 1, 1));
    assert_eq!(fs.attempted(), 4);
    assert_eq!(fs.rate_tenths(), Some(500));
}

#[test]
fn rates_round_the_nearest_double_half_to_even() {
    // 1/8 of a percent is exactly 12.5, a tie, which rounds to the even 12.
    assert_eq!(ModuleTally { pass: 1, fail: 7, timeout: 0, skipped: 0 }.rate_tenths(), Some(125));
    // 1 in 80 is 1.25% exactly, which prints as 1.2.
    assert_eq!(ModuleTally { pass: 1, fail: 79, timeout: 0, skipped: 0 }.rate_tenths(), Some(12));
    // 3 in 2000 is 0.15%, whose nearest double lies just below 0.15.
    assert_eq!(ModuleTally { pass: 3, fail: 1997, timeout: 0, skipped: 0 }.rate_tenths(), Some(1));
    // 7 in 2000 is 0.35%, whose nearest double also lies just below.
    assert_eq!(ModuleTally { pass: 7, fail: 1993, timeout: 0, skipped: 0 }.rate_tenths(), Some(3));
    assert_eq!(ModuleTally { pass: 2, fail: 1, timeout: 0, skipped: 0 }.rate_tenths(), Some(667));
    assert_eq!(ModuleTally { pass: 5, fail: 0, timeout: 0, skipped: 0 }.rate_tenths(), Some(1000));
    assert_eq!(ModuleTally { pass: 0, fail: 5, timeout: 0, skipped: 0 }.rate_tenths(), Some(0));
    assert_eq!(ModuleTally { pass: 0, fail: 0, timeout: 0, skipped: 3 }.rate_tenths(), None);
    assert_eq!(ModuleTally::default().rate_tenths(), None);
}

#[test]
fn rates_agree_with_float_formatting() {
    for attempted in 1..300usize {
        for pass in 0..=attempted {
            let t = ModuleTally { pass, fail: attempted - pass, timeout: 0, skipped: 0 };
            let expected = format!("{:.1}", pass as f64 * 100.0 / attempted as f64);
            let tenths = t.rate_tenths().unwrap();
            let printed = format!("{}.{}", tenths / 10, tenths % 10);
            assert_eq!(printed, expected, "{pass} of {attempted}");
        }
    }
}

#[test]
fn the_table_puts_the_worst_module_first() {
    let results = vec![
        result("test/parallel/test-fs-a.js", Outcome::Pass),
        result("test/parallel/test-http-a.js", Outcome::Fail),
        result("test/parallel/test-vm-a.js", Outcome::Skipped),
        result("test/parallel/test-util-flags.js", Outcome::Pass),
        result("test/parallel/test-dns-a.js", Outcome::Pass),
        result("test/parallel/test-dns-b.js", Outcome::Timeout),
    ];
    let out = markdown("node v1", "nodejs/node v2", &results);
    let expected = "# Node.js compatibility\n\
\n\
Runtime: `node v1`. Suite: `nodejs/node v2`.\n\
\n\
3 of 5 attempted tests pass, which is 60.0%. 1 test was skipped and it is not in that denominator.\n\
\n\
| Module | Pass | Fail | Timeout | Skipped | Rate |\n\
|---|---:|---:|---:|---:|---:|\n\
| `http` | 0 | 1 | 0 | 0 | 0.0% |\n\
| `dns` | 1 | 0 | 1 | 0 | 50.0% |\n\
| `fs` | 1 | 0 | 0 | 0 | 100.0% |\n\
| `util` | 1 | 0 | 0 | 0 | 100.0% |\n\
| `vm` | 0 | 0 | 0 | 1 | n/a |\n\
\n\
## Every failure\n\
\n\
All 2 of them, because a compatibility number without the failures behind it is a number nobody can act on.\n\
\n\
- `test/parallel/test-http-a.js` (Fail)\n\
- `test/parallel/test-dns-b.js` (Timeout)\n";
    assert_eq!(out, expected);
}

#[test]
fn a_run_with_nothing_attempted_says_so_and_lists_no_failures() {
    let results = vec![
        result("test/parallel/test-vm-a.js", Outcome::Skipped),
        result("test/parallel/test-vm-b.js", Outcome::Skipped),
    ];
    let out = markdown("r", "s", &results);
    assert!(out.contains("No tests were attempted.\n"));
    assert!(out.contains("| `vm` | 0 | 0 | 0 | 2 | n/a |"));
    assert!(!out.contains("Every failure"));
    let empty = markdown("r", "s", &[]);
    assert!(empty.contains("No tests were attempted."));
}

#[test]
fn several_skips_are_counted_in_the_plural() {
    let results = vec![
        result("test/parallel/test-fs-a.js", Outcome::Pass),
        result("test/parallel/test-vm-a.js", Outcome::Skipped),
        result("test/parallel/test-vm-b.js", Outcome::Skipped),
    ];
    let out = markdown("r", "s", &results);
    assert!(out.contains("1 of 1 attempted tests pass, which is 100.0%. 2 tests were skipped and they are not in that denominator."));
}

#[test]
fn the_summary_counts_match_the_expectations_file() {
    let results = vec![
        result("test/parallel/test-fs-a.js", Outcome::Pass),
        result("test/parallel/test-fs-b.js", Outcome::Fail),
        result("test/parallel/test-http-a.js", Outcome::Pass),
        result("test/parallel/test-http-b.js", Outcome::Timeout),
        result("test/parallel/test-vm-a.js", Outcome::Skipped),
        result("test/parallel/test-os-a.js", Outcome::Pass),
    ];
    let e = Expectations::from_results("r".into(), "s".into(), &results);
    assert_eq!((e.passing(), e.attempted()), (3, 5));
    let out = markdown("r", "s", &results);
    assert!(out.contains("3 of 5 attempted tests pass, which is 60.0%."));
}

#[test]
fn the_table_does_not_depend_on_the_order_of_the_run() {
    let results = vec![
        result("test/parallel/test-fs-a.js", Outcome::Pass),
        result("test/parallel/test-http-a.js", Outcome::Pass),
        result("test/parallel/test-http-b.js", Outcome::Skipped),
        result("test/parallel/test-os-a.js", Outcome::Pass),
    ];
    let mut reversed = results.clone();
    reversed.reverse();
    assert_eq!(markdown("r", "s", &results), markdown("r", "s", &reversed));
}

#[test]
fn the_tally_of_joined_runs_adds_the_tallies() {
    let a = vec![
        result("test/parallel/test-fs-a.js", Outcome::Pass),
        result("test/parallel/test-vm-a.js", Outcome::Skipped),
    ];
    let b = vec![
        result("test/parallel/test-fs-b.js", Outcome::Fail),
        result("test/parallel/test-os-a.js", Outcome::Timeout),
    ];
    let joined: Vec<TestResult> = a.iter().chain(b.iter()).cloned().collect();
    let swapped: Vec<TestResult> = b.iter().chain(a.iter()).cloned().collect();
    for run in [&joined, &swapped] {
        let t = tally(run);
        assert_eq!(t.len(), 3);
        let fs = t.get("fs").unwrap();
        assert_eq!((fs.pass, fs.fail, fs.timeout, fs.skipped), (1, 1, 0, 0));
        let os = t.get("os").unwrap();
        assert_eq!((os.pass, os.fail, os.timeout, os.skipped), (0, 0, 1, 0));
        let vm = t.get("vm").unwrap();
        assert_eq!((vm.pass, vm.fail, vm.timeout, vm.skipped), (0, 0, 0, 1));
    }
}
