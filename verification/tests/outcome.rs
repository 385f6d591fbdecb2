use katsu_compat::outcome::{diff, Diff, Expectations, Outcome, TestResult};
use katsu_compat::sorted_map::SortedMap;

fn expectations(pairs: &[(&str, Outcome)]) -> Expectations {
    let mut results = SortedMap::new();
    for (t, o) in pairs {
        results.insert((*t).to_string(), *o);
    }
    Expectations { runtime: "test".into(), suite: "test".into(), results }
}

fn result(test: &str, outcome: Outcome) -> TestResult {
    TestResult { test: test.into(), outcome, detail: String::new() }
}

#[test]
fn a_test_that_stops_passing_is_a_regression() {
    let before = expectations(&[("a.js", Outcome::Pass)]);
    let after = expectations(&[("a.js", Outcome::Fail)]);
    let d = diff(&before, &after);
    assert_eq!(d.regressed.len(), 1);
    assert!(d.fixed.is_empty());
}

#[test]
fn a_test_that_starts_passing_also_has_to_be_committed() {
    let before = expectations(&[("a.js", Outcome::Fail)]);
    let after = expectations(&[("a.js", Outcome::Pass)]);
    let d = diff(&before, &after);
    assert_eq!(d.fixed, vec!["a.js".to_string()]);
    assert!(d.regressed.is_empty());
}

#[test]
fn skipped_tests_are_outside_the_denominator() {
    let run = expectations(&[
        ("a.js", Outcome::Pass),
        ("b.js", Outcome::Fail),
        ("c.js", Outcome::Skipped),
    ]);
    assert_eq!(run.passing(), 1);
    assert_eq!(run.attempted(), 2);
}

#[test]
fn an_unchanged_run_produces_no_diff() {
    let run = expectations(&[("a.js", Outcome::Pass), ("b.js", Outcome::Fail)]);
    assert!(diff(&run, &run).is_empty());
}

#[test]
fn glyphs_of_every_outcome() {
    assert_eq!(Outcome::Pass.glyph(), '.');
    assert_eq!(Outcome::Fail.glyph(), 'F');
    assert_eq!(Outcome::Timeout.glyph(), 'T');
    assert_eq!(Outcome::Skipped.glyph(), 's');
}

#[test]
fn from_results_keys_by_test_and_the_last_result_wins() {
    let results = vec![
        result("b.js", Outcome::Fail),
        result("a.js", Outcome::Pass),
        result("b.js", Outcome::Timeout),
    ];
    let e = Expectations::from_results("node v1".into(), "suite v2".into(), &results);
    assert_eq!(e.runtime, "node v1");
    assert_eq!(e.suite, "suite v2");
    assert_eq!(e.results.len(), 2);
    assert_eq!(e.results.key_at(0), "a.js");
    assert_eq!(e.results.key_at(1), "b.js");
    assert_eq!(e.results.get("b.js"), Some(&Outcome::Timeout));
    assert_eq!(e.results.get("a.js"), Some(&Outcome::Pass));
    assert_eq!(e.results.get("c.js"), None);
    assert!(e.results.contains_key("a.js"));
    assert!(!e.results.contains_key("c.js"));
}

#[test]
fn passing_never_exceeds_attempted() {
    let run = expectations(&[
        ("a.js", Outcome::Pass),
        ("b.js", Outcome::Timeout),
        ("c.js", Outcome::Skipped),
        ("d.js", Outcome::Pass),
    ]);
    assert_eq!(run.passing(), 2);
    assert_eq!(run.attempted(), 3);
    assert!(run.passing() <= run.attempted());
}

#[test]
fn added_and_removed_tests_are_reported_in_key_order() {
    let before = expectations(&[("gone-b.js", Outcome::Pass), ("gone-a.js", Outcome::Fail), ("kept.js", Outcome::Pass)]);
    let after = expectations(&[("kept.js", Outcome::Pass), ("new-b.js", Outcome::Skipped), ("new-a.js", Outcome::Pass)]);
    let d = diff(&before, &after);
    assert_eq!(d.added, vec![("new-a.js".to_string(), Outcome::Pass), ("new-b.js".to_string(), Outcome::Skipped)]);
    assert_eq!(d.removed, vec!["gone-a.js".to_string(), "gone-b.js".to_string()]);
    assert!(d.regressed.is_empty());
    assert!(d.fixed.is_empty());
    assert!(!d.is_empty());
}

#[test]
fn swapping_the_runs_swaps_added_with_removed_and_regressed_with_fixed() {
    let one = expectations(&[("a.js", Outcome::Pass), ("b.js", Outcome::Fail), ("c.js", Outcome::Pass)]);
    let two = expectations(&[("a.js", Outcome::Timeout), ("b.js", Outcome::Pass), ("d.js", Outcome::Pass)]);
    let forward = diff(&one, &two);
    let backward = diff(&two, &one);
    let added: Vec<String> = forward.added.iter().map(|(t, _)| t.clone()).collect();
    assert_eq!(added, backward.removed);
    let regressed: Vec<String> = forward.regressed.iter().map(|(t, _)| t.clone()).collect();
    assert_eq!(regressed, backward.fixed);
    let back_regressed: Vec<String> = backward.regressed.iter().map(|(t, _)| t.clone()).collect();
    assert_eq!(back_regressed, forward.fixed);
}

#[test]
fn a_move_between_two_ways_of_not_passing_is_a_change() {
    let before = expectations(&[("a.js", Outcome::Fail), ("b.js", Outcome::Skipped), ("c.js", Outcome::Timeout)]);
    let after = expectations(&[("a.js", Outcome::Timeout), ("b.js", Outcome::Fail), ("c.js", Outcome::Timeout)]);
    let d = diff(&before, &after);
    assert_eq!(d.changed, vec![("a.js".to_string(), Outcome::Timeout), ("b.js".to_string(), Outcome::Fail)]);
    assert!(d.regressed.is_empty() && d.fixed.is_empty() && d.added.is_empty() && d.removed.is_empty());
    assert!(!d.is_empty());
    let back = diff(&after, &before);
    let names: Vec<&str> = back.changed.iter().map(|(t, _)| t.as_str()).collect();
    assert_eq!(names, vec!["a.js", "b.js"]);
}

#[test]
fn a_diff_is_empty_exactly_when_the_runs_are_equal() {
    let outcomes = [Outcome::Pass, Outcome::Fail, Outcome::Timeout, Outcome::Skipped];
    for a in outcomes {
        for b in outcomes {
            let d = diff(&expectations(&[("t.js", a)]), &expectations(&[("t.js", b)]));
            assert_eq!(d.is_empty(), a == b, "{a:?} {b:?}");
        }
    }
}

#[test]
fn expectations_clone_to_an_equal_run() {
    let run = expectations(&[("a.js", Outcome::Pass), ("b.js", Outcome::Fail)]);
    let copy = run.clone();
    assert_eq!(copy.runtime, run.runtime);
    assert_eq!(copy.results.len(), 2);
    assert!(diff(&run, &copy).is_empty());
}

#[test]
fn a_default_diff_is_empty() {
    let d = Diff::default();
    assert!(d.is_empty());
    let d = Diff::new();
    assert!(d.is_empty());
}
