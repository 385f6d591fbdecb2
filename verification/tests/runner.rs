use katsu_compat::outcome::Outcome;
use katsu_compat::runner::{classify, first_line, step, tail, Action, Event, DEFAULT_TIMEOUT_NANOS};

#[test]
fn the_tail_keeps_the_end_where_the_assertion_is() {
    let text = (1..=20).map(|n| n.to_string()).collect::<Vec<_>>().join("\n");
    assert_eq!(tail(&text, 3), "18\n19\n20");
}

#[test]
fn short_output_survives_intact() {
    assert_eq!(tail("only one line", 12), "only one line");
}

#[test]
fn the_tail_drops_carriage_returns_and_a_final_newline() {
    assert_eq!(tail("a\r\nb\r\nc\n", 2), "b\nc");
    assert_eq!(tail("", 12), "");
    assert_eq!(tail("x\n\ny", 0), "");
}

#[test]
fn the_first_line_is_trimmed() {
    assert_eq!(first_line("  1..0 # Skipped: no crypto  \nmore"), "1..0 # Skipped: no crypto");
    assert_eq!(first_line(""), "");
    assert_eq!(first_line("\u{a0}x\r\n"), "x");
}

#[test]
fn a_test_that_skips_itself_is_skipped_not_passed() {
    let r = classify("t.js", "ok\n1..0 # Skipped: no intl\n", "", true);
    assert_eq!(r.outcome, Outcome::Skipped);
    assert_eq!(r.detail, "ok");
    let r = classify("t.js", "1..0\n", "", true);
    assert_eq!(r.outcome, Outcome::Skipped);
    assert_eq!(r.test, "t.js");
}

#[test]
fn exit_status_decides_pass_and_fail() {
    let r = classify("t.js", "fine\n", "noise", true);
    assert_eq!(r.outcome, Outcome::Pass);
    assert_eq!(r.detail, "");
    let stderr = (1..=15).map(|n| format!("e{n}")).collect::<Vec<_>>().join("\n");
    let r = classify("t.js", "", &stderr, false);
    assert_eq!(r.outcome, Outcome::Fail);
    assert_eq!(r.detail, "e4\ne5\ne6\ne7\ne8\ne9\ne10\ne11\ne12\ne13\ne14\ne15");
}

#[test]
fn a_test_past_its_limit_is_killed_as_a_timeout() {
    match step("t.js", 30_000_000_000, &Event::Running { elapsed_nanos: 30_000_000_001 }) {
        Action::Kill(r) => {
            assert_eq!(r.outcome, Outcome::Timeout);
            assert_eq!(r.detail, "killed after 30s");
            assert_eq!(r.test, "t.js");
        }
        _ => panic!("expected a kill"),
    }
    assert!(matches!(step("t.js", DEFAULT_TIMEOUT_NANOS, &Event::Running { elapsed_nanos: 5 }), Action::Wait));
    assert!(matches!(step("t.js", 1, &Event::Exited), Action::Collect));
}

#[test]
fn failures_around_the_child_are_reported() {
    let spawn = Event::SpawnFailed { runtime: "/bin/katsu".into(), error: "not found".into() };
    match step("t.js", 1, &spawn) {
        Action::Finish(r) => {
            assert_eq!(r.outcome, Outcome::Fail);
            assert_eq!(r.detail, "could not spawn /bin/katsu: not found");
        }
        _ => panic!("expected a result"),
    }
    match step("t.js", 1, &Event::WaitFailed { error: "gone".into() }) {
        Action::Finish(r) => assert_eq!(r.detail, "waiting on the child failed: gone"),
        _ => panic!("expected a result"),
    }
    match step("t.js", 1, &Event::CollectFailed { error: "pipe".into() }) {
        Action::Finish(r) => assert_eq!(r.detail, "collecting output failed: pipe"),
        _ => panic!("expected a result"),
    }
    let collected = Event::Collected { stdout: "1..0 # Skipped".into(), stderr: String::new(), success: true };
    match step("t.js", 1, &collected) {
        Action::Finish(r) => assert_eq!(r.outcome, Outcome::Skipped),
        _ => panic!("expected a result"),
    }
}

