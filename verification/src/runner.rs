//! Deciding what happened to one test run: when to stop waiting on it, and how
//! to classify what it printed. Spawning, waiting and killing are the caller's.

use vstd::prelude::*;
use crate::outcome::{Outcome, TestResult};
use crate::text::{
    chars_of, decimal, decimal_chars, join, join_chars, lines, lines_of, contains, contains_chars,
    starts_with, starts_with_chars, string_of, trim, trim_chars, views,
};

verus! {

/// The first line of some output, without surrounding whitespace.
pub open spec fn first_line_spec(text: Seq<char>) -> Seq<char> {
    let ls = lines(text);
    if ls.len() == 0 {
        Seq::<char>::empty()
    } else {
        trim(ls[0])
    }
}

/// The first line of some output, without surrounding whitespace.
pub fn first_line(text: &str) -> (s: String)
    ensures
        s@ == first_line_spec(text@),
{
    let v = chars_of(text);
    let ls = lines_of(&v);
    if ls.len() == 0 {
        String::new()
    } else {
        proof {
            assert(ls@[0]@ == lines(text@)[0]);
        }
        let t = trim_chars(&ls[0]);
        string_of(&t)
    }
}

/// The last `count` lines of some output, joined by newlines.
pub open spec fn tail_spec(text: Seq<char>, count: nat) -> Seq<char> {
    let ls = lines(text);
    let start = if ls.len() >= count {
        ls.len() - count
    } else {
        0
    };
    join(ls.skip(start), seq!['\n'])
}

/// The last `lines` lines of some output, which is where the assertion usually is.
pub fn tail(text: &str, count: usize) -> (s: String)
    ensures
        s@ == tail_spec(text@, count as nat),
{
    let v = chars_of(text);
    let mut ls = lines_of(&v);
    let ghost all = views(ls@);
    let len = ls.len();
    let start = if len >= count {
        len - count
    } else {
        0
    };
    let mut kept = ls.split_off(start);
    proof {
        assert(views(kept@) =~= all.skip(start as int));
    }
    let mut sep: Vec<char> = Vec::new();
    sep.push('\n');
    proof {
        assert(sep@ =~= seq!['\n']);
    }
    let joined = join_chars(&kept, &sep);
    string_of(&joined)
}

/// The marker that Node's own `common` module prints when a test decides it
/// cannot run here.
pub open spec fn skip_marker() -> Seq<char> {
    "1..0 # Skipped"@
}

/// The plan line that a test that ran nothing starts with.
pub open spec fn empty_plan() -> Seq<char> {
    "1..0"@
}

/// Whether a test's output says it skipped itself.
pub open spec fn says_skipped(stdout: Seq<char>) -> bool {
    contains(stdout, skip_marker()) || starts_with(stdout, empty_plan())
}

/// The result of a test that ran to the end.
pub open spec fn classify_spec(test: Seq<char>, stdout: Seq<char>, stderr: Seq<char>, success: bool) -> (
    Outcome,
    Seq<char>,
) {
    if says_skipped(stdout) {
        (Outcome::Skipped, first_line_spec(stdout))
    } else if success {
        (Outcome::Pass, Seq::<char>::empty())
    } else {
        (Outcome::Fail, tail_spec(stderr, 12))
    }
}

/// Classify a test that ran to the end, from what it printed and how it exited.
///
/// Node's own `common` module prints `1..0 # Skipped` and exits zero when a test decides it
/// cannot run here. Treating it as a pass would inflate the rate with tests that never ran.
pub fn classify(test: &str, stdout: &str, stderr: &str, success: bool) -> (r: TestResult)
    ensures
        r.test@ == test@,
        (r.outcome, r.detail@) == classify_spec(test@, stdout@, stderr@, success),
        !says_skipped(stdout@) ==> (r.outcome == Outcome::Pass <==> success),
        !says_skipped(stdout@) && !success ==> r.outcome == Outcome::Fail,
        says_skipped(stdout@) ==> r.outcome == Outcome::Skipped,
{
    let out = chars_of(stdout);
    let marker = chars_of("1..0 # Skipped");
    let plan = chars_of("1..0");
    let name = String::from_str(test);
    if contains_chars(&out, &marker) || starts_with_chars(&out, &plan) {
        return TestResult { test: name, outcome: Outcome::Skipped, detail: first_line(stdout) };
    }
    if success {
        TestResult { test: name, outcome: Outcome::Pass, detail: String::new() }
    } else {
        TestResult { test: name, outcome: Outcome::Fail, detail: tail(stderr, 12) }
    }
}

/// Something that happened while running one test.
pub enum Event {
    /// The runtime could not be started.
    SpawnFailed { runtime: String, error: String },
    /// The child is still running after this many nanoseconds.
    Running { elapsed_nanos: u128 },
    /// The child has exited.
    Exited,
    /// Asking whether the child has exited failed.
    WaitFailed { error: String },
    /// The child's output was collected.
    Collected { stdout: String, stderr: String, success: bool },
    /// Collecting the child's output failed.
    CollectFailed { error: String },
}

/// What to do next.
pub enum Action {
    /// Sleep a moment and ask again whether the child has exited.
    Wait,
    /// Collect the exited child's output.
    Collect,
    /// Kill the child, reap it, and report this result.
    Kill(TestResult),
    /// Report this result.
    Finish(TestResult),
}

/// How long a single test gets before it is killed, in nanoseconds.
///
/// Node's own runner uses sixty seconds. We use less, because a katsu test that takes
/// thirty seconds is a bug rather than a slow test, and a suite of four thousand tests
/// with a sixty second limit takes too long to be run on every commit.
pub const DEFAULT_TIMEOUT_NANOS: u128 = 30_000_000_000;

/// Whether an action reports exactly this result.
pub open spec fn reports(a: Action, test: Seq<char>, outcome: Outcome, detail: Seq<char>, kill: bool) -> bool {
    match a {
        Action::Kill(r) => kill && r.test@ == test && r.outcome == outcome && r.detail@ == detail,
        Action::Finish(r) => !kill && r.test@ == test && r.outcome == outcome && r.detail@ == detail,
        _ => false,
    }
}

/// What to do after an event, running test `test` with a time limit of
/// `timeout_nanos`.
pub open spec fn step_spec(test: Seq<char>, timeout_nanos: nat, event: Event, a: Action) -> bool {
    match event {
        Event::SpawnFailed { runtime, error } => reports(
            a,
            test,
            Outcome::Fail,
            "could not spawn "@ + runtime@ + ": "@ + error@,
            false,
        ),
        Event::Running { elapsed_nanos } => if elapsed_nanos >= timeout_nanos {
            reports(
                a,
                test,
                Outcome::Timeout,
                "killed after "@ + decimal(timeout_nanos / 1_000_000_000) + "s"@,
                true,
            )
        } else {
            a is Wait
        },
        Event::Exited => a is Collect,
        Event::WaitFailed { error } => reports(
            a,
            test,
            Outcome::Fail,
            "waiting on the child failed: "@ + error@,
            false,
        ),
        Event::Collected { stdout, stderr, success } => {
            let c = classify_spec(test, stdout@, stderr@, success);
            reports(a, test, c.0, c.1, false)
        },
        Event::CollectFailed { error } => reports(
            a,
            test,
            Outcome::Fail,
            "collecting output failed: "@ + error@,
            false,
        ),
    }
}

/// Unless its output says it skipped itself, a test that ran to the end passes
/// exactly when it exited successfully, and fails otherwise, whatever it wrote to
/// stderr; output that says it skipped makes it a skip whatever the exit status.
/// Running to the end is never a timeout.
pub proof fn lemma_exit_status_decides_pass_or_fail(
    test: Seq<char>,
    stdout: Seq<char>,
    stderr: Seq<char>,
    success: bool,
)
    ensures
        !(contains(stdout, "1..0 # Skipped"@) || starts_with(stdout, "1..0"@)) ==> (classify_spec(
            test,
            stdout,
            stderr,
            success,
        ).0 == Outcome::Pass <==> success),
        !(contains(stdout, "1..0 # Skipped"@) || starts_with(stdout, "1..0"@)) && !success ==> classify_spec(
            test,
            stdout,
            stderr,
            success,
        ).0 == Outcome::Fail,
        (contains(stdout, "1..0 # Skipped"@) || starts_with(stdout, "1..0"@)) ==> classify_spec(
            test,
            stdout,
            stderr,
            success,
        ).0 == Outcome::Skipped,
        classify_spec(test, stdout, stderr, success).0 != Outcome::Timeout,
{
}

/// What a test wrote to stderr never decides its outcome: two runs that differ
/// only there are classified alike.
pub proof fn lemma_stderr_never_decides_the_outcome(
    test: Seq<char>,
    stdout: Seq<char>,
    stderr1: Seq<char>,
    stderr2: Seq<char>,
    success: bool,
)
    ensures
        classify_spec(test, stdout, stderr1, success).0 == classify_spec(test, stdout, stderr2, success).0,
{
}

/// A test still running is killed exactly when it has run for at least the
/// time limit, both counted in nanoseconds, and is waited on otherwise; the
/// kill reports the test as timed out.
pub proof fn lemma_running_test_is_killed_exactly_at_the_limit(
    test: Seq<char>,
    timeout_nanos: nat,
    elapsed_nanos: u128,
    a: Action,
)
    requires
        step_spec(test, timeout_nanos, Event::Running { elapsed_nanos }, a),
    ensures
        (a is Kill) <==> elapsed_nanos >= timeout_nanos,
        (a is Wait) <==> elapsed_nanos < timeout_nanos,
        a matches Action::Kill(r) ==> r.outcome == Outcome::Timeout && r.test@ == test,
{
}

/// Once a test has been running long enough to be killed, it is killed at any
/// later moment too, and one that is waited on was waited on at every earlier
/// moment.
pub proof fn lemma_kill_is_monotone_in_elapsed_time(
    test: Seq<char>,
    timeout_nanos: nat,
    earlier: u128,
    later: u128,
    a1: Action,
    a2: Action,
)
    requires
        earlier <= later,
        step_spec(test, timeout_nanos, Event::Running { elapsed_nanos: earlier }, a1),
        step_spec(test, timeout_nanos, Event::Running { elapsed_nanos: later }, a2),
    ensures
        a1 is Kill ==> a2 is Kill,
        a2 is Wait ==> a1 is Wait,
{
}

/// `prefix` followed by `rest`.
fn prefixed(prefix: &str, rest: &str) -> (s: String)
    ensures
        s@ == prefix@ + rest@,
{
    let mut v = chars_of(prefix);
    let mut w = chars_of(rest);
    v.append(&mut w);
    string_of(&v)
}

/// Decide what to do after an event while running one test.
pub fn step(test: &str, timeout_nanos: u128, event: &Event) -> (a: Action)
    requires
        timeout_nanos / 1_000_000_000 <= u64::MAX,
    ensures
        step_spec(test@, timeout_nanos as nat, *event, a),
        match *event {
            Event::Running { elapsed_nanos } => (a is Kill <==> elapsed_nanos >= timeout_nanos) && (a is Wait
                <==> elapsed_nanos < timeout_nanos),
            _ => !(a is Wait),
        },
{
    let name = String::from_str(test);
    match event {
        Event::SpawnFailed { runtime, error } => {
            let mut v = chars_of("could not spawn ");
            let mut w = chars_of(runtime.as_str());
            let mut x = chars_of(": ");
            let mut y = chars_of(error.as_str());
            v.append(&mut w);
            v.append(&mut x);
            v.append(&mut y);
            let detail = string_of(&v);
            Action::Finish(TestResult { test: name, outcome: Outcome::Fail, detail })
        },
        Event::Running { elapsed_nanos } => {
            if *elapsed_nanos >= timeout_nanos {
                let secs = timeout_nanos / 1_000_000_000;
                let mut v = chars_of("killed after ");
                let mut w = decimal_chars(secs as u64);
                let mut x = chars_of("s");
                v.append(&mut w);
                v.append(&mut x);
                Action::Kill(TestResult { test: name, outcome: Outcome::Timeout, detail: string_of(&v) })
            } else {
                Action::Wait
            }
        },
        Event::Exited => Action::Collect,
        Event::WaitFailed { error } => {
            let detail = prefixed("waiting on the child failed: ", error.as_str());
            Action::Finish(TestResult { test: name, outcome: Outcome::Fail, detail })
        },
        Event::Collected { stdout, stderr, success } => {
            Action::Finish(classify(test, stdout.as_str(), stderr.as_str(), *success))
        },
        Event::CollectFailed { error } => {
            let detail = prefixed("collecting output failed: ", error.as_str());
            Action::Finish(TestResult { test: name, outcome: Outcome::Fail, detail })
        },
    }
}

} // verus!
