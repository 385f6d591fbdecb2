//! What happened when one test ran, and how a run compares to the last known one.

use vstd::prelude::*;
use crate::sorted_map::{
    SortedMap, as_map, has_key, key_index, keys_ascending, lemma_key_index, lemma_str_lt_irreflexive,
    lemma_str_lt_total, str_lt,
};

verus! {

/// The result of running one test file.
#[derive(Clone, Copy, Debug, PartialEq, Eq, PartialOrd, Ord, Structural)]
pub enum Outcome {
    /// Exited zero.
    Pass,
    /// Exited non zero, or was killed by a signal.
    Fail,
    /// Ran past the time limit and was killed.
    Timeout,
    /// The test declares that it needs something this build does not have.
    /// Not a failure, and counted separately so that it cannot be quietly
    /// used to inflate a pass rate.
    Skipped,
}

/// The single character used in the progress stream.
pub open spec fn glyph_of(o: Outcome) -> char {
    match o {
        Outcome::Pass => '.',
        Outcome::Fail => 'F',
        Outcome::Timeout => 'T',
        Outcome::Skipped => 's',
    }
}

impl Outcome {
    /// The single character used in the progress stream.
    pub fn glyph(self) -> (c: char)
        ensures
            c == glyph_of(self),
    {
        match self {
            Outcome::Pass => '.',
            Outcome::Fail => 'F',
            Outcome::Timeout => 'T',
            Outcome::Skipped => 's',
        }
    }
}

/// One test's result, with enough of the failure to be actionable without rerunning it.
#[derive(Clone, Debug)]
pub struct TestResult {
    /// Path relative to the suite root, which is the stable identifier for a test.
    pub test: String,
    /// What happened.
    pub outcome: Outcome,
    /// The tail of stderr, when it failed. Empty on a pass.
    pub detail: String,
}

/// A whole run, ready to be written to disk and diffed against the next one.
#[derive(Clone, Debug)]
pub struct Expectations {
    /// Which runtime produced this, for example `node v24.18.0`.
    pub runtime: String,
    /// Which suite it was run against, for example `nodejs/node v24.18.0`.
    pub suite: String,
    /// Every test, keyed by path so the file has a stable order and diffs cleanly.
    pub results: SortedMap<Outcome>,
}

/// Each test's outcome in a run, the last result for a test counting.
pub open spec fn results_map(rs: Seq<TestResult>) -> Map<Seq<char>, Outcome>
    decreases rs.len(),
{
    if rs.len() == 0 {
        Map::empty()
    } else {
        results_map(rs.drop_last()).insert(rs.last().test@, rs.last().outcome)
    }
}

/// Entries that passed.
pub open spec fn passed() -> spec_fn((Seq<char>, Outcome)) -> bool {
    |e: (Seq<char>, Outcome)| e.1 == Outcome::Pass
}

/// Entries that were attempted, which is every one that was not skipped.
pub open spec fn was_attempted() -> spec_fn((Seq<char>, Outcome)) -> bool {
    |e: (Seq<char>, Outcome)| e.1 != Outcome::Skipped
}

impl Expectations {
    /// Build an expectations file from a finished run.
    pub fn from_results(runtime: String, suite: String, results: &[TestResult]) -> (e: Self)
        ensures
            e.runtime == runtime,
            e.suite == suite,
            e.results.map() == results_map(results@),
            keys_ascending(e.results@),
    {
        let mut map: SortedMap<Outcome> = SortedMap::new();
        let n = results.len();
        for i in 0..n
            invariant
                n == results@.len(),
                map.map() == results_map(results@.take(i as int)),
                keys_ascending(map@),
        {
            let r = &results[i];
            map.insert(r.test.clone(), r.outcome);
            proof {
                assert(results@.take(i + 1).drop_last() =~= results@.take(i as int));
            }
        }
        proof {
            assert(results@.take(n as int) =~= results@);
        }
        Expectations { runtime, suite, results: map }
    }

    /// How many tests passed.
    pub fn passing(&self) -> (n: usize)
        ensures
            n == self.results@.filter(passed()).len(),
    {
        count_entries(&self.results, true)
    }

    /// How many tests were actually attempted, which excludes the skipped ones.
    ///
    /// A pass rate over a denominator that quietly drops the hard tests is the oldest trick
    /// in this field, so the two numbers are kept apart everywhere.
    pub fn attempted(&self) -> (n: usize)
        ensures
            n == self.results@.filter(was_attempted()).len(),
    {
        count_entries(&self.results, false)
    }
}

impl Default for Expectations {
    fn default() -> (e: Self)
        ensures
            e.runtime@ == Seq::<char>::empty(),
            e.suite@ == Seq::<char>::empty(),
            e.results@ == Seq::<(Seq<char>, Outcome)>::empty(),
    {
        Expectations { runtime: String::new(), suite: String::new(), results: SortedMap::new() }
    }
}

/// Counts the passing entries, or the attempted ones.
fn count_entries(m: &SortedMap<Outcome>, passing: bool) -> (n: usize)
    ensures
        passing ==> n == m@.filter(passed()).len(),
        !passing ==> n == m@.filter(was_attempted()).len(),
{
    let ghost pred = if passing { passed() } else { was_attempted() };
    let len = m.len();
    let mut count: usize = 0;
    for i in 0..len
        invariant
            len == m@.len(),
            pred == if passing { passed() } else { was_attempted() },
            count == m@.take(i as int).filter(pred).len(),
            count <= i,
    {
        let o = *m.value_at(i);
        proof {
            assert(m@.take(i + 1) =~= m@.take(i as int).push(m@[i as int]));
            m@.take(i as int).lemma_filter_push(m@[i as int], pred);
        }
        let counted = if passing { o == Outcome::Pass } else { o != Outcome::Skipped };
        if counted {
            count = count + 1;
        }
    }
    proof {
        assert(m@.take(len as int) =~= m@);
    }
    count
}

/// Fewer tests pass than were attempted, or as many.
pub proof fn lemma_passing_within_attempted(s: Seq<(Seq<char>, Outcome)>)
    ensures
        s.filter(passed()).len() <= s.filter(was_attempted()).len(),
    decreases s.len(),
{
    if s.len() > 0 {
        lemma_passing_within_attempted(s.drop_last());
        assert(s =~= s.drop_last().push(s.last()));
        s.drop_last().lemma_filter_push(s.last(), passed());
        s.drop_last().lemma_filter_push(s.last(), was_attempted());
    }
}

/// What changed between the committed expectations and this run.
#[derive(Debug)]
pub struct Diff {
    /// Tests that used to pass and now do not. Always a build failure.
    pub regressed: Vec<(String, Outcome)>,
    /// Tests that now pass and did not before. Also a build failure, because an
    /// improvement that is not committed lets the file quietly accumulate permission to
    /// fail, which is exactly what the ratchet exists to prevent.
    pub fixed: Vec<String>,
    /// Tests that are in this run but not in the expectations file.
    pub added: Vec<(String, Outcome)>,
    /// Tests that are in the expectations file but did not run.
    pub removed: Vec<String>,
    /// Tests that did not pass before and still do not, but with another
    /// outcome: a failure that now times out, a skip that now fails. The file
    /// no longer records what the run gave, so this fails the build as well.
    pub changed: Vec<(String, Outcome)>,
}

/// The views of a list of named outcomes.
pub open spec fn pair_views(v: Seq<(String, Outcome)>) -> Seq<(Seq<char>, Outcome)> {
    Seq::new(v.len(), |i: int| (v[i].0@, v[i].1))
}

/// The names of a list of entries.
pub open spec fn names_of(s: Seq<(Seq<char>, Outcome)>) -> Seq<Seq<char>> {
    Seq::new(s.len(), |i: int| s[i].0)
}

/// An entry of this run that passed before and does not now.
pub open spec fn regressed_against(before: Map<Seq<char>, Outcome>) -> spec_fn((Seq<char>, Outcome)) -> bool {
    |e: (Seq<char>, Outcome)|
        before.contains_key(e.0) && before[e.0] == Outcome::Pass && e.1 != Outcome::Pass
}

/// An entry of this run that passes now and did not before.
pub open spec fn fixed_against(before: Map<Seq<char>, Outcome>) -> spec_fn((Seq<char>, Outcome)) -> bool {
    |e: (Seq<char>, Outcome)|
        before.contains_key(e.0) && before[e.0] != Outcome::Pass && e.1 == Outcome::Pass
}

/// An entry of this run that did not pass before and does not now, with
/// another outcome than before.
pub open spec fn changed_against(before: Map<Seq<char>, Outcome>) -> spec_fn((Seq<char>, Outcome)) -> bool {
    |e: (Seq<char>, Outcome)|
        before.contains_key(e.0) && before[e.0] != Outcome::Pass && e.1 != Outcome::Pass && before[e.0]
            != e.1
}

/// An entry whose test is missing from the other run.
pub open spec fn missing_from(other: Map<Seq<char>, Outcome>) -> spec_fn((Seq<char>, Outcome)) -> bool {
    |e: (Seq<char>, Outcome)| !other.contains_key(e.0)
}

impl Diff {
    /// A difference in which nothing moved.
    pub fn new() -> (d: Self)
        ensures
            d.regressed@.len() == 0,
            d.fixed@.len() == 0,
            d.added@.len() == 0,
            d.removed@.len() == 0,
            d.changed@.len() == 0,
    {
        Diff {
            regressed: Vec::new(),
            fixed: Vec::new(),
            added: Vec::new(),
            removed: Vec::new(),
            changed: Vec::new(),
        }
    }

    /// Whether nothing at all moved.
    pub open spec fn nothing_moved(&self) -> bool {
        &&& self.regressed@.len() == 0
        &&& self.fixed@.len() == 0
        &&& self.added@.len() == 0
        &&& self.removed@.len() == 0
        &&& self.changed@.len() == 0
    }

    /// Whether anything at all moved.
    pub fn is_empty(&self) -> (b: bool)
        ensures
            b == self.nothing_moved(),
            b <==> (self.regressed@.len() == 0 && self.fixed@.len() == 0 && self.added@.len() == 0
                && self.removed@.len() == 0 && self.changed@.len() == 0),
    {
        self.regressed.len() == 0 && self.fixed.len() == 0 && self.added.len() == 0
            && self.removed.len() == 0 && self.changed.len() == 0
    }
}

impl Default for Diff {
    fn default() -> (d: Self)
        ensures
            d.nothing_moved(),
    {
        Diff::new()
    }
}

/// The difference between `expected` and `actual`, as `diff` states it.
pub open spec fn diff_spec(
    expected: Seq<(Seq<char>, Outcome)>,
    actual: Seq<(Seq<char>, Outcome)>,
) -> (
    Seq<(Seq<char>, Outcome)>,
    Seq<Seq<char>>,
    Seq<(Seq<char>, Outcome)>,
    Seq<Seq<char>>,
    Seq<(Seq<char>, Outcome)>,
) {
    let before = as_map(expected);
    let now = as_map(actual);
    (
        actual.filter(regressed_against(before)),
        names_of(actual.filter(fixed_against(before))),
        actual.filter(missing_from(before)),
        names_of(expected.filter(missing_from(now))),
        actual.filter(changed_against(before)),
    )
}

/// Whether a diff holds the lists that `diff_spec` gives.
pub open spec fn diff_is(d: Diff, expected: Seq<(Seq<char>, Outcome)>, actual: Seq<(Seq<char>, Outcome)>) -> bool {
    let s = diff_spec(expected, actual);
    &&& pair_views(d.regressed@) == s.0
    &&& crate::text::string_views(d.fixed@) == s.1
    &&& pair_views(d.added@) == s.2
    &&& crate::text::string_views(d.removed@) == s.3
    &&& pair_views(d.changed@) == s.4
}

/// Compare a run against the committed expectations.
///
/// Each list keeps the order of the run it is drawn from: `regressed`, `fixed`,
/// `changed` and `added` in the key order of `actual`, `removed` in that of
/// `expected`.
pub fn diff(expected: &Expectations, actual: &Expectations) -> (d: Diff)
    ensures
        diff_is(d, expected.results@, actual.results@),
{
    let mut out = Diff::new();
    let ghost before = expected.results.map();
    let ghost now = actual.results.map();
    let ghost a = actual.results@;
    let ghost e = expected.results@;
    let n = actual.results.len();
    for i in 0..n
        invariant
            n == a.len(),
            a == actual.results@,
            e == expected.results@,
            before == expected.results.map(),
            before == as_map(e),
            now == as_map(a),
            pair_views(out.regressed@) == a.take(i as int).filter(regressed_against(before)),
            crate::text::string_views(out.fixed@) == names_of(a.take(i as int).filter(fixed_against(before))),
            pair_views(out.added@) == a.take(i as int).filter(missing_from(before)),
            pair_views(out.changed@) == a.take(i as int).filter(changed_against(before)),
            out.removed@.len() == 0,
    {
        let test = actual.results.key_at(i);
        let now_outcome = *actual.results.value_at(i);
        let ghost entry = a[i as int];
        proof {
            assert(a.take(i + 1) =~= a.take(i as int).push(entry));
            a.take(i as int).lemma_filter_push(entry, regressed_against(before));
            a.take(i as int).lemma_filter_push(entry, fixed_against(before));
            a.take(i as int).lemma_filter_push(entry, missing_from(before));
            a.take(i as int).lemma_filter_push(entry, changed_against(before));
        }
        let ghost old_changed = pair_views(out.changed@);
        let ghost old_regressed = pair_views(out.regressed@);
        let ghost old_fixed = crate::text::string_views(out.fixed@);
        let ghost old_added = pair_views(out.added@);
        match expected.results.get(test.as_str()) {
            None => {
                out.added.push((test.clone(), now_outcome));
                proof {
                    assert(pair_views(out.added@) =~= old_added.push(entry));
                }
            },
            Some(before_outcome) => {
                let b = *before_outcome;
                if b == now_outcome {
                } else if b == Outcome::Pass {
                    out.regressed.push((test.clone(), now_outcome));
                    proof {
                        assert(pair_views(out.regressed@) =~= old_regressed.push(entry));
                    }
                } else if now_outcome == Outcome::Pass {
                    out.fixed.push(test.clone());
                    proof {
                        let f = a.take(i as int).filter(fixed_against(before));
                        assert(names_of(f.push(entry)) =~= names_of(f).push(entry.0));
                        assert(crate::text::string_views(out.fixed@) =~= old_fixed.push(entry.0));
                    }
                } else {
                    out.changed.push((test.clone(), now_outcome));
                    proof {
                        assert(pair_views(out.changed@) =~= old_changed.push(entry));
                    }
                }
            },
        }
    }
    proof {
        assert(a.take(n as int) =~= a);
    }
    let m = expected.results.len();
    for j in 0..m
        invariant
            m == e.len(),
            e == expected.results@,
            a == actual.results@,
            now == as_map(a),
            now == actual.results.map(),
            before == as_map(e),
            pair_views(out.regressed@) == a.filter(regressed_against(before)),
            crate::text::string_views(out.fixed@) == names_of(a.filter(fixed_against(before))),
            pair_views(out.added@) == a.filter(missing_from(before)),
            pair_views(out.changed@) == a.filter(changed_against(before)),
            crate::text::string_views(out.removed@) == names_of(e.take(j as int).filter(missing_from(now))),
    {
        let test = expected.results.key_at(j);
        let ghost entry = e[j as int];
        proof {
            assert(e.take(j + 1) =~= e.take(j as int).push(entry));
            e.take(j as int).lemma_filter_push(entry, missing_from(now));
        }
        let ghost old_removed = crate::text::string_views(out.removed@);
        if !actual.results.contains_key(test.as_str()) {
            out.removed.push(test.clone());
            proof {
                let f = e.take(j as int).filter(missing_from(now));
                assert(names_of(f.push(entry)) =~= names_of(f).push(entry.0));
                assert(crate::text::string_views(out.removed@) =~= old_removed.push(entry.0));
            }
        }
    }
    proof {
        assert(e.take(m as int) =~= e);
    }
    out
}


// ---------------------------------------------------------------------------
// Laws of the ratchet
// ---------------------------------------------------------------------------

/// A filter is empty exactly when no element meets the predicate.
pub proof fn lemma_filter_empty<A>(s: Seq<A>, p: spec_fn(A) -> bool)
    ensures
        (s.filter(p).len() == 0) <==> (forall|i: int| 0 <= i < s.len() ==> !p(#[trigger] s[i])),
    decreases s.len(),
{
    if s.len() > 0 {
        let r = s.drop_last();
        lemma_filter_empty(r, p);
        assert(s =~= r.push(s.last()));
        r.lemma_filter_push(s.last(), p);
        if forall|i: int| 0 <= i < s.len() ==> !p(#[trigger] s[i]) {
            assert forall|i: int| 0 <= i < r.len() implies !p(#[trigger] r[i]) by {
                assert(r[i] == s[i]);
            }
            assert(!p(s[s.len() - 1]));
        }
        if s.filter(p).len() == 0 {
            assert forall|i: int| 0 <= i < s.len() implies !p(#[trigger] s[i]) by {
                if i < s.len() - 1 {
                    assert(r[i] == s[i]);
                }
            }
        }
    } else {
        reveal(Seq::filter);
    }
}

/// Comparing a run with itself moves nothing: an unchanged run produces no diff.
pub proof fn lemma_unchanged_run_produces_no_diff(run: Seq<(Seq<char>, Outcome)>)
    requires
        keys_ascending(run),
    ensures
        diff_spec(run, run).0.len() == 0,
        diff_spec(run, run).1.len() == 0,
        diff_spec(run, run).2.len() == 0,
        diff_spec(run, run).3.len() == 0,
        diff_spec(run, run).4.len() == 0,
{
    lemma_diff_empty_exactly_when_runs_equal(run, run);
}

/// A diff is empty exactly when the two runs hold the same tests with the same
/// outcomes: the ratchet fails on any difference at all.
pub proof fn lemma_diff_empty_exactly_when_runs_equal(
    expected: Seq<(Seq<char>, Outcome)>,
    actual: Seq<(Seq<char>, Outcome)>,
)
    requires
        keys_ascending(expected),
        keys_ascending(actual),
    ensures
        ({
            let d = diff_spec(expected, actual);
            d.0.len() == 0 && d.1.len() == 0 && d.2.len() == 0 && d.3.len() == 0 && d.4.len() == 0
        }) <==> as_map(expected) == as_map(actual),
{
    let before = as_map(expected);
    let now = as_map(actual);
    let d = diff_spec(expected, actual);
    lemma_filter_empty(actual, regressed_against(before));
    lemma_filter_empty(actual, fixed_against(before));
    lemma_filter_empty(actual, missing_from(before));
    lemma_filter_empty(actual, changed_against(before));
    lemma_filter_empty(expected, missing_from(now));
    if before == now {
        assert forall|i: int| 0 <= i < actual.len() implies !regressed_against(before)(#[trigger] actual[i])
            && !fixed_against(before)(actual[i]) && !missing_from(before)(actual[i])
            && !changed_against(before)(actual[i]) by {
            lemma_key_index(actual, i);
        }
        assert forall|i: int| 0 <= i < expected.len() implies !missing_from(now)(#[trigger] expected[i]) by {
            lemma_key_index(expected, i);
        }
    }
    if d.0.len() == 0 && d.1.len() == 0 && d.2.len() == 0 && d.3.len() == 0 && d.4.len() == 0 {
        assert(names_of(expected.filter(missing_from(now))).len() == 0);
        assert forall|k: Seq<char>| #[trigger] before.contains_key(k) <==> now.contains_key(k) by {
            if before.contains_key(k) {
                let i = key_index(expected, k);
                assert(!missing_from(now)(expected[i]));
            }
            if now.contains_key(k) {
                let i = key_index(actual, k);
                assert(!missing_from(before)(actual[i]));
            }
        }
        assert forall|k: Seq<char>| #[trigger] before.contains_key(k) implies before[k] == now[k] by {
            assert(now.contains_key(k));
            let i = key_index(actual, k);
            lemma_key_index(actual, i);
            assert(!regressed_against(before)(actual[i]));
            assert(!fixed_against(before)(actual[i]));
            assert(!changed_against(before)(actual[i]));
        }
        assert(before =~= now);
    }
}

/// The ratchet reports nothing exactly when the run holds the same tests with
/// the same outcomes as the expectations: a test that appeared, disappeared,
/// or changed its outcome in any way makes the diff non-empty.
pub proof fn lemma_diff_reports_nothing_exactly_when_runs_agree(
    d: Diff,
    expected: Seq<(Seq<char>, Outcome)>,
    actual: Seq<(Seq<char>, Outcome)>,
)
    requires
        keys_ascending(expected),
        keys_ascending(actual),
        diff_is(d, expected, actual),
    ensures
        d.nothing_moved() <==> as_map(expected) == as_map(actual),
{
    lemma_diff_empty_exactly_when_runs_equal(expected, actual);
    let s = diff_spec(expected, actual);
    assert(pair_views(d.regressed@).len() == d.regressed@.len());
    assert(crate::text::string_views(d.fixed@).len() == d.fixed@.len());
    assert(pair_views(d.added@).len() == d.added@.len());
    assert(crate::text::string_views(d.removed@).len() == d.removed@.len());
    assert(pair_views(d.changed@).len() == d.changed@.len());
    assert(names_of(expected.filter(missing_from(as_map(actual)))).len() == expected.filter(
        missing_from(as_map(actual)),
    ).len());
    assert(names_of(actual.filter(fixed_against(as_map(expected)))).len() == actual.filter(
        fixed_against(as_map(expected)),
    ).len());
}

/// A test of the expectations that is missing from the run is always
/// reported as removed, so the diff is not empty.
pub proof fn lemma_missing_test_is_reported(
    d: Diff,
    expected: Seq<(Seq<char>, Outcome)>,
    actual: Seq<(Seq<char>, Outcome)>,
    test: Seq<char>,
)
    requires
        keys_ascending(expected),
        keys_ascending(actual),
        diff_is(d, expected, actual),
        as_map(expected).contains_key(test),
        !as_map(actual).contains_key(test),
    ensures
        !d.nothing_moved(),
        crate::text::string_views(d.removed@).contains(test),
{
    lemma_diff_reports_nothing_exactly_when_runs_agree(d, expected, actual);
    let i = key_index(expected, test);
    lemma_key_index(expected, i);
    let f = expected.filter(missing_from(as_map(actual)));
    expected.lemma_filter_contains(missing_from(as_map(actual)), i);
    let j = choose|j: int| 0 <= j < f.len() && f[j] == expected[i];
    assert(names_of(f)[j] == test);
}

/// Swapping the two runs swaps what was added with what was removed: the
/// tests new in `actual` against `expected` are the tests gone from `expected`
/// against `actual`, in the same order.
pub proof fn lemma_swapping_runs_swaps_added_and_removed(
    expected: Seq<(Seq<char>, Outcome)>,
    actual: Seq<(Seq<char>, Outcome)>,
)
    ensures
        names_of(diff_spec(expected, actual).2) == diff_spec(actual, expected).3,
        names_of(diff_spec(actual, expected).2) == diff_spec(expected, actual).3,
{
}

/// Names strictly ascending, so that no name occurs twice.
pub open spec fn strictly_ascending_names(s: Seq<Seq<char>>) -> bool {
    forall|i: int, j: int| 0 <= i < j < s.len() ==> str_lt(#[trigger] s[i], #[trigger] s[j])
}

/// Filtering entries in ascending key order keeps them in ascending key order.
pub proof fn lemma_filter_keeps_ascending(
    s: Seq<(Seq<char>, Outcome)>,
    p: spec_fn((Seq<char>, Outcome)) -> bool,
)
    requires
        keys_ascending(s),
    ensures
        keys_ascending(s.filter(p)),
        strictly_ascending_names(names_of(s.filter(p))),
    decreases s.len(),
{
    if s.len() > 0 {
        let t = s.drop_last();
        let x = s.last();
        assert forall|i: int, j: int| 0 <= i < j < t.len() implies str_lt(#[trigger] t[i].0, #[trigger] t[j].0) by {
            assert(t[i] == s[i] && t[j] == s[j]);
        }
        lemma_filter_keeps_ascending(t, p);
        assert(s =~= t.push(x));
        t.lemma_filter_push(x, p);
        let f = t.filter(p);
        if p(x) {
            let g = f.push(x);
            assert forall|i: int, j: int| 0 <= i < j < g.len() implies str_lt(#[trigger] g[i].0, #[trigger] g[j].0) by {
                if j == f.len() {
                    assert(f.contains(f[i]));
                    t.lemma_filter_contains_rev(p, f[i]);
                    let k = choose|k: int| 0 <= k < t.len() && t[k] == f[i];
                    assert(str_lt(s[k].0, s[s.len() - 1].0));
                } else {
                    assert(g[i] == f[i] && g[j] == f[j]);
                }
            }
        }
    } else {
        reveal(Seq::filter);
    }
    let f = s.filter(p);
    assert forall|i: int, j: int| 0 <= i < j < names_of(f).len() implies str_lt(
        #[trigger] names_of(f)[i],
        #[trigger] names_of(f)[j],
    ) by {
        assert(str_lt(f[i].0, f[j].0));
    }
}

/// Two sequences of names in strictly ascending order with the same names are
/// the same sequence.
pub proof fn lemma_ascending_names_unique(a: Seq<Seq<char>>, b: Seq<Seq<char>>)
    requires
        strictly_ascending_names(a),
        strictly_ascending_names(b),
        forall|x: Seq<char>| a.contains(x) <==> b.contains(x),
    ensures
        a == b,
    decreases a.len(),
{
    if a.len() == 0 {
        if b.len() > 0 {
            assert(b.contains(b[0]));
        }
        assert(a =~= b);
    } else {
        assert(a.contains(a.last()));
        assert(b.len() > 0);
        assert(b.contains(b.last()));
        let x = a.last();
        let y = b.last();
        let i = choose|i: int| 0 <= i < a.len() && a[i] == y;
        let j = choose|j: int| 0 <= j < b.len() && b[j] == x;
        if x != y {
            assert(str_lt(a[i], a[a.len() - 1]));
            assert(str_lt(b[j], b[b.len() - 1]));
            lemma_str_lt_total(x, y);
        }
        let a2 = a.drop_last();
        let b2 = b.drop_last();
        assert forall|z: Seq<char>| a2.contains(z) <==> b2.contains(z) by {
            if a2.contains(z) {
                let k = choose|k: int| 0 <= k < a2.len() && a2[k] == z;
                assert(str_lt(a[k], a[a.len() - 1]));
                lemma_str_lt_irreflexive(z);
                assert(b.contains(z));
                let l = choose|l: int| 0 <= l < b.len() && b[l] == z;
                assert(b2[l] == z);
            }
            if b2.contains(z) {
                let k = choose|k: int| 0 <= k < b2.len() && b2[k] == z;
                assert(str_lt(b[k], b[b.len() - 1]));
                lemma_str_lt_irreflexive(z);
                assert(a.contains(z));
                let l = choose|l: int| 0 <= l < a.len() && a[l] == z;
                assert(a2[l] == z);
            }
        }
        assert forall|p: int, q: int| 0 <= p < q < a2.len() implies str_lt(#[trigger] a2[p], #[trigger] a2[q]) by {
            assert(str_lt(a[p], a[q]));
        }
        assert forall|p: int, q: int| 0 <= p < q < b2.len() implies str_lt(#[trigger] b2[p], #[trigger] b2[q]) by {
            assert(str_lt(b[p], b[q]));
        }
        lemma_ascending_names_unique(a2, b2);
        assert(a =~= a2.push(x));
        assert(b =~= b2.push(y));
    }
}

/// Swapping the two runs swaps what regressed with what was fixed: the tests
/// that stopped passing from `expected` to `actual` are, in the same order,
/// the tests that started passing from `actual` to `expected`, and the other
/// way round.
pub proof fn lemma_swapping_runs_swaps_regressed_and_fixed(
    expected: Seq<(Seq<char>, Outcome)>,
    actual: Seq<(Seq<char>, Outcome)>,
)
    requires
        keys_ascending(expected),
        keys_ascending(actual),
    ensures
        names_of(diff_spec(expected, actual).0) == diff_spec(actual, expected).1,
        diff_spec(expected, actual).1 == names_of(diff_spec(actual, expected).0),
{
    lemma_regressed_names_are_fixed_names(expected, actual);
    lemma_regressed_names_are_fixed_names(actual, expected);
}

/// Swapping the two runs keeps the tests that changed between two ways of not
/// passing, in the same order.
pub proof fn lemma_swapping_runs_keeps_changed(
    expected: Seq<(Seq<char>, Outcome)>,
    actual: Seq<(Seq<char>, Outcome)>,
)
    requires
        keys_ascending(expected),
        keys_ascending(actual),
    ensures
        names_of(diff_spec(expected, actual).4) == names_of(diff_spec(actual, expected).4),
{
    let before = as_map(expected);
    let now = as_map(actual);
    let c1 = actual.filter(changed_against(before));
    let c2 = expected.filter(changed_against(now));
    lemma_filter_keeps_ascending(actual, changed_against(before));
    lemma_filter_keeps_ascending(expected, changed_against(now));
    assert forall|k: Seq<char>| names_of(c1).contains(k) <==> names_of(c2).contains(k) by {
        if names_of(c1).contains(k) {
            let i = choose|i: int| 0 <= i < names_of(c1).len() && names_of(c1)[i] == k;
            actual.lemma_filter_pred(changed_against(before), i);
            assert(c1.contains(c1[i]));
            actual.lemma_filter_contains_rev(changed_against(before), c1[i]);
            let ai = choose|ai: int| 0 <= ai < actual.len() && actual[ai] == c1[i];
            lemma_key_index(actual, ai);
            let ei = key_index(expected, k);
            lemma_key_index(expected, ei);
            expected.lemma_filter_contains(changed_against(now), ei);
            let fi = choose|fi: int| 0 <= fi < c2.len() && c2[fi] == expected[ei];
            assert(names_of(c2)[fi] == k);
        }
        if names_of(c2).contains(k) {
            let i = choose|i: int| 0 <= i < names_of(c2).len() && names_of(c2)[i] == k;
            expected.lemma_filter_pred(changed_against(now), i);
            assert(c2.contains(c2[i]));
            expected.lemma_filter_contains_rev(changed_against(now), c2[i]);
            let ei = choose|ei: int| 0 <= ei < expected.len() && expected[ei] == c2[i];
            lemma_key_index(expected, ei);
            let ai = key_index(actual, k);
            lemma_key_index(actual, ai);
            actual.lemma_filter_contains(changed_against(before), ai);
            let ri = choose|ri: int| 0 <= ri < c1.len() && c1[ri] == actual[ai];
            assert(names_of(c1)[ri] == k);
        }
    }
    lemma_ascending_names_unique(names_of(c1), names_of(c2));
}

/// The names that regressed one way are, in order, the names fixed the other
/// way.
proof fn lemma_regressed_names_are_fixed_names(
    expected: Seq<(Seq<char>, Outcome)>,
    actual: Seq<(Seq<char>, Outcome)>,
)
    requires
        keys_ascending(expected),
        keys_ascending(actual),
    ensures
        names_of(diff_spec(expected, actual).0) == diff_spec(actual, expected).1,
{
    let before = as_map(expected);
    let now = as_map(actual);
    let r = actual.filter(regressed_against(before));
    let f = expected.filter(fixed_against(now));
    lemma_filter_keeps_ascending(actual, regressed_against(before));
    lemma_filter_keeps_ascending(expected, fixed_against(now));
    assert forall|k: Seq<char>| names_of(r).contains(k) <==> names_of(f).contains(k) by {
        if names_of(r).contains(k) {
            let i = choose|i: int| 0 <= i < names_of(r).len() && names_of(r)[i] == k;
            actual.lemma_filter_pred(regressed_against(before), i);
            assert(actual.filter(regressed_against(before)).contains(r[i]));
            actual.lemma_filter_contains_rev(regressed_against(before), r[i]);
            let ai = choose|ai: int| 0 <= ai < actual.len() && actual[ai] == r[i];
            lemma_key_index(actual, ai);
            let ei = key_index(expected, k);
            lemma_key_index(expected, ei);
            expected.lemma_filter_contains(fixed_against(now), ei);
            let fi = choose|fi: int| 0 <= fi < f.len() && f[fi] == expected[ei];
            assert(names_of(f)[fi] == k);
        }
        if names_of(f).contains(k) {
            let i = choose|i: int| 0 <= i < names_of(f).len() && names_of(f)[i] == k;
            expected.lemma_filter_pred(fixed_against(now), i);
            assert(expected.filter(fixed_against(now)).contains(f[i]));
            expected.lemma_filter_contains_rev(fixed_against(now), f[i]);
            let ei = choose|ei: int| 0 <= ei < expected.len() && expected[ei] == f[i];
            lemma_key_index(expected, ei);
            let ai = key_index(actual, k);
            lemma_key_index(actual, ai);
            actual.lemma_filter_contains(regressed_against(before), ai);
            let ri = choose|ri: int| 0 <= ri < r.len() && r[ri] == actual[ai];
            assert(names_of(r)[ri] == k);
        }
    }
    lemma_ascending_names_unique(names_of(r), names_of(f));
}

} // verus!
