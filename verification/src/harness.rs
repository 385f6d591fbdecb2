//! What a whole run says about itself: the runtime's label, the progress
//! stream, and the account of a changed expectations file.

use vstd::prelude::*;
use crate::outcome::{Diff, Outcome, glyph_of, pair_views};
use crate::report::outcome_name;
use crate::text::{chars_of, decimal, decimal_chars, string_of, string_views, trim, trim_chars};

verus! {

/// The label of a runtime: its file name, and the version it reports when it
/// reports one.
pub open spec fn runtime_label_spec(file_name: Option<Seq<char>>, version_output: Seq<char>) -> Seq<char> {
    let name = match file_name {
        Some(n) => n,
        None => "runtime"@,
    };
    let version = trim(version_output);
    if version.len() == 0 {
        name
    } else {
        name + " "@ + version
    }
}

/// The label of a runtime, from its file name (`None` when it has none that
/// is valid UTF-8) and what it printed for `--version`.
pub fn runtime_label(file_name: Option<&str>, version_output: &str) -> (s: String)
    ensures
        s@ == runtime_label_spec(
            match file_name {
                Some(n) => Some(n@),
                None => None,
            },
            version_output@,
        ),
{
    let mut name = match file_name {
        Some(n) => chars_of(n),
        None => chars_of("runtime"),
    };
    let mut version = trim_chars(&chars_of(version_output));
    if version.len() == 0 {
        string_of(&name)
    } else {
        let mut space = chars_of(" ");
        name.append(&mut space);
        name.append(&mut version);
        string_of(&name)
    }
}

/// How many tests a progress line covers.
pub const PROGRESS_LINE: usize = 80;

/// What the progress stream prints when the `done`-th of `total` tests
/// finishes: its glyph, and at the end of every line the count so far.
pub open spec fn progress_spec(o: Outcome, done: nat, total: nat) -> Seq<char> {
    if done % (PROGRESS_LINE as nat) == 0 {
        seq![glyph_of(o)] + " "@ + decimal(done) + "/"@ + decimal(total) + "\n"@
    } else {
        seq![glyph_of(o)]
    }
}

/// What the progress stream prints when the `done`-th of `total` tests finishes.
pub fn progress(o: Outcome, done: usize, total: usize) -> (s: String)
    ensures
        s@ == progress_spec(o, done as nat, total as nat),
{
    let mut v: Vec<char> = Vec::new();
    v.push(o.glyph());
    if done % PROGRESS_LINE == 0 {
        let mut a = chars_of(" ");
        let mut b = decimal_chars(done as u64);
        let mut c = chars_of("/");
        let mut d = decimal_chars(total as u64);
        let mut e = chars_of("\n");
        v.append(&mut a);
        v.append(&mut b);
        v.append(&mut c);
        v.append(&mut d);
        v.append(&mut e);
    }
    proof {
        assert(v@ =~= progress_spec(o, done as nat, total as nat));
    }
    string_of(&v)
}

/// The closing advice when the expectations file is out of date.
pub open spec fn out_of_date_advice() -> Seq<char> {
    "The expectations file is out of date. If these changes are intended, rerun with --bless and commit the result."@
}

/// The line for a test that regressed.
pub open spec fn regressed_line(e: (Seq<char>, Outcome)) -> Seq<char> {
    "regressed: "@ + e.0 + " is now "@ + outcome_name(e.1)
}

/// The line for a test that was fixed.
pub open spec fn fixed_line(t: Seq<char>) -> Seq<char> {
    "fixed: "@ + t + " now passes and the expectations file has not been updated"@
}

/// The line for a test that moved between two ways of not passing.
pub open spec fn changed_line(e: (Seq<char>, Outcome)) -> Seq<char> {
    "changed: "@ + e.0 + " is now "@ + outcome_name(e.1)
}

/// The line for a test that is new.
pub open spec fn added_line(e: (Seq<char>, Outcome)) -> Seq<char> {
    "new: "@ + e.0 + " is "@ + outcome_name(e.1)
}

/// The line for a test that is gone.
pub open spec fn removed_line(t: Seq<char>) -> Seq<char> {
    "gone: "@ + t + " did not run"@
}

/// The account of a difference, one line per change, then a blank line and
/// the advice.
pub open spec fn diff_lines_spec(d: Diff) -> Seq<Seq<char>> {
    pair_views(d.regressed@).map_values(|e: (Seq<char>, Outcome)| regressed_line(e))
        + string_views(d.fixed@).map_values(|t: Seq<char>| fixed_line(t))
        + pair_views(d.changed@).map_values(|e: (Seq<char>, Outcome)| changed_line(e))
        + pair_views(d.added@).map_values(|e: (Seq<char>, Outcome)| added_line(e))
        + string_views(d.removed@).map_values(|t: Seq<char>| removed_line(t)) + seq![
        Seq::<char>::empty(),
        out_of_date_advice(),
    ]
}

/// The name of an outcome as `Debug` prints it.
fn outcome_text(o: Outcome) -> (v: Vec<char>)
    ensures
        v@ == outcome_name(o),
{
    match o {
        Outcome::Pass => chars_of("Pass"),
        Outcome::Fail => chars_of("Fail"),
        Outcome::Timeout => chars_of("Timeout"),
        Outcome::Skipped => chars_of("Skipped"),
    }
}

/// A line made of `a`, then `b`, then `c`.
fn line_of(a: &str, b: &str, c: Vec<char>) -> (s: String)
    ensures
        s@ == a@ + b@ + c@,
{
    let mut v = chars_of(a);
    let mut w = chars_of(b);
    let mut c = c;
    v.append(&mut w);
    v.append(&mut c);
    string_of(&v)
}

/// Account for a difference between the expectations file and this run, one
/// line per change, then a blank line and the advice to bless the run.
pub fn diff_lines(d: &Diff) -> (lines: Vec<String>)
    ensures
        string_views(lines@) == diff_lines_spec(*d),
{
    let mut lines: Vec<String> = Vec::new();
    let ghost s1 = pair_views(d.regressed@).map_values(|e: (Seq<char>, Outcome)| regressed_line(e));
    let ghost s2 = string_views(d.fixed@).map_values(|t: Seq<char>| fixed_line(t));
    let ghost s3 = pair_views(d.added@).map_values(|e: (Seq<char>, Outcome)| added_line(e));
    let ghost s4 = string_views(d.removed@).map_values(|t: Seq<char>| removed_line(t));
    let ghost s5 = pair_views(d.changed@).map_values(|e: (Seq<char>, Outcome)| changed_line(e));
    for i in 0..d.regressed.len()
        invariant
            string_views(lines@) == s1.take(i as int),
            s1 == pair_views(d.regressed@).map_values(|e: (Seq<char>, Outcome)| regressed_line(e)),
    {
        let e = &d.regressed[i];
        let ghost before = string_views(lines@);
        let line = line_of("regressed: ", e.0.as_str(), {
            let mut v = chars_of(" is now ");
            let mut o = outcome_text(e.1);
            v.append(&mut o);
            v
        });
        lines.push(line);
        proof {
            assert(pair_views(d.regressed@)[i as int] == (e.0@, e.1));
            assert(s1[i as int] == regressed_line(pair_views(d.regressed@)[i as int]));
            assert(line@ =~= s1[i as int]);
            assert(string_views(lines@) =~= before.push(line@));
            assert(s1.take(i + 1) =~= s1.take(i as int).push(s1[i as int]));
        }
    }
    proof {
        assert(s1.take(d.regressed@.len() as int) =~= s1);
    }
    let ghost p1 = string_views(lines@);
    for i in 0..d.fixed.len()
        invariant
            string_views(lines@) == p1 + s2.take(i as int),
            s2 == string_views(d.fixed@).map_values(|t: Seq<char>| fixed_line(t)),
    {
        let ghost before = string_views(lines@);
        let line = line_of("fixed: ", d.fixed[i].as_str(), chars_of(" now passes and the expectations file has not been updated"));
        lines.push(line);
        proof {
            assert(string_views(d.fixed@)[i as int] == d.fixed@[i as int]@);
            assert(s2[i as int] == fixed_line(string_views(d.fixed@)[i as int]));
            assert(line@ =~= s2[i as int]);
            assert(string_views(lines@) =~= before.push(line@));
            assert(s2.take(i + 1) =~= s2.take(i as int).push(s2[i as int]));
            assert(p1 + s2.take(i + 1) =~= (p1 + s2.take(i as int)).push(s2[i as int]));
        }
    }
    proof {
        assert(s2.take(d.fixed@.len() as int) =~= s2);
    }
    let ghost pc = string_views(lines@);
    for i in 0..d.changed.len()
        invariant
            string_views(lines@) == pc + s5.take(i as int),
            s5 == pair_views(d.changed@).map_values(|e: (Seq<char>, Outcome)| changed_line(e)),
    {
        let e = &d.changed[i];
        let ghost before = string_views(lines@);
        let line = line_of("changed: ", e.0.as_str(), {
            let mut v = chars_of(" is now ");
            let mut o = outcome_text(e.1);
            v.append(&mut o);
            v
        });
        lines.push(line);
        proof {
            assert(pair_views(d.changed@)[i as int] == (e.0@, e.1));
            assert(s5[i as int] == changed_line(pair_views(d.changed@)[i as int]));
            assert(line@ =~= s5[i as int]);
            assert(string_views(lines@) =~= before.push(line@));
            assert(s5.take(i + 1) =~= s5.take(i as int).push(s5[i as int]));
            assert(pc + s5.take(i + 1) =~= (pc + s5.take(i as int)).push(s5[i as int]));
        }
    }
    proof {
        assert(s5.take(d.changed@.len() as int) =~= s5);
    }
    let ghost p2 = string_views(lines@);
    for i in 0..d.added.len()
        invariant
            string_views(lines@) == p2 + s3.take(i as int),
            s3 == pair_views(d.added@).map_values(|e: (Seq<char>, Outcome)| added_line(e)),
    {
        let e = &d.added[i];
        let ghost before = string_views(lines@);
        let line = line_of("new: ", e.0.as_str(), {
            let mut v = chars_of(" is ");
            let mut o = outcome_text(e.1);
            v.append(&mut o);
            v
        });
        lines.push(line);
        proof {
            assert(pair_views(d.added@)[i as int] == (e.0@, e.1));
            assert(s3[i as int] == added_line(pair_views(d.added@)[i as int]));
            assert(line@ =~= s3[i as int]);
            assert(string_views(lines@) =~= before.push(line@));
            assert(s3.take(i + 1) =~= s3.take(i as int).push(s3[i as int]));
            assert(p2 + s3.take(i + 1) =~= (p2 + s3.take(i as int)).push(s3[i as int]));
        }
    }
    proof {
        assert(s3.take(d.added@.len() as int) =~= s3);
    }
    let ghost p3 = string_views(lines@);
    for i in 0..d.removed.len()
        invariant
            string_views(lines@) == p3 + s4.take(i as int),
            s4 == string_views(d.removed@).map_values(|t: Seq<char>| removed_line(t)),
    {
        let ghost before = string_views(lines@);
        let line = line_of("gone: ", d.removed[i].as_str(), chars_of(" did not run"));
        lines.push(line);
        proof {
            assert(string_views(d.removed@)[i as int] == d.removed@[i as int]@);
            assert(s4[i as int] == removed_line(string_views(d.removed@)[i as int]));
            assert(line@ =~= s4[i as int]);
            assert(string_views(lines@) =~= before.push(line@));
            assert(s4.take(i + 1) =~= s4.take(i as int).push(s4[i as int]));
            assert(p3 + s4.take(i + 1) =~= (p3 + s4.take(i as int)).push(s4[i as int]));
        }
    }
    proof {
        assert(s4.take(d.removed@.len() as int) =~= s4);
    }
    let ghost p4 = string_views(lines@);
    lines.push(String::new());
    lines.push(String::from_str(
        "The expectations file is out of date. If these changes are intended, rerun with --bless and commit the result.",
    ));
    proof {
        assert(string_views(lines@) =~= p4 + seq![Seq::<char>::empty(), out_of_date_advice()]);
        assert(string_views(lines@) =~= diff_lines_spec(*d));
    }
    lines
}

} // verus!
