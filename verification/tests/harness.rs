use katsu_compat::harness::{diff_lines, progress, runtime_label};
use katsu_compat::outcome::{Diff, Outcome};

#[test]
fn a_runtime_is_labelled_with_its_version() {
    assert_eq!(runtime_label(Some("node"), "v24.18.0\n"), "node v24.18.0");
    assert_eq!(runtime_label(Some("katsu"), "  \n"), "katsu");
    assert_eq!(runtime_label(None, ""), "runtime");
}

#[test]
fn the_progress_stream_breaks_every_eighty_tests() {
    assert_eq!(progress(Outcome::Fail, 3, 100), "F");
    assert_eq!(progress(Outcome::Pass, 80, 100), ". 80/100\n");
    assert_eq!(progress(Outcome::Skipped, 160, 4000), "s 160/4000\n");
}

#[test]
fn a_changed_run_is_explained_line_by_line() {
    let d = Diff {
        regressed: vec![("a.js".into(), Outcome::Timeout)],
        fixed: vec!["b.js".into()],
        added: vec![("c.js".into(), Outcome::Pass)],
        removed: vec!["d.js".into()],
        changed: vec![("e.js".into(), Outcome::Skipped)],
    };
    assert_eq!(
        diff_lines(&d),
        vec![
            "regressed: a.js is now Timeout".to_string(),
            "fixed: b.js now passes and the expectations file has not been updated".to_string(),
            "changed: e.js is now Skipped".to_string(),
            "new: c.js is Pass".to_string(),
            "gone: d.js did not run".to_string(),
            String::new(),
            "The expectations file is out of date. If these changes are intended, rerun with --bless and commit the result.".to_string(),
        ]
    );
}
