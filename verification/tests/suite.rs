use katsu_compat::suite::{parse_flags, test_name, version_from_header, Test};
use katsu_compat::sort::{sort_results, sort_tests};
use katsu_compat::outcome::{Outcome, TestResult};

#[test]
fn flags_are_read_from_the_directive_node_uses() {
    let source = "'use strict';\n// Flags: --expose-internals --no-warnings\nrequire('x');";
    assert_eq!(parse_flags(source), vec!["--expose-internals", "--no-warnings"]);
}

#[test]
fn more_than_one_directive_accumulates() {
    let source = "// Flags: --a\n// Flags: --b\n";
    assert_eq!(parse_flags(source), vec!["--a", "--b"]);
}

#[test]
fn a_file_with_no_directive_has_no_flags() {
    assert!(parse_flags("console.log(1);").is_empty());
}

#[test]
fn a_directive_below_the_header_is_not_read() {
    let source = format!("{}// Flags: --late\n", "\n".repeat(60));
    assert!(parse_flags(&source).is_empty());
}

#[test]
fn an_indented_directive_on_the_last_header_line_is_read() {
    let source = format!("{}   // Flags:\t--x   --y\r\n// Flags: --z\n", "\n".repeat(39));
    assert_eq!(parse_flags(&source), vec!["--x", "--y"]);
}

#[test]
fn only_scripts_named_test_are_tests() {
    assert_eq!(test_name(Some("js"), Some("test-fs-a.js"), "test\\parallel\\test-fs-a.js", None), Some("test/parallel/test-fs-a.js".to_string()));
    assert_eq!(test_name(Some("mjs"), Some("test-esm.mjs"), "test/es-module/test-esm.mjs", None), Some("test/es-module/test-esm.mjs".to_string()));
    assert_eq!(test_name(Some("cjs"), Some("test-x.cjs"), "x/test-x.cjs", None), Some("x/test-x.cjs".to_string()));
    assert_eq!(test_name(Some("json"), Some("test-fs-a.json"), "a", None), None);
    assert_eq!(test_name(None, Some("test-fs"), "a", None), None);
    assert_eq!(test_name(Some("js"), Some("common.js"), "test/parallel/common.js", None), None);
    assert_eq!(test_name(Some("js"), None, "a", None), None);
}

#[test]
fn a_filter_keeps_only_names_that_contain_it() {
    assert_eq!(test_name(Some("js"), Some("test-fs-a.js"), "test/parallel/test-fs-a.js", Some("fs-")), Some("test/parallel/test-fs-a.js".to_string()));
    assert_eq!(test_name(Some("js"), Some("test-fs-a.js"), "test/parallel/test-fs-a.js", Some("http")), None);
}

#[test]
fn the_version_comes_from_the_header_defines() {
    let header = "#ifndef SRC_NODE_VERSION_H_\n#define NODE_MAJOR_VERSION 24\n#define NODE_MINOR_VERSION 18\n#define NODE_PATCH_VERSION 0\n#define NODE_MAJOR_VERSION 99\n";
    assert_eq!(version_from_header(header), "nodejs/node v24.18.0");
    assert_eq!(version_from_header("#define NODE_MAJOR_VERSION 24\n"), "nodejs/node (version unknown)");
    assert_eq!(version_from_header(""), "nodejs/node (version unknown)");
}

#[test]
fn results_are_sorted_by_test_name_keeping_ties_in_run_order() {
    let results = vec![
        TestResult { test: "b.js".into(), outcome: Outcome::Pass, detail: "first b".into() },
        TestResult { test: "a.js".into(), outcome: Outcome::Fail, detail: String::new() },
        TestResult { test: "b.js".into(), outcome: Outcome::Fail, detail: "second b".into() },
        TestResult { test: "B.js".into(), outcome: Outcome::Pass, detail: String::new() },
    ];
    let sorted = sort_results(results);
    let names: Vec<&str> = sorted.iter().map(|r| r.test.as_str()).collect();
    assert_eq!(names, vec!["B.js", "a.js", "b.js", "b.js"]);
    assert_eq!(sorted[2].detail, "first b");
    assert_eq!(sorted[3].detail, "second b");
}

#[test]
fn tests_are_sorted_by_name() {
    let make = |n: &str| Test { path: std::path::PathBuf::from(n), name: n.to_string(), flags: Vec::new() };
    let tests = vec![make("test/z.js"), make("test/a.js"), make("test/m.js")];
    let sorted = sort_tests(tests);
    let names: Vec<&str> = sorted.iter().map(|t| t.name.as_str()).collect();
    assert_eq!(names, vec!["test/a.js", "test/m.js", "test/z.js"]);
}

#[test]
fn a_test_clones_with_its_path_name_and_flags() {
    let t = Test { path: std::path::PathBuf::from("/x/test-a.js"), name: "test-a.js".into(), flags: vec!["--a".into()] };
    let c = t.clone();
    assert_eq!(c.path, t.path);
    assert_eq!(c.name, t.name);
    assert_eq!(c.flags, t.flags);
}

#[test]
fn a_filtered_discovery_is_the_unfiltered_one_filtered_in_the_same_order() {
    let files = [
        ("js", "test-http-z.js", "test/parallel/test-http-z.js", "a"),
        ("mjs", "test-fs-b.mjs", "test/es-module/test-fs-b.mjs", "b"),
        ("js", "common.js", "test/parallel/common.js", "c"),
        ("js", "test-http-a.js", "test/parallel/test-http-a.js", "d"),
        ("cjs", "test-http-a.cjs", "test/parallel/test-http-a.cjs", "e"),
        ("json", "test-http-q.json", "test/parallel/test-http-q.json", "f"),
    ];
    let discover = |filter: Option<&str>| {
        let mut tests = Vec::new();
        for (ext, file, rel, marker) in files.iter() {
            if let Some(name) = test_name(Some(ext), Some(file), rel, filter) {
                tests.push(Test { path: std::path::PathBuf::from(marker), name, flags: Vec::new() });
            }
        }
        sort_tests(tests)
    };
    let all = discover(None);
    let filtered = discover(Some("http"));
    let expected: Vec<(String, std::path::PathBuf)> =
        all.iter().filter(|t| t.name.contains("http")).map(|t| (t.name.clone(), t.path.clone())).collect();
    let got: Vec<(String, std::path::PathBuf)> = filtered.iter().map(|t| (t.name.clone(), t.path.clone())).collect();
    assert_eq!(got, expected);
    let names: Vec<&str> = filtered.iter().map(|t| t.name.as_str()).collect();
    assert_eq!(names, vec!["test/parallel/test-http-a.cjs", "test/parallel/test-http-a.js", "test/parallel/test-http-z.js"]);
}
