//! The library's text handling checked against `str`'s own methods on every
//! short string over an alphabet of awkward characters.

use katsu_compat::harness::runtime_label;
use katsu_compat::report::module_of;
use katsu_compat::runner::{first_line, tail};
use katsu_compat::suite::parse_flags;

const ALPHABET: [char; 9] = ['a', '\n', '\r', ' ', '\t', '\u{a0}', '/', '.', '-'];

fn all_strings(max_len: usize) -> Vec<String> {
    let mut out = vec![String::new()];
    let mut frontier = vec![String::new()];
    for _ in 0..max_len {
        let mut next = Vec::new();
        for s in &frontier {
            for c in ALPHABET {
                let mut t = s.clone();
                t.push(c);
                next.push(t);
            }
        }
        out.extend(next.iter().cloned());
        frontier = next;
    }
    out
}

fn std_tail(text: &str, lines: usize) -> String {
    let collected: Vec<&str> = text.lines().collect();
    let start = collected.len().saturating_sub(lines);
    collected[start..].join("\n")
}

fn std_first_line(text: &str) -> String {
    text.lines().next().unwrap_or_default().trim().to_owned()
}

const KNOWN: &[&str] = &[
    "assert", "async", "buffer", "child", "cluster", "console", "crypto", "dgram", "diagnostics",
    "dns", "domain", "error", "esm", "events", "fs", "http", "http2", "https", "inspector",
    "module", "net", "os", "path", "perf", "process", "promises", "punycode", "querystring",
    "readline", "repl", "require", "stream", "string", "timers", "tls", "trace", "tty", "url",
    "util", "v8", "vm", "wasi", "worker", "zlib",
];

fn std_module_of(test_name: &str) -> String {
    let file = test_name.rsplit('/').next().unwrap_or(test_name);
    let stem = file.trim_start_matches("test-").split('.').next().unwrap_or_default();
    let first = stem.split('-').next().unwrap_or_default();
    if KNOWN.contains(&first) {
        first.to_owned()
    } else {
        "other".to_owned()
    }
}

fn std_parse_flags(source: &str) -> Vec<String> {
    let mut flags = Vec::new();
    for line in source.lines().take(40) {
        let trimmed = line.trim_start();
        if let Some(rest) = trimmed.strip_prefix("// Flags:") {
            flags.extend(rest.split_whitespace().map(str::to_owned));
        }
    }
    flags
}

#[test]
fn tail_and_first_line_agree_with_str_lines() {
    for s in all_strings(5) {
        for n in 0..4 {
            assert_eq!(tail(&s, n), std_tail(&s, n), "{s:?} {n}");
        }
        assert_eq!(first_line(&s), std_first_line(&s), "{s:?}");
    }
}

#[test]
fn module_names_agree_with_the_str_methods() {
    for s in all_strings(4) {
        assert_eq!(module_of(&s), std_module_of(&s), "{s:?}");
        let named = format!("test/test-{s}fs-{s}.js");
        assert_eq!(module_of(&named), std_module_of(&named), "{named:?}");
    }
    for m in KNOWN {
        let name = format!("test/parallel/test-test-{m}-x.js");
        assert_eq!(module_of(&name), *m);
    }
}

#[test]
fn flags_agree_with_the_str_methods() {
    for s in all_strings(4) {
        let source = format!("{s}// Flags:{s}--x{s}\n{s}// Flags: --y");
        assert_eq!(parse_flags(&source), std_parse_flags(&source), "{source:?}");
    }
}

#[test]
fn runtime_labels_trim_as_str_trim_does() {
    for s in all_strings(4) {
        let trimmed = s.trim();
        let expected = if trimmed.is_empty() { "node".to_string() } else { format!("node {trimmed}") };
        assert_eq!(runtime_label(Some("node"), &s), expected, "{s:?}");
    }
}
