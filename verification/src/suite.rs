//! Reading what each test in a checkout of nodejs/node needs: which files are
//! tests, the flags each asks for, and the version of the suite.

use vstd::prelude::*;
use crate::text::{
    chars_of, contains, contains_chars, copy_chars, is_char, lemma_split_on_len, lines, lines_of,
    same_chars, split_at_char, split_on, starts_with, starts_with_chars, string_of, string_views,
    trim_start, trim_start_chars, views, words, words_of,
};

verus! {

/// `std::path::PathBuf`, a path on disk that the library carries through
/// without reading.
#[verifier::external_type_specification]
#[verifier::external_body]
pub struct ExPathBuf(std::path::PathBuf);

/// `<PathBuf as Clone>::clone`, which copies a path. Nothing is stated of the
/// copy: the library never reads a path, only carries it.
pub assume_specification[ <std::path::PathBuf as Clone>::clone ](p: &std::path::PathBuf) -> std::path::PathBuf;

/// One test file and the things Node's own runner would have done for it.
#[derive(Clone, Debug)]
pub struct Test {
    /// Absolute path on disk.
    pub path: std::path::PathBuf,
    /// Path relative to the suite root. The stable identifier.
    pub name: String,
    /// Flags from the `// Flags:` comment, which Node's runner passes to the process.
    ///
    /// Ignoring these silently would make a set of tests fail for a reason that has nothing
    /// to do with compatibility, which is worse than not running them.
    pub flags: Vec<String>,
}

/// The directories worth running, and why.
///
/// `parallel` is the bulk of the suite and is safe to run concurrently. `es-module` is the
/// ESM surface, which is where the semantics differ most from CommonJS and therefore where
/// a runtime is most likely to be quietly wrong. `sequential` is excluded here and run
/// separately, because those tests bind ports and assume they are alone on the machine.
pub const DIRECTORIES: [&'static str; 2] = ["test/parallel", "test/es-module"];

/// The marker of the flags directive.
pub open spec fn flags_marker() -> Seq<char> {
    "// Flags:"@
}

/// How many lines at the top of a file the directive may stand in.
pub const HEADER_LINES: usize = 40;

/// The flags one line asks for.
pub open spec fn line_flags(line: Seq<char>) -> Seq<Seq<char>> {
    let t = trim_start(line);
    if starts_with(t, flags_marker()) {
        words(t.skip(flags_marker().len() as int))
    } else {
        Seq::<Seq<char>>::empty()
    }
}

/// The lines the directive is read from.
pub open spec fn header_lines(ls: Seq<Seq<char>>) -> Seq<Seq<char>> {
    if ls.len() <= HEADER_LINES {
        ls
    } else {
        ls.take(HEADER_LINES as int)
    }
}

/// Every flag the directives in a file's header ask for, in order.
pub open spec fn flags_spec(source: Seq<char>) -> Seq<Seq<char>> {
    header_lines(lines(source)).flat_map(|l: Seq<char>| line_flags(l))
}

/// Read the `// Flags:` directive Node's own test runner honours.
///
/// The directive appears in the first few lines and may appear more than once. Anything
/// after the marker up to the end of the line is split on whitespace.
pub fn parse_flags(source: &str) -> (flags: Vec<String>)
    ensures
        string_views(flags@) == flags_spec(source@),
{
    let src = chars_of(source);
    let ls = lines_of(&src);
    let ghost all = views(ls@);
    let ghost head = header_lines(all);
    let n = if ls.len() <= HEADER_LINES {
        ls.len()
    } else {
        HEADER_LINES
    };
    let marker = chars_of("// Flags:");
    let mut flags: Vec<String> = Vec::new();
    proof {
        assert(head.len() == n);
        assert(string_views(flags@) =~= head.take(0).flat_map(|l: Seq<char>| line_flags(l)));
    }
    for i in 0..n
        invariant
            n == head.len(),
            head == header_lines(all),
            all == views(ls@),
            n <= ls@.len(),
            marker@ == flags_marker(),
            string_views(flags@) == head.take(i as int).flat_map(|l: Seq<char>| line_flags(l)),
    {
        proof {
            head.lemma_flat_map_take_append(|l: Seq<char>| line_flags(l), i as int);
            assert(head[i as int] == ls@[i as int]@);
        }
        let t = trim_start_chars(&ls[i]);
        let ghost before = string_views(flags@);
        if starts_with_chars(&t, &marker) {
            let mut rest: Vec<char> = Vec::new();
            let mut j = marker.len();
            while j < t.len()
                invariant
                    marker@.len() <= j <= t@.len(),
                    rest@ == t@.subrange(marker@.len() as int, j as int),
                decreases t@.len() - j,
            {
                rest.push(t[j]);
                proof {
                    assert(t@.subrange(marker@.len() as int, j + 1) =~= t@.subrange(
                        marker@.len() as int,
                        j as int,
                    ).push(t@[j as int]));
                }
                j = j + 1;
            }
            proof {
                assert(rest@ =~= t@.skip(marker@.len() as int));
            }
            let ws = words_of(&rest);
            let m = ws.len();
            for k in 0..m
                invariant
                    m == ws@.len(),
                    string_views(flags@) == before + views(ws@).take(k as int),
            {
                let w = string_of(&ws[k]);
                let ghost mid = string_views(flags@);
                flags.push(w);
                proof {
                    assert(string_views(flags@) =~= mid.push(w@));
                    assert(views(ws@).take(k + 1) =~= views(ws@).take(k as int).push(ws@[k as int]@));
                }
            }
            proof {
                assert(views(ws@).take(m as int) =~= views(ws@));
                assert(string_views(flags@) =~= before + line_flags(head[i as int]));
            }
        } else {
            proof {
                assert(string_views(flags@) =~= before + line_flags(head[i as int]));
            }
        }
    }
    proof {
        assert(head.take(n as int) =~= head);
    }
    flags
}

/// Whether a file extension is that of a script Node runs.
pub open spec fn is_script_extension(e: Seq<char>) -> bool {
    e == "js"@ || e == "mjs"@ || e == "cjs"@
}

/// A relative path with its backslashes turned into slashes.
pub open spec fn with_slashes(p: Seq<char>) -> Seq<char> {
    Seq::new(p.len(), |i: int| if p[i] == '\\' { '/' } else { p[i] })
}

/// The name of a test, if a file is one that the run should include.
pub open spec fn test_name_spec(
    extension: Option<Seq<char>>,
    file_name: Option<Seq<char>>,
    relative: Seq<char>,
    filter: Option<Seq<char>>,
) -> Option<Seq<char>> {
    let e = match extension {
        Some(e) => e,
        None => Seq::<char>::empty(),
    };
    let f = match file_name {
        Some(f) => f,
        None => Seq::<char>::empty(),
    };
    let name = with_slashes(relative);
    if !is_script_extension(e) {
        None
    } else if !starts_with(f, "test-"@) {
        None
    } else {
        match filter {
            Some(p) => if contains(name, p) {
                Some(name)
            } else {
                None
            },
            None => Some(name),
        }
    }
}

/// The view of an optional string slice.
pub open spec fn opt_view(s: Option<&str>) -> Option<Seq<char>> {
    match s {
        Some(x) => Some(x@),
        None => None,
    }
}

/// The name a file gets as a test, or `None` when the run leaves it out.
///
/// A test is a `.js`, `.mjs` or `.cjs` file whose name starts with `test-`.
/// Its name is its path relative to the suite root with forward slashes, and
/// a filter keeps only the names that contain it.
pub fn test_name(
    extension: Option<&str>,
    file_name: Option<&str>,
    relative: &str,
    filter: Option<&str>,
) -> (r: Option<String>)
    ensures
        match r {
            Some(s) => test_name_spec(opt_view(extension), opt_view(file_name), relative@, opt_view(filter))
                == Some(s@),
            None => test_name_spec(opt_view(extension), opt_view(file_name), relative@, opt_view(filter))
                is None,
        },
{
    let e = match extension {
        Some(e) => chars_of(e),
        None => Vec::new(),
    };
    let f = match file_name {
        Some(f) => chars_of(f),
        None => Vec::new(),
    };
    proof {
        assert(e@ == match opt_view(extension) { Some(x) => x, None => Seq::<char>::empty() });
        assert(f@ == match opt_view(file_name) { Some(x) => x, None => Seq::<char>::empty() });
    }
    let script = same_chars(&e, &chars_of("js")) || same_chars(&e, &chars_of("mjs")) || same_chars(
        &e,
        &chars_of("cjs"),
    );
    if !script {
        return None;
    }
    if !starts_with_chars(&f, &chars_of("test-")) {
        return None;
    }
    let rel = chars_of(relative);
    let mut name: Vec<char> = Vec::new();
    let n = rel.len();
    for i in 0..n
        invariant
            n == rel@.len(),
            name@ == with_slashes(rel@).take(i as int),
    {
        let c = if rel[i] == '\\' {
            '/'
        } else {
            rel[i]
        };
        name.push(c);
        proof {
            assert(with_slashes(rel@).take(i + 1) =~= with_slashes(rel@).take(i as int).push(c));
        }
    }
    proof {
        assert(with_slashes(rel@).take(n as int) =~= with_slashes(rel@));
    }
    match filter {
        Some(p) => {
            if !contains_chars(&name, &chars_of(p)) {
                return None;
            }
        },
        None => {},
    }
    Some(string_of(&name))
}

/// A filter only narrows the selection: under a filter a file gets a name
/// exactly when it gets the same name without one and that name contains the
/// filter.
pub proof fn lemma_filter_narrows_selection(
    extension: Option<Seq<char>>,
    file_name: Option<Seq<char>>,
    relative: Seq<char>,
    f: Seq<char>,
)
    ensures
        test_name_spec(extension, file_name, relative, Some(f)) == match test_name_spec(
            extension,
            file_name,
            relative,
            None,
        ) {
            Some(n) => if contains(n, f) {
                Some(n)
            } else {
                None
            },
            None => None,
        },
{
}

/// The value of the first `#define <name> <value>` line: what follows the
/// line's last space.
pub open spec fn define_value(ls: Seq<Seq<char>>, prefix: Seq<char>) -> Option<Seq<char>>
    decreases ls.len(),
{
    if ls.len() == 0 {
        None
    } else if starts_with(ls[0], prefix) {
        Some(split_on(ls[0], is_char(' ')).last())
    } else {
        define_value(ls.drop_first(), prefix)
    }
}

/// The version string of a suite, from the text of its `src/node_version.h`.
pub open spec fn version_spec(text: Seq<char>) -> Seq<char> {
    let ls = lines(text);
    let major = define_value(ls, "#define NODE_MAJOR_VERSION "@);
    let minor = define_value(ls, "#define NODE_MINOR_VERSION "@);
    let patch = define_value(ls, "#define NODE_PATCH_VERSION "@);
    if major is Some && minor is Some && patch is Some {
        "nodejs/node v"@ + major->0 + "."@ + minor->0 + "."@ + patch->0
    } else {
        "nodejs/node (version unknown)"@
    }
}

/// The value of the first line starting with `prefix`.
fn find_define(ls: &Vec<Vec<char>>, prefix: &str) -> (r: Option<Vec<char>>)
    ensures
        match r {
            Some(v) => define_value(views(ls@), prefix@) == Some(v@),
            None => define_value(views(ls@), prefix@) is None,
        },
{
    let p = chars_of(prefix);
    let n = ls.len();
    let ghost all = views(ls@);
    proof {
        assert(all.skip(0) =~= all);
    }
    for i in 0..n
        invariant
            n == ls@.len(),
            all == views(ls@),
            p@ == prefix@,
            define_value(all, prefix@) == define_value(all.skip(i as int), prefix@),
    {
        proof {
            assert(all.skip(i as int)[0] == ls@[i as int]@);
            assert(all.skip(i as int).drop_first() =~= all.skip(i + 1));
        }
        if starts_with_chars(&ls[i], &p) {
            let parts = split_at_char(&ls[i], ' ');
            proof {
                lemma_split_on_len(ls@[i as int]@, is_char(' '));
            }
            let last = copy_chars(&parts[parts.len() - 1]);
            return Some(last);
        }
    }
    None
}

/// The version string of a checked out suite, from the text of its `src/node_version.h`.
///
/// Reported next to every pass rate, because a pass rate against an unnamed suite version
/// is not a number anybody can check.
pub fn version_from_header(text: &str) -> (s: String)
    ensures
        s@ == version_spec(text@),
{
    let v = chars_of(text);
    let ls = lines_of(&v);
    let major = find_define(&ls, "#define NODE_MAJOR_VERSION ");
    let minor = find_define(&ls, "#define NODE_MINOR_VERSION ");
    let patch = find_define(&ls, "#define NODE_PATCH_VERSION ");
    match (major, minor, patch) {
        (Some(a), Some(b), Some(c)) => {
            let mut out = chars_of("nodejs/node v");
            let mut a = a;
            let mut b = b;
            let mut c = c;
            let mut dot1 = chars_of(".");
            let mut dot2 = chars_of(".");
            out.append(&mut a);
            out.append(&mut dot1);
            out.append(&mut b);
            out.append(&mut dot2);
            out.append(&mut c);
            string_of(&out)
        },
        _ => String::from_str("nodejs/node (version unknown)"),
    }
}

} // verus!
