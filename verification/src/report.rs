//! Turning a run into the table that gets published.

use vstd::prelude::*;
use crate::outcome::{Outcome, TestResult, passed, results_map, was_attempted};
use crate::rate::{EXACT_COUNT_LIMIT, nearest_double, rate_tenths_exec, rate_tenths_spec};
use crate::sorted_map::{
    Order, SortedMap, as_map, compare_chars, has_key, key_index, keys_ascending, lemma_key_index,
    lemma_str_lt_irreflexive, lemma_str_lt_total, lemma_str_lt_transitive, str_lt,
};
use crate::text::{
    chars_of, contains, decimal, decimal_chars, digit, is_char, lemma_split_on_len, same_chars,
    split_at_char, split_on, strip_all_prefix, strip_all_prefix_chars, string_of,
};

verus! {

/// The module names Node's own test file naming convention uses.
pub open spec fn is_known_module(w: Seq<char>) -> bool {
    ||| w == "assert"@
    ||| w == "async"@
    ||| w == "buffer"@
    ||| w == "child"@
    ||| w == "cluster"@
    ||| w == "console"@
    ||| w == "crypto"@
    ||| w == "dgram"@
    ||| w == "diagnostics"@
    ||| w == "dns"@
    ||| w == "domain"@
    ||| w == "error"@
    ||| w == "esm"@
    ||| w == "events"@
    ||| w == "fs"@
    ||| w == "http"@
    ||| w == "http2"@
    ||| w == "https"@
    ||| w == "inspector"@
    ||| w == "module"@
    ||| w == "net"@
    ||| w == "os"@
    ||| w == "path"@
    ||| w == "perf"@
    ||| w == "process"@
    ||| w == "promises"@
    ||| w == "punycode"@
    ||| w == "querystring"@
    ||| w == "readline"@
    ||| w == "repl"@
    ||| w == "require"@
    ||| w == "stream"@
    ||| w == "string"@
    ||| w == "timers"@
    ||| w == "tls"@
    ||| w == "trace"@
    ||| w == "tty"@
    ||| w == "url"@
    ||| w == "util"@
    ||| w == "v8"@
    ||| w == "vm"@
    ||| w == "wasi"@
    ||| w == "worker"@
    ||| w == "zlib"@
}

/// The module names of Node's naming convention, as a list.
pub open spec fn known_modules() -> Seq<Seq<char>> {
    seq![
        "assert"@,
        "async"@,
        "buffer"@,
        "child"@,
        "cluster"@,
        "console"@,
        "crypto"@,
        "dgram"@,
        "diagnostics"@,
        "dns"@,
        "domain"@,
        "error"@,
        "esm"@,
        "events"@,
        "fs"@,
        "http"@,
        "http2"@,
        "https"@,
        "inspector"@,
        "module"@,
        "net"@,
        "os"@,
        "path"@,
        "perf"@,
        "process"@,
        "promises"@,
        "punycode"@,
        "querystring"@,
        "readline"@,
        "repl"@,
        "require"@,
        "stream"@,
        "string"@,
        "timers"@,
        "tls"@,
        "trace"@,
        "tty"@,
        "url"@,
        "util"@,
        "v8"@,
        "vm"@,
        "wasi"@,
        "worker"@,
        "zlib"@,
    ]
}

/// A word names a known module exactly when it is one of the listed names,
/// letter for letter: a word that only starts with a listed name, such as
/// `stream2` or `performance`, is not one.
pub proof fn lemma_known_module_is_a_listed_name(w: Seq<char>)
    ensures
        is_known_module(w) <==> known_modules().contains(w),
{
    let l = known_modules();
    assert(l.len() == 44);
    if w == "assert"@ {
        assert(l[0] == w);
    }
    if w == "async"@ {
        assert(l[1] == w);
    }
    if w == "buffer"@ {
        assert(l[2] == w);
    }
    if w == "child"@ {
        assert(l[3] == w);
    }
    if w == "cluster"@ {
        assert(l[4] == w);
    }
    if w == "console"@ {
        assert(l[5] == w);
    }
    if w == "crypto"@ {
        assert(l[6] == w);
    }
    if w == "dgram"@ {
        assert(l[7] == w);
    }
    if w == "diagnostics"@ {
        assert(l[8] == w);
    }
    if w == "dns"@ {
        assert(l[9] == w);
    }
    if w == "domain"@ {
        assert(l[10] == w);
    }
    if w == "error"@ {
        assert(l[11] == w);
    }
    if w == "esm"@ {
        assert(l[12] == w);
    }
    if w == "events"@ {
        assert(l[13] == w);
    }
    if w == "fs"@ {
        assert(l[14] == w);
    }
    if w == "http"@ {
        assert(l[15] == w);
    }
    if w == "http2"@ {
        assert(l[16] == w);
    }
    if w == "https"@ {
        assert(l[17] == w);
    }
    if w == "inspector"@ {
        assert(l[18] == w);
    }
    if w == "module"@ {
        assert(l[19] == w);
    }
    if w == "net"@ {
        assert(l[20] == w);
    }
    if w == "os"@ {
        assert(l[21] == w);
    }
    if w == "path"@ {
        assert(l[22] == w);
    }
    if w == "perf"@ {
        assert(l[23] == w);
    }
    if w == "process"@ {
        assert(l[24] == w);
    }
    if w == "promises"@ {
        assert(l[25] == w);
    }
    if w == "punycode"@ {
        assert(l[26] == w);
    }
    if w == "querystring"@ {
        assert(l[27] == w);
    }
    if w == "readline"@ {
        assert(l[28] == w);
    }
    if w == "repl"@ {
        assert(l[29] == w);
    }
    if w == "require"@ {
        assert(l[30] == w);
    }
    if w == "stream"@ {
        assert(l[31] == w);
    }
    if w == "string"@ {
        assert(l[32] == w);
    }
    if w == "timers"@ {
        assert(l[33] == w);
    }
    if w == "tls"@ {
        assert(l[34] == w);
    }
    if w == "trace"@ {
        assert(l[35] == w);
    }
    if w == "tty"@ {
        assert(l[36] == w);
    }
    if w == "url"@ {
        assert(l[37] == w);
    }
    if w == "util"@ {
        assert(l[38] == w);
    }
    if w == "v8"@ {
        assert(l[39] == w);
    }
    if w == "vm"@ {
        assert(l[40] == w);
    }
    if w == "wasi"@ {
        assert(l[41] == w);
    }
    if w == "worker"@ {
        assert(l[42] == w);
    }
    if w == "zlib"@ {
        assert(l[43] == w);
    }
    if l.contains(w) {
        let i = choose|i: int| 0 <= i < l.len() && l[i] == w;
        assert(is_known_module(l[i]));
    }
}

/// The module of a test is the first word of its file name when that word is
/// one of the listed names, and `other` otherwise.
pub proof fn lemma_module_is_listed_or_other(test: Seq<char>)
    ensures
        known_modules().contains(first_word(file_part(test))) ==> module_name(test) == first_word(
            file_part(test),
        ),
        !known_modules().contains(first_word(file_part(test))) ==> module_name(test) == "other"@,
        module_name(test) == "other"@ || known_modules().contains(module_name(test)),
{
    lemma_known_module_is_a_listed_name(first_word(file_part(test)));
}

/// Whether a word names a known module.
fn known_module(w: &Vec<char>) -> (b: bool)
    ensures
        b == is_known_module(w@),
{
    if same_chars(w, &chars_of("assert")) {
        return true;
    }
    if same_chars(w, &chars_of("async")) {
        return true;
    }
    if same_chars(w, &chars_of("buffer")) {
        return true;
    }
    if same_chars(w, &chars_of("child")) {
        return true;
    }
    if same_chars(w, &chars_of("cluster")) {
        return true;
    }
    if same_chars(w, &chars_of("console")) {
        return true;
    }
    if same_chars(w, &chars_of("crypto")) {
        return true;
    }
    if same_chars(w, &chars_of("dgram")) {
        return true;
    }
    if same_chars(w, &chars_of("diagnostics")) {
        return true;
    }
    if same_chars(w, &chars_of("dns")) {
        return true;
    }
    if same_chars(w, &chars_of("domain")) {
        return true;
    }
    if same_chars(w, &chars_of("error")) {
        return true;
    }
    if same_chars(w, &chars_of("esm")) {
        return true;
    }
    if same_chars(w, &chars_of("events")) {
        return true;
    }
    if same_chars(w, &chars_of("fs")) {
        return true;
    }
    if same_chars(w, &chars_of("http")) {
        return true;
    }
    if same_chars(w, &chars_of("http2")) {
        return true;
    }
    if same_chars(w, &chars_of("https")) {
        return true;
    }
    if same_chars(w, &chars_of("inspector")) {
        return true;
    }
    if same_chars(w, &chars_of("module")) {
        return true;
    }
    if same_chars(w, &chars_of("net")) {
        return true;
    }
    if same_chars(w, &chars_of("os")) {
        return true;
    }
    if same_chars(w, &chars_of("path")) {
        return true;
    }
    if same_chars(w, &chars_of("perf")) {
        return true;
    }
    if same_chars(w, &chars_of("process")) {
        return true;
    }
    if same_chars(w, &chars_of("promises")) {
        return true;
    }
    if same_chars(w, &chars_of("punycode")) {
        return true;
    }
    if same_chars(w, &chars_of("querystring")) {
        return true;
    }
    if same_chars(w, &chars_of("readline")) {
        return true;
    }
    if same_chars(w, &chars_of("repl")) {
        return true;
    }
    if same_chars(w, &chars_of("require")) {
        return true;
    }
    if same_chars(w, &chars_of("stream")) {
        return true;
    }
    if same_chars(w, &chars_of("string")) {
        return true;
    }
    if same_chars(w, &chars_of("timers")) {
        return true;
    }
    if same_chars(w, &chars_of("tls")) {
        return true;
    }
    if same_chars(w, &chars_of("trace")) {
        return true;
    }
    if same_chars(w, &chars_of("tty")) {
        return true;
    }
    if same_chars(w, &chars_of("url")) {
        return true;
    }
    if same_chars(w, &chars_of("util")) {
        return true;
    }
    if same_chars(w, &chars_of("v8")) {
        return true;
    }
    if same_chars(w, &chars_of("vm")) {
        return true;
    }
    if same_chars(w, &chars_of("wasi")) {
        return true;
    }
    if same_chars(w, &chars_of("worker")) {
        return true;
    }
    if same_chars(w, &chars_of("zlib")) {
        return true;
    }
    false
}

/// The file name of a test path: what follows its last `/`.
pub open spec fn file_part(test: Seq<char>) -> Seq<char> {
    split_on(test, is_char('/')).last()
}

/// The first word of a file name, after any `test-` prefixes, up to the
/// first `.` and then the first `-`.
pub open spec fn first_word(file: Seq<char>) -> Seq<char> {
    let stem = split_on(strip_all_prefix(file, "test-"@), is_char('.'))[0];
    split_on(stem, is_char('-'))[0]
}

/// The `node:` module a test belongs to, guessed from its file name.
pub open spec fn module_name(test: Seq<char>) -> Seq<char> {
    let first = first_word(file_part(test));
    if is_known_module(first) {
        first
    } else {
        "other"@
    }
}

/// The `node:` module a test belongs to, guessed from its file name.
///
/// Node's own naming convention is `test-<module>-<detail>.js`, which is regular enough to
/// group by and irregular enough that some tests land in `other`. Reporting `other` as its
/// own row is better than forcing every test into a module it does not belong to.
pub fn module_of(test_name: &str) -> (m: String)
    ensures
        m@ == module_name(test_name@),
{
    let name = chars_of(test_name);
    let parts = split_at_char(&name, '/');
    proof {
        lemma_split_on_len(name@, is_char('/'));
    }
    let file = &parts[parts.len() - 1];
    let prefix = chars_of("test-");
    proof {
        reveal_strlit("test-");
    }
    let stripped = strip_all_prefix_chars(file, &prefix);
    let dotted = split_at_char(&stripped, '.');
    proof {
        lemma_split_on_len(stripped@, is_char('.'));
    }
    let stem = &dotted[0];
    let dashed = split_at_char(stem, '-');
    proof {
        lemma_split_on_len(stem@, is_char('-'));
    }
    let first = &dashed[0];
    if known_module(first) {
        string_of(first)
    } else {
        String::from_str("other")
    }
}


/// Counts for one module.
#[derive(Clone, Copy, Debug)]
pub struct ModuleTally {
    pub pass: usize,
    pub fail: usize,
    pub timeout: usize,
    pub skipped: usize,
}

impl Default for ModuleTally {
    fn default() -> (t: Self)
        ensures
            t == (ModuleTally { pass: 0, fail: 0, timeout: 0, skipped: 0 }),
    {
        ModuleTally { pass: 0, fail: 0, timeout: 0, skipped: 0 }
    }
}

/// The pass rate of a tally in tenths of a percent, or `None` when nothing
/// was attempted.
pub open spec fn rate_of(t: ModuleTally) -> Option<nat> {
    if t.attempted_spec() == 0 {
        None
    } else {
        Some(rate_tenths_spec(t.pass as nat, t.attempted_spec()))
    }
}

impl ModuleTally {
    /// Tests actually attempted, which is the denominator the rate is over.
    pub open spec fn attempted_spec(self) -> nat {
        (self.pass + self.fail + self.timeout) as nat
    }

    /// Tests actually attempted, which is the denominator the rate is over.
    pub fn attempted(self) -> (n: usize)
        requires
            self.pass + self.fail + self.timeout <= usize::MAX,
        ensures
            n == self.attempted_spec(),
    {
        self.pass + self.fail + self.timeout
    }

    /// The pass rate in tenths of a percent, or `None` when nothing was
    /// attempted: the double nearest to `100 * pass / attempted`, rounded
    /// half to even to one decimal place.
    ///
    /// Returning `None` rather than zero matters: a module where every test was skipped has
    /// no pass rate, and printing 0% for it would be as wrong as printing 100%.
    pub fn rate_tenths(self) -> (r: Option<u64>)
        requires
            self.pass + self.fail + self.timeout <= usize::MAX,
            self.attempted_spec() <= EXACT_COUNT_LIMIT,
        ensures
            match r {
                Some(t) => rate_of(self) == Some(t as nat) && t <= 1000,
                None => rate_of(self) is None,
            },
    {
        let attempted = self.attempted();
        if attempted == 0 {
            None
        } else {
            Some(rate_tenths_exec(self.pass as u64, attempted as u64))
        }
    }
}

/// How many results of module `m` had outcome `o`.
pub open spec fn count_in(rs: Seq<TestResult>, m: Seq<char>, o: Outcome) -> nat
    decreases rs.len(),
{
    if rs.len() == 0 {
        0
    } else {
        count_in(rs.drop_last(), m, o) + if module_name(rs.last().test@) == m && rs.last().outcome
            == o {
            1nat
        } else {
            0nat
        }
    }
}

/// Whether some result belongs to module `m`.
pub open spec fn has_module(rs: Seq<TestResult>, m: Seq<char>) -> bool {
    exists|i: int| 0 <= i < rs.len() && module_name(#[trigger] rs[i].test@) == m
}

/// The tally of module `m`.
pub open spec fn tally_of(rs: Seq<TestResult>, m: Seq<char>) -> ModuleTally {
    ModuleTally {
        pass: count_in(rs, m, Outcome::Pass) as usize,
        fail: count_in(rs, m, Outcome::Fail) as usize,
        timeout: count_in(rs, m, Outcome::Timeout) as usize,
        skipped: count_in(rs, m, Outcome::Skipped) as usize,
    }
}

/// Every module that some result belongs to, with its tally.
pub open spec fn tally_map(rs: Seq<TestResult>) -> Map<Seq<char>, ModuleTally> {
    Map::new(|m: Seq<char>| has_module(rs, m), |m: Seq<char>| tally_of(rs, m))
}

/// A count never exceeds the number of results.
pub proof fn lemma_count_in_bound(rs: Seq<TestResult>, m: Seq<char>, o: Outcome)
    ensures
        count_in(rs, m, o) <= rs.len(),
    decreases rs.len(),
{
    if rs.len() > 0 {
        lemma_count_in_bound(rs.drop_last(), m, o);
    }
}

/// Tally a run by module.
pub fn tally(results: &[TestResult]) -> (t: SortedMap<ModuleTally>)
    ensures
        t.map() == tally_map(results@),
        keys_ascending(t@),
{
    let mut by_module: SortedMap<ModuleTally> = SortedMap::new();
    let n = results.len();
    proof {
        assert(tally_map(results@.take(0)) =~= Map::<Seq<char>, ModuleTally>::empty());
    }
    for i in 0..n
        invariant
            n == results@.len(),
            by_module.map() == tally_map(results@.take(i as int)),
            keys_ascending(by_module@),
    {
        let ghost before = results@.take(i as int);
        let ghost after = results@.take(i + 1);
        let r = &results[i];
        let module = module_of(r.test.as_str());
        proof {
            assert(after.drop_last() =~= before);
            assert(after.last() == results@[i as int]);
            lemma_count_in_bound(before, module@, Outcome::Pass);
            lemma_count_in_bound(before, module@, Outcome::Fail);
            lemma_count_in_bound(before, module@, Outcome::Timeout);
            lemma_count_in_bound(before, module@, Outcome::Skipped);
        }
        let mut entry = match by_module.get(module.as_str()) {
            Some(t) => *t,
            None => ModuleTally::default(),
        };
        proof {
            if !has_module(before, module@) {
                assert forall|o: Outcome| count_in(before, module@, o) == 0 by {
                    lemma_count_zero(before, module@, o);
                }
            }
            assert(entry == tally_of(before, module@));
        }
        match r.outcome {
            Outcome::Pass => entry.pass = entry.pass + 1,
            Outcome::Fail => entry.fail = entry.fail + 1,
            Outcome::Timeout => entry.timeout = entry.timeout + 1,
            Outcome::Skipped => entry.skipped = entry.skipped + 1,
        }
        let ghost key = module@;
        by_module.insert(module, entry);
        proof {
            assert(entry == tally_of(after, key));
            assert forall|m: Seq<char>| m != key implies tally_of(after, m) == tally_of(before, m)
                && (has_module(after, m) == has_module(before, m)) by {
                if has_module(after, m) {
                    let j = choose|j: int| 0 <= j < after.len() && module_name(#[trigger] after[j].test@) == m;
                    if j < i {
                        assert(before[j] == after[j]);
                    }
                }
                if has_module(before, m) {
                    let j = choose|j: int| 0 <= j < before.len() && module_name(#[trigger] before[j].test@) == m;
                    assert(after[j] == before[j]);
                }
            }
            assert(has_module(after, key)) by {
                assert(module_name(after[i as int].test@) == key);
            }
            assert(by_module.map() =~= tally_map(after));
        }
    }
    proof {
        assert(results@.take(n as int) =~= results@);
    }
    by_module
}

/// A module no result belongs to has no counts.
pub proof fn lemma_count_zero(rs: Seq<TestResult>, m: Seq<char>, o: Outcome)
    requires
        !has_module(rs, m),
    ensures
        count_in(rs, m, o) == 0,
    decreases rs.len(),
{
    if rs.len() > 0 {
        let r = rs.drop_last();
        assert(!has_module(r, m)) by {
            if has_module(r, m) {
                let j = choose|j: int| 0 <= j < r.len() && module_name(#[trigger] r[j].test@) == m;
                assert(rs[j] == r[j]);
            }
        }
        lemma_count_zero(r, m, o);
        assert(module_name(rs[rs.len() - 1].test@) != m);
    }
}


/// Every count of a module's tally together stays within the number of results.
pub proof fn lemma_tally_bound(rs: Seq<TestResult>, m: Seq<char>)
    ensures
        count_in(rs, m, Outcome::Pass) + count_in(rs, m, Outcome::Fail) + count_in(rs, m, Outcome::Timeout)
            + count_in(rs, m, Outcome::Skipped) <= rs.len(),
    decreases rs.len(),
{
    if rs.len() > 0 {
        lemma_tally_bound(rs.drop_last(), m);
    }
}

// ---------------------------------------------------------------------------
// The order of the table
// ---------------------------------------------------------------------------

/// Where a tally's rate sorts: a rate of zero first, then positive rates by
/// their double (a smaller scale means a larger value), then the modules with
/// no rate, which sort as the largest double would.
pub open spec fn rank_of(t: ModuleTally) -> (int, int, int) {
    if t.attempted_spec() == 0 {
        (2, 0, 0)
    } else if t.pass == 0 {
        (0, 0, 0)
    } else {
        let d = nearest_double(100 * (t.pass as nat), t.attempted_spec());
        (1, -(d.1 as int), d.0 as int)
    }
}

/// Lexicographic order of ranks.
pub open spec fn rank_lt(a: (int, int, int), b: (int, int, int)) -> bool {
    a.0 < b.0 || (a.0 == b.0 && (a.1 < b.1 || (a.1 == b.1 && a.2 < b.2)))
}

/// The table's order: worst rate first, and by module name among equal rates.
pub open spec fn row_before(a: (Seq<char>, ModuleTally), b: (Seq<char>, ModuleTally)) -> bool {
    rank_lt(rank_of(a.1), rank_of(b.1)) || (rank_of(a.1) == rank_of(b.1) && str_lt(a.0, b.0))
}

/// Rows in strictly ascending table order.
pub open spec fn rows_in_order(rows: Seq<(Seq<char>, ModuleTally)>) -> bool {
    forall|i: int, j: int| 0 <= i < j < rows.len() ==> row_before(#[trigger] rows[i], #[trigger] rows[j])
}

/// The rows are exactly the entries of `m`.
pub open spec fn rows_are(rows: Seq<(Seq<char>, ModuleTally)>, m: Map<Seq<char>, ModuleTally>) -> bool {
    &&& forall|i: int| 0 <= i < rows.len() ==> m.contains_key(#[trigger] rows[i].0) && m[rows[i].0] == rows[i].1
    &&& forall|k: Seq<char>| #[trigger] m.contains_key(k) ==> exists|i: int| 0 <= i < rows.len() && #[trigger] rows[i].0 == k
}

/// The entries of `m` in table order.
pub open spec fn table_order(m: Map<Seq<char>, ModuleTally>) -> Seq<(Seq<char>, ModuleTally)> {
    choose|rows: Seq<(Seq<char>, ModuleTally)>| rows_in_order(rows) && rows_are(rows, m)
}

/// The table order is transitive.
pub proof fn lemma_row_before_transitive(
    a: (Seq<char>, ModuleTally),
    b: (Seq<char>, ModuleTally),
    c: (Seq<char>, ModuleTally),
)
    requires
        row_before(a, b),
        row_before(b, c),
    ensures
        row_before(a, c),
{
    if rank_of(a.1) == rank_of(b.1) && rank_of(b.1) == rank_of(c.1) {
        lemma_str_lt_transitive(a.0, b.0, c.0);
    }
}

/// Of two rows with different names, exactly one comes first.
pub proof fn lemma_row_before_total(a: (Seq<char>, ModuleTally), b: (Seq<char>, ModuleTally))
    ensures
        a.0 != b.0 ==> (row_before(a, b) || row_before(b, a)),
        !(row_before(a, b) && row_before(b, a)),
        !row_before(a, a),
{
    lemma_str_lt_total(a.0, b.0);
    lemma_str_lt_irreflexive(a.0);
}

/// Of two modules with a rate, the one whose pass rate is lower, as a fraction
/// `pass / attempted`, never sorts after the other: its row comes first, unless
/// both rates are the same double, when their names decide. The table is worst
/// module first by the real pass rate.
pub proof fn lemma_lower_pass_rate_sorts_first(a: (Seq<char>, ModuleTally), b: (Seq<char>, ModuleTally))
    requires
        a.1.attempted_spec() > 0,
        b.1.attempted_spec() > 0,
        a.1.pass * b.1.attempted_spec() < b.1.pass * a.1.attempted_spec(),
    ensures
        !rank_lt(rank_of(b.1), rank_of(a.1)),
        rank_of(a.1) != rank_of(b.1) ==> row_before(a, b),
        !row_before(b, a) || (rank_of(a.1) == rank_of(b.1) && str_lt(b.0, a.0)),
{
    let pa = a.1.pass as nat;
    let pb = b.1.pass as nat;
    let na = a.1.attempted_spec();
    let nb = b.1.attempted_spec();
    if pa > 0 {
        assert(pb > 0) by (nonlinear_arith)
            requires
                pa * nb < pb * na,
                pa > 0,
        ;
        assert((100 * pa) * nb < (100 * pb) * na) by (nonlinear_arith)
            requires
                pa * nb < pb * na,
        ;
        crate::rate::lemma_nearest_double_monotone(100 * pa, na, 100 * pb, nb);
    } else {
        assert(pb > 0) by (nonlinear_arith)
            requires
                pa * nb < pb * na,
        ;
    }
}

/// Two modules with the same pass rate as a fraction rank alike, so only
/// their names order them: the rank is a function of the rate.
pub proof fn lemma_equal_pass_rates_rank_alike(a: ModuleTally, b: ModuleTally)
    requires
        a.attempted_spec() > 0,
        b.attempted_spec() > 0,
        a.pass * b.attempted_spec() == b.pass * a.attempted_spec(),
    ensures
        rank_of(a) == rank_of(b),
{
    let pa = a.pass as nat;
    let pb = b.pass as nat;
    let na = a.attempted_spec();
    let nb = b.attempted_spec();
    assert((pa == 0) == (pb == 0)) by (nonlinear_arith)
        requires
            pa * nb == pb * na,
            na > 0,
            nb > 0,
    ;
    if pa > 0 {
        assert((100 * pa) * nb == (100 * pb) * na) by (nonlinear_arith)
            requires
                pa * nb == pb * na,
        ;
        crate::rate::lemma_nearest_double_of_equal_fractions(100 * pa, na, 100 * pb, nb);
    }
}

/// One row with a rate comes strictly before another only when its pass rate
/// is no higher.
pub proof fn lemma_rank_order_follows_pass_rate(a: ModuleTally, b: ModuleTally)
    requires
        a.attempted_spec() > 0,
        b.attempted_spec() > 0,
        rank_lt(rank_of(a), rank_of(b)),
    ensures
        a.pass * b.attempted_spec() <= b.pass * a.attempted_spec(),
{
    if b.pass * a.attempted_spec() < a.pass * b.attempted_spec() {
        lemma_lower_pass_rate_sorts_first((Seq::<char>::empty(), b), (Seq::<char>::empty(), a));
    }
}

/// Modules where nothing was attempted come after every module with a rate,
/// and a module where nothing passed comes before every module where
/// something did.
pub proof fn lemma_unrated_last_and_zero_first(a: (Seq<char>, ModuleTally), b: (Seq<char>, ModuleTally))
    ensures
        a.1.attempted_spec() > 0 && b.1.attempted_spec() == 0 ==> row_before(a, b),
        a.1.attempted_spec() > 0 && a.1.pass == 0 && b.1.pass > 0 ==> row_before(a, b),
{
}

/// A row of the table, with its rank computed once.
struct Row {
    name: Vec<char>,
    tally: ModuleTally,
    class: u8,
    scale: u128,
    significand: u64,
}

impl Row {
    spec fn view_pair(self) -> (Seq<char>, ModuleTally) {
        (self.name@, self.tally)
    }

    spec fn ranked(self) -> bool {
        rank_of(self.tally) == (self.class as int, -(self.scale as int), self.significand as int)
    }
}

spec fn row_views(rows: Seq<Row>) -> Seq<(Seq<char>, ModuleTally)> {
    Seq::new(rows.len(), |i: int| rows[i].view_pair())
}

/// Builds a ranked row.
fn make_row(name: Vec<char>, t: ModuleTally) -> (r: Row)
    requires
        t.pass + t.fail + t.timeout <= usize::MAX,
        t.attempted_spec() <= EXACT_COUNT_LIMIT,
    ensures
        r.name@ == name@,
        r.tally == t,
        r.ranked(),
{
    let attempted = t.attempted();
    if attempted == 0 {
        Row { name, tally: t, class: 2, scale: 0, significand: 0 }
    } else if t.pass == 0 {
        Row { name, tally: t, class: 0, scale: 0, significand: 0 }
    } else {
        let d = crate::rate::nearest_double_exec(100 * (t.pass as u64), attempted as u64);
        Row { name, tally: t, class: 1, scale: d.1, significand: d.0 }
    }
}

/// Whether row `a` comes before row `b` in the table.
fn row_before_exec(a: &Row, b: &Row) -> (r: bool)
    requires
        a.ranked(),
        b.ranked(),
    ensures
        r == row_before(a.view_pair(), b.view_pair()),
{
    if a.class != b.class {
        return a.class < b.class;
    }
    if a.scale != b.scale {
        return a.scale > b.scale;
    }
    if a.significand != b.significand {
        return a.significand < b.significand;
    }
    match compare_chars(&a.name, &b.name) {
        Order::Before => true,
        _ => false,
    }
}

/// Places a row whose name is new into rows kept in table order.
fn insert_row(rows: &mut Vec<Row>, x: Row)
    requires
        rows_in_order(row_views(old(rows)@)),
        forall|q: int| 0 <= q < old(rows)@.len() ==> (#[trigger] old(rows)@[q]).ranked(),
        forall|q: int| 0 <= q < old(rows)@.len() ==> (#[trigger] old(rows)@[q]).name@ != x.name@,
        x.ranked(),
    ensures
        rows_in_order(row_views(final(rows)@)),
        forall|q: int| 0 <= q < final(rows)@.len() ==> (#[trigger] final(rows)@[q]).ranked(),
        row_views(final(rows)@).to_set() == row_views(old(rows)@).to_set().insert(x.view_pair()),
        final(rows)@.len() == old(rows)@.len() + 1,
{
    let ghost xv = x.view_pair();
    let ghost old_rows = rows@;
    let ghost old_views = row_views(rows@);
    let mut p: usize = 0;
    while p < rows.len() && row_before_exec(&rows[p], &x)
        invariant
            rows@ == old_rows,
            old_views == row_views(old_rows),
            p <= rows@.len(),
            x.ranked(),
            xv == x.view_pair(),
            forall|q: int| 0 <= q < rows@.len() ==> (#[trigger] rows@[q]).ranked(),
            forall|q: int| 0 <= q < p ==> row_before(#[trigger] old_views[q], xv),
        decreases rows@.len() - p,
    {
        proof {
            assert(old_views[p as int] == rows@[p as int].view_pair());
        }
        p = p + 1;
    }
    proof {
        if p < old_views.len() {
            assert(old_views[p as int] == rows@[p as int].view_pair());
            assert(old_views[p as int].0 != xv.0);
            lemma_row_before_total(old_views[p as int], xv);
            assert(row_before(xv, old_views[p as int]));
        }
        assert forall|q: int| p <= q < old_views.len() implies row_before(xv, #[trigger] old_views[q]) by {
            if q > p {
                assert(row_before(old_views[p as int], old_views[q]));
                lemma_row_before_transitive(xv, old_views[p as int], old_views[q]);
            }
        }
    }
    rows.insert(p, x);
    proof {
        let nv = row_views(rows@);
        assert(nv =~= old_views.insert(p as int, xv));
        assert forall|a: int, b: int| 0 <= a < b < nv.len() implies row_before(#[trigger] nv[a], #[trigger] nv[b]) by {
            if a < p && b == p {
            } else if a < p && b > p {
                lemma_row_before_transitive(old_views[a], xv, old_views[b - 1]);
            } else if a == p {
            } else if b < p {
                assert(row_before(old_views[a], old_views[b]));
            } else {
                assert(row_before(old_views[a - 1], old_views[b - 1]));
            }
        }
        assert forall|q: int| 0 <= q < rows@.len() implies (#[trigger] rows@[q]).ranked() by {
            if q < p {
                assert(rows@[q] == old_rows[q]);
            } else if q > p {
                assert(rows@[q] == old_rows[q - 1]);
            }
        }
        assert forall|e: (Seq<char>, ModuleTally)| nv.to_set().contains(e) <==> old_views.to_set().insert(xv).contains(e) by {
            if nv.to_set().contains(e) {
                let q = choose|q: int| 0 <= q < nv.len() && nv[q] == e;
                if q < p {
                    assert(old_views[q] == e);
                } else if q > p {
                    assert(old_views[q - 1] == e);
                }
            }
            if old_views.to_set().contains(e) {
                let q = choose|q: int| 0 <= q < old_views.len() && old_views[q] == e;
                if q < p {
                    assert(nv[q] == e);
                } else {
                    assert(nv[q + 1] == e);
                }
            }
            if e == xv {
                assert(nv[p as int] == e);
            }
        }
        assert(nv.to_set() =~= old_views.to_set().insert(xv));
    }
}

/// The tally's entries in table order.
fn table_rows(t: &SortedMap<ModuleTally>, bound: usize) -> (rows: Vec<Row>)
    requires
        keys_ascending(t@),
        bound <= EXACT_COUNT_LIMIT,
        forall|i: int| 0 <= i < t@.len() ==> (#[trigger] t@[i]).1.pass + t@[i].1.fail + t@[i].1.timeout <= bound,
    ensures
        rows_in_order(row_views(rows@)),
        rows_are(row_views(rows@), as_map(t@)),
        forall|i: int| 0 <= i < rows@.len() ==> (#[trigger] rows@[i]).ranked(),
{
    let mut rows: Vec<Row> = Vec::new();
    let n = t.len();
    proof {
        assert(row_views(rows@).to_set() =~= t@.take(0).to_set());
    }
    for i in 0..n
        invariant
            n == t@.len(),
            keys_ascending(t@),
            bound <= EXACT_COUNT_LIMIT,
            forall|q: int| 0 <= q < t@.len() ==> (#[trigger] t@[q]).1.pass + t@[q].1.fail + t@[q].1.timeout <= bound,
            rows_in_order(row_views(rows@)),
            forall|q: int| 0 <= q < rows@.len() ==> (#[trigger] rows@[q]).ranked(),
            row_views(rows@).to_set() == t@.take(i as int).to_set(),
    {
        let name = chars_of(t.key_at(i).as_str());
        let x = make_row(name, *t.value_at(i));
        proof {
            let v = row_views(rows@);
            assert forall|q: int| 0 <= q < rows@.len() implies (#[trigger] rows@[q]).name@ != x.name@ by {
                assert(v[q] == rows@[q].view_pair());
                assert(v.to_set().contains(v[q]));
                let j = choose|j: int| 0 <= j < i && t@.take(i as int)[j] == v[q];
                assert(str_lt(t@[j].0, t@[i as int].0));
                lemma_str_lt_irreflexive(t@[i as int].0);
            }
        }
        insert_row(&mut rows, x);
        proof {
            assert(t@.take(i + 1) =~= t@.take(i as int).push(t@[i as int]));
            t@.take(i as int).lemma_push_to_set_commute(t@[i as int]);
        }
    }
    proof {
        let v = row_views(rows@);
        let m = as_map(t@);
        assert(t@.take(n as int) =~= t@);
        assert forall|q: int| 0 <= q < v.len() implies m.contains_key(#[trigger] v[q].0) && m[v[q].0] == v[q].1 by {
            assert(v.to_set().contains(v[q]));
            let j = choose|j: int| 0 <= j < n && t@[j] == v[q];
            lemma_key_index(t@, j);
        }
        assert forall|k: Seq<char>| #[trigger] m.contains_key(k) implies exists|q: int| 0 <= q < v.len() && #[trigger] v[q].0 == k by {
            let j = crate::sorted_map::key_index(t@, k);
            assert(t@.to_set().contains(t@[j]));
            let q = choose|q: int| 0 <= q < v.len() && v[q] == t@[j];
            assert(v[q].0 == k);
        }
    }
    rows
}

// ---------------------------------------------------------------------------
// The published text
// ---------------------------------------------------------------------------

/// A rate in tenths of a percent, printed with one decimal and a percent sign.
pub open spec fn percent_text(tenths: nat) -> Seq<char> {
    decimal(tenths / 10) + "."@ + seq![digit(tenths % 10)] + "%"@
}

/// The rate column of a row.
pub open spec fn rate_text(t: ModuleTally) -> Seq<char> {
    match rate_of(t) {
        None => "n/a"@,
        Some(x) => percent_text(x),
    }
}

/// One row of the table.
pub open spec fn row_text(r: (Seq<char>, ModuleTally)) -> Seq<char> {
    "| `"@ + r.0 + "` | "@ + decimal(r.1.pass as nat) + " | "@ + decimal(r.1.fail as nat) + " | "@
        + decimal(r.1.timeout as nat) + " | "@ + decimal(r.1.skipped as nat) + " | "@ + rate_text(r.1)
        + " |\n"@
}

/// How many results had outcome `o`.
pub open spec fn count_outcome(rs: Seq<TestResult>, o: Outcome) -> nat
    decreases rs.len(),
{
    if rs.len() == 0 {
        0
    } else {
        count_outcome(rs.drop_last(), o) + if rs.last().outcome == o {
            1nat
        } else {
            0nat
        }
    }
}

/// The counts of the whole run.
pub open spec fn total_of(rs: Seq<TestResult>) -> ModuleTally {
    ModuleTally {
        pass: count_outcome(rs, Outcome::Pass) as usize,
        fail: count_outcome(rs, Outcome::Fail) as usize,
        timeout: count_outcome(rs, Outcome::Timeout) as usize,
        skipped: count_outcome(rs, Outcome::Skipped) as usize,
    }
}

/// The sentence that states the run's pass rate and how many were skipped.
pub open spec fn summary_text(total: ModuleTally) -> Seq<char> {
    match rate_of(total) {
        None => "No tests were attempted.\n"@,
        Some(x) => decimal(total.pass as nat) + " of "@ + decimal(total.attempted_spec())
            + " attempted tests pass, which is "@ + percent_text(x) + ". "@ + decimal(total.skipped as nat)
            + " "@ + (if total.skipped == 1 {
            "test was"@
        } else {
            "tests were"@
        }) + " skipped and "@ + (if total.skipped == 1 {
            "it is"@
        } else {
            "they are"@
        }) + " not in that denominator.\n"@,
    }
}

/// A failure or a timeout.
pub open spec fn is_failure() -> spec_fn(TestResult) -> bool {
    |r: TestResult| r.outcome == Outcome::Fail || r.outcome == Outcome::Timeout
}

/// The name of an outcome as `Debug` prints it.
pub open spec fn outcome_name(o: Outcome) -> Seq<char> {
    match o {
        Outcome::Pass => "Pass"@,
        Outcome::Fail => "Fail"@,
        Outcome::Timeout => "Timeout"@,
        Outcome::Skipped => "Skipped"@,
    }
}

/// One line of the failure list.
pub open spec fn failure_line(r: TestResult) -> Seq<char> {
    "- `"@ + r.test@ + "` ("@ + outcome_name(r.outcome) + ")\n"@
}

/// The section that names every failure, or nothing when there is none.
pub open spec fn failures_text(fs: Seq<TestResult>) -> Seq<char> {
    if fs.len() == 0 {
        Seq::<char>::empty()
    } else {
        "\n"@ + "## Every failure\n"@ + "\n"@ + "All "@ + decimal(fs.len())
            + " of them, because a compatibility number without the failures behind it is a number nobody can act on.\n"@
            + "\n"@ + fs.flat_map(|r: TestResult| failure_line(r))
    }
}

/// The whole published report, with its rows in the given order.
pub open spec fn report_text(
    runtime: Seq<char>,
    suite: Seq<char>,
    rs: Seq<TestResult>,
    rows: Seq<(Seq<char>, ModuleTally)>,
) -> Seq<char> {
    "# Node.js compatibility\n"@ + "\n"@ + "Runtime: `"@ + runtime + "`. Suite: `"@ + suite + "`.\n"@ + "\n"@
        + summary_text(total_of(rs)) + "\n"@ + "| Module | Pass | Fail | Timeout | Skipped | Rate |\n"@
        + "|---|---:|---:|---:|---:|---:|\n"@ + rows.flat_map(|r: (Seq<char>, ModuleTally)| row_text(r))
        + failures_text(rs.filter(is_failure()))
}

/// Appends the characters of a string slice.
fn append_str(buf: &mut Vec<char>, s: &str)
    ensures
        final(buf)@ == old(buf)@ + s@,
{
    let mut c = chars_of(s);
    buf.append(&mut c);
}

/// Appends the decimal digits of a number.
fn append_decimal(buf: &mut Vec<char>, n: u64)
    ensures
        final(buf)@ == old(buf)@ + decimal(n as nat),
{
    let mut c = decimal_chars(n);
    buf.append(&mut c);
}

/// Appends a rate in tenths of a percent.
fn append_percent(buf: &mut Vec<char>, tenths: u64)
    requires
        tenths <= 1000,
    ensures
        final(buf)@ == old(buf)@ + percent_text(tenths as nat),
{
    let ghost start = buf@;
    append_decimal(buf, tenths / 10);
    append_str(buf, ".");
    let mut d = decimal_chars(tenths % 10);
    proof {
        assert(decimal((tenths % 10) as nat) == seq![digit((tenths % 10) as nat)]);
    }
    buf.append(&mut d);
    append_str(buf, "%");
    proof {
        assert(buf@ =~= start + percent_text(tenths as nat));
    }
}

/// The name of an outcome as `Debug` prints it.
fn outcome_str(o: Outcome) -> (s: &'static str)
    ensures
        s@ == outcome_name(o),
{
    match o {
        Outcome::Pass => "Pass",
        Outcome::Fail => "Fail",
        Outcome::Timeout => "Timeout",
        Outcome::Skipped => "Skipped",
    }
}

/// Appends one row of the table.
fn append_row(buf: &mut Vec<char>, row: &Row)
    requires
        row.tally.pass + row.tally.fail + row.tally.timeout <= usize::MAX,
        row.tally.attempted_spec() <= EXACT_COUNT_LIMIT,
    ensures
        final(buf)@ == old(buf)@ + row_text(row.view_pair()),
{
    let ghost start = buf@;
    let t = row.tally;
    append_str(buf, "| `");
    let mut name = crate::text::copy_chars(&row.name);
    buf.append(&mut name);
    append_str(buf, "` | ");
    append_decimal(buf, t.pass as u64);
    append_str(buf, " | ");
    append_decimal(buf, t.fail as u64);
    append_str(buf, " | ");
    append_decimal(buf, t.timeout as u64);
    append_str(buf, " | ");
    append_decimal(buf, t.skipped as u64);
    append_str(buf, " | ");
    let ghost before_rate = buf@;
    match t.rate_tenths() {
        Some(x) => append_percent(buf, x),
        None => append_str(buf, "n/a"),
    }
    proof {
        assert(buf@ =~= before_rate + rate_text(t));
    }
    append_str(buf, " |\n");
    proof {
        assert(buf@ =~= start + row_text(row.view_pair()));
    }
}

/// The totals of a run, and its failure lines in the order of the run.
fn run_totals(results: &[TestResult]) -> (r: (ModuleTally, Vec<char>, usize))
    ensures
        r.0 == total_of(results@),
        r.0.pass + r.0.fail + r.0.timeout + r.0.skipped == results@.len(),
        r.1@ == results@.filter(is_failure()).flat_map(|x: TestResult| failure_line(x)),
        r.2 == results@.filter(is_failure()).len(),
{
    let ghost rs = results@;
    let n = results.len();
    let mut pass: usize = 0;
    let mut fail: usize = 0;
    let mut timeout: usize = 0;
    let mut skipped: usize = 0;
    let mut failure_lines: Vec<char> = Vec::new();
    let mut failure_count: usize = 0;
    for i in 0..n
        invariant
            n == rs.len(),
            rs == results@,
            pass == count_outcome(rs.take(i as int), Outcome::Pass),
            fail == count_outcome(rs.take(i as int), Outcome::Fail),
            timeout == count_outcome(rs.take(i as int), Outcome::Timeout),
            skipped == count_outcome(rs.take(i as int), Outcome::Skipped),
            pass + fail + timeout + skipped == i,
            failure_count == rs.take(i as int).filter(is_failure()).len(),
            failure_lines@ == rs.take(i as int).filter(is_failure()).flat_map(|x: TestResult| failure_line(x)),
    {
        let r = &results[i];
        proof {
            assert(rs.take(i + 1).drop_last() =~= rs.take(i as int));
            assert(rs.take(i + 1) =~= rs.take(i as int).push(rs[i as int]));
            rs.take(i as int).lemma_filter_push(rs[i as int], is_failure());
            rs.take(i as int).filter(is_failure()).lemma_flat_map_push(|x: TestResult| failure_line(x), rs[i as int]);
            rs.take(i as int).lemma_filter_len(is_failure());
        }
        match r.outcome {
            Outcome::Pass => pass = pass + 1,
            Outcome::Fail => fail = fail + 1,
            Outcome::Timeout => timeout = timeout + 1,
            Outcome::Skipped => skipped = skipped + 1,
        }
        if r.outcome == Outcome::Fail || r.outcome == Outcome::Timeout {
            let ghost before_lines = failure_lines@;
            append_str(&mut failure_lines, "- `");
            append_str(&mut failure_lines, r.test.as_str());
            append_str(&mut failure_lines, "` (");
            append_str(&mut failure_lines, outcome_str(r.outcome));
            append_str(&mut failure_lines, ")\n");
            failure_count = failure_count + 1;
            proof {
                assert(failure_lines@ =~= before_lines + failure_line(rs[i as int]));
            }
        }
    }
    proof {
        assert(rs.take(n as int) =~= rs);
    }
    (ModuleTally { pass, fail, timeout, skipped }, failure_lines, failure_count)
}

/// Appends the sentence that states the run's pass rate.
fn append_summary(buf: &mut Vec<char>, total: ModuleTally)
    requires
        total.pass + total.fail + total.timeout <= usize::MAX,
        total.attempted_spec() <= EXACT_COUNT_LIMIT,
    ensures
        final(buf)@ == old(buf)@ + summary_text(total),
{
    let ghost start = buf@;
    match total.rate_tenths() {
        Some(x) => {
            append_decimal(buf, total.pass as u64);
            append_str(buf, " of ");
            append_decimal(buf, total.attempted() as u64);
            append_str(buf, " attempted tests pass, which is ");
            append_percent(buf, x);
            append_str(buf, ". ");
            append_decimal(buf, total.skipped as u64);
            append_str(buf, " ");
            if total.skipped == 1 {
                append_str(buf, "test was");
            } else {
                append_str(buf, "tests were");
            }
            append_str(buf, " skipped and ");
            if total.skipped == 1 {
                append_str(buf, "it is");
            } else {
                append_str(buf, "they are");
            }
            append_str(buf, " not in that denominator.\n");
        },
        None => {
            append_str(buf, "No tests were attempted.\n");
        },
    }
    proof {
        assert(buf@ =~= start + summary_text(total));
    }
}

/// Appends the rows of the table, in the order given.
fn append_rows(buf: &mut Vec<char>, rows: &Vec<Row>, rs: Ghost<Seq<TestResult>>)
    requires
        rows_are(row_views(rows@), tally_map(rs@)),
        rs@.len() <= EXACT_COUNT_LIMIT,
        rs@.len() <= usize::MAX,
    ensures
        final(buf)@ == old(buf)@ + row_views(rows@).flat_map(|r: (Seq<char>, ModuleTally)| row_text(r)),
{
    let ghost row_seq = row_views(rows@);
    let ghost start = buf@;
    let count = rows.len();
    for j in 0..count
        invariant
            count == rows@.len(),
            row_seq == row_views(rows@),
            rows_are(row_seq, tally_map(rs@)),
            rs@.len() <= EXACT_COUNT_LIMIT,
            rs@.len() <= usize::MAX,
            buf@ == start + row_seq.take(j as int).flat_map(|r: (Seq<char>, ModuleTally)| row_text(r)),
    {
        proof {
            row_seq.lemma_flat_map_take_append(|r: (Seq<char>, ModuleTally)| row_text(r), j as int);
            assert(row_seq[j as int] == rows@[j as int].view_pair());
            let m = row_seq[j as int].0;
            assert(tally_map(rs@).contains_key(m));
            lemma_tally_bound(rs@, m);
        }
        append_row(buf, &rows[j]);
        proof {
            assert(buf@ =~= start + row_seq.take(j + 1).flat_map(|r: (Seq<char>, ModuleTally)| row_text(r)));
        }
    }
    proof {
        assert(row_seq.take(count as int) =~= row_seq);
    }
}

/// Appends the section that names every failure.
fn append_failures(buf: &mut Vec<char>, lines: Vec<char>, count: usize, fs: Ghost<Seq<TestResult>>)
    requires
        lines@ == fs@.flat_map(|x: TestResult| failure_line(x)),
        count == fs@.len(),
    ensures
        final(buf)@ == old(buf)@ + failures_text(fs@),
{
    let ghost start = buf@;
    let mut lines = lines;
    if count > 0 {
        append_str(buf, "\n");
        append_str(buf, "## Every failure\n");
        append_str(buf, "\n");
        append_str(buf, "All ");
        append_decimal(buf, count as u64);
        append_str(
            buf,
            " of them, because a compatibility number without the failures behind it is a number nobody can act on.\n",
        );
        append_str(buf, "\n");
        buf.append(&mut lines);
    }
    proof {
        assert(buf@ =~= start + failures_text(fs@));
    }
}

/// Render the published compatibility table.
///
/// Worst modules first. A table sorted alphabetically hides the problem in the middle,
/// and the whole point of publishing this is that the problem is visible.
pub fn markdown(runtime: &str, suite: &str, results: &[TestResult]) -> (out: String)
    requires
        results@.len() <= EXACT_COUNT_LIMIT,
    ensures
        rows_in_order(table_order(tally_map(results@))),
        rows_are(table_order(tally_map(results@)), tally_map(results@)),
        out@ == report_text(runtime@, suite@, results@, table_order(tally_map(results@))),
{
    let by_module = tally(results);
    let totals = run_totals(results);
    let total = totals.0;
    let n = results.len();

    let mut out: Vec<char> = Vec::new();
    append_str(&mut out, "# Node.js compatibility\n");
    append_str(&mut out, "\n");
    append_str(&mut out, "Runtime: `");
    append_str(&mut out, runtime);
    append_str(&mut out, "`. Suite: `");
    append_str(&mut out, suite);
    append_str(&mut out, "`.\n");
    append_str(&mut out, "\n");
    append_summary(&mut out, total);
    append_str(&mut out, "\n");
    append_str(&mut out, "| Module | Pass | Fail | Timeout | Skipped | Rate |\n");
    append_str(&mut out, "|---|---:|---:|---:|---:|---:|\n");

    proof {
        assert forall|q: int| 0 <= q < by_module@.len() implies (#[trigger] by_module@[q]).1.pass
            + by_module@[q].1.fail + by_module@[q].1.timeout <= n by {
            lemma_key_index(by_module@, q);
            lemma_tally_bound(results@, by_module@[q].0);
        }
    }
    let rows = table_rows(&by_module, n);
    append_rows(&mut out, &rows, Ghost(results@));
    append_failures(&mut out, totals.1, totals.2, Ghost(results@.filter(is_failure())));
    proof {
        let m = tally_map(results@);
        let v = row_views(rows@);
        assert(rows_in_order(v) && rows_are(v, m));
        let chosen = table_order(m);
        lemma_table_order_is_determined(chosen, v, m);
        assert(out@ =~= report_text(runtime@, suite@, results@, v));
    }
    string_of(&out)
}

// ---------------------------------------------------------------------------
// Laws of the report
// ---------------------------------------------------------------------------

/// Every test of a run is counted exactly once in the totals: the attempted
/// tests and the skipped ones together are the whole run.
pub proof fn lemma_totals_cover_run(rs: Seq<TestResult>)
    ensures
        count_outcome(rs, Outcome::Pass) + count_outcome(rs, Outcome::Fail) + count_outcome(rs, Outcome::Timeout)
            + count_outcome(rs, Outcome::Skipped) == rs.len(),
    decreases rs.len(),
{
    if rs.len() > 0 {
        lemma_totals_cover_run(rs.drop_last());
    }
}

/// Flattening a prefix of a sequence gives a prefix of flattening it all;
/// the result is what follows that prefix.
proof fn lemma_flat_map_prefix<A, B>(s: Seq<A>, f: spec_fn(A) -> Seq<B>, j: int) -> (rest: Seq<B>)
    requires
        0 <= j <= s.len(),
    ensures
        s.flat_map(f) == s.take(j).flat_map(f) + rest,
    decreases s.len() - j,
{
    if j == s.len() {
        assert(s.take(j) =~= s);
        assert(s.flat_map(f) =~= s.take(j).flat_map(f) + Seq::<B>::empty());
        Seq::<B>::empty()
    } else {
        let rest = lemma_flat_map_prefix(s, f, j + 1);
        s.lemma_flat_map_take_append(f, j);
        assert(s.flat_map(f) =~= s.take(j).flat_map(f) + (f(s[j]) + rest));
        f(s[j]) + rest
    }
}

/// Every failing or timed out test is named in the report, with its outcome,
/// whatever the order of the rows: a compatibility number without the
/// failures behind it is a number nobody can act on.
pub proof fn lemma_every_failure_is_named(
    runtime: Seq<char>,
    suite: Seq<char>,
    rs: Seq<TestResult>,
    rows: Seq<(Seq<char>, ModuleTally)>,
    i: int,
)
    requires
        0 <= i < rs.len(),
        rs[i].outcome == Outcome::Fail || rs[i].outcome == Outcome::Timeout,
    ensures
        contains(report_text(runtime, suite, rs, rows), failure_line(rs[i])),
{
    let f = |r: TestResult| failure_line(r);
    let fs = rs.filter(is_failure());
    rs.lemma_filter_contains(is_failure(), i);
    let k = choose|k: int| 0 <= k < fs.len() && fs[k] == rs[i];
    let rest = lemma_flat_map_prefix(fs, f, k + 1);
    fs.lemma_flat_map_take_append(f, k);
    let before = fs.take(k).flat_map(f);
    let line = failure_line(rs[i]);
    let report = report_text(runtime, suite, rs, rows);
    let head = report.take(report.len() - fs.flat_map(f).len());
    assert(report =~= head + (before + line + rest));
    let at = head.len() + before.len();
    assert(report.subrange(at as int, (at + line.len()) as int) =~= line);
}

/// A module whose every test was skipped prints `n/a` for its rate, and no
/// other module does: it has no pass rate, and printing 0% or 100% for it would
/// be wrong either way.
pub proof fn lemma_no_rate_exactly_when_nothing_attempted(t: ModuleTally)
    ensures
        (rate_text(t) == "n/a"@) <==> (t.attempted_spec() == 0),
{
    reveal_strlit("n/a");
    reveal_strlit("%");
    if t.attempted_spec() != 0 {
        let x = rate_tenths_spec(t.pass as nat, t.attempted_spec());
        let p = percent_text(x);
        assert(p.last() == '%');
        assert("n/a"@.last() == 'a');
    }
}

/// Rows in table order are determined by the entries they hold: two orderings
/// of the same tally are the same sequence, so the report is a function of
/// the run.
pub proof fn lemma_table_order_is_determined(
    a: Seq<(Seq<char>, ModuleTally)>,
    b: Seq<(Seq<char>, ModuleTally)>,
    m: Map<Seq<char>, ModuleTally>,
)
    requires
        rows_in_order(a),
        rows_are(a, m),
        rows_in_order(b),
        rows_are(b, m),
    ensures
        a == b,
{
    assert forall|x: (Seq<char>, ModuleTally)| a.contains(x) <==> b.contains(x) by {
        if a.contains(x) {
            let i = choose|i: int| 0 <= i < a.len() && a[i] == x;
            assert(m.contains_key(a[i].0));
            let j = choose|j: int| 0 <= j < b.len() && #[trigger] b[j].0 == x.0;
            assert(b[j] == x);
        }
        if b.contains(x) {
            let i = choose|i: int| 0 <= i < b.len() && b[i] == x;
            assert(m.contains_key(b[i].0));
            let j = choose|j: int| 0 <= j < a.len() && #[trigger] a[j].0 == x.0;
            assert(a[j] == x);
        }
    }
    lemma_ordered_rows_unique(a, b);
}

/// Two sequences in strict table order with the same elements are equal.
proof fn lemma_ordered_rows_unique(a: Seq<(Seq<char>, ModuleTally)>, b: Seq<(Seq<char>, ModuleTally)>)
    requires
        rows_in_order(a),
        rows_in_order(b),
        forall|x: (Seq<char>, ModuleTally)| a.contains(x) <==> b.contains(x),
    ensures
        a == b,
    decreases a.len(),
{
    if a.len() == 0 {
        if b.len() > 0 {
            assert(b.contains(b[0]));
        }
        assert(a =~= b);
    } else {
        assert(a.contains(a.last()));
        assert(b.len() > 0);
        assert(b.contains(b.last()));
        let x = a.last();
        let y = b.last();
        let i = choose|i: int| 0 <= i < a.len() && a[i] == y;
        let j = choose|j: int| 0 <= j < b.len() && b[j] == x;
        if x != y {
            assert(i < a.len() - 1);
            assert(j < b.len() - 1);
            assert(row_before(a[i], a[a.len() - 1]));
            assert(row_before(b[j], b[b.len() - 1]));
            lemma_row_before_total(x, y);
        }
        let a2 = a.drop_last();
        let b2 = b.drop_last();
        assert forall|z: (Seq<char>, ModuleTally)| a2.contains(z) <==> b2.contains(z) by {
            if a2.contains(z) {
                let k = choose|k: int| 0 <= k < a2.len() && a2[k] == z;
                assert(row_before(a[k], a[a.len() - 1]));
                lemma_row_before_total(z, z);
                assert(b.contains(z));
                let l = choose|l: int| 0 <= l < b.len() && b[l] == z;
                if l == b.len() - 1 {
                    assert(z == x);
                }
                assert(b2[l] == z);
            }
            if b2.contains(z) {
                let k = choose|k: int| 0 <= k < b2.len() && b2[k] == z;
                assert(row_before(b[k], b[b.len() - 1]));
                lemma_row_before_total(z, z);
                assert(a.contains(z));
                let l = choose|l: int| 0 <= l < a.len() && a[l] == z;
                if l == a.len() - 1 {
                    assert(z == y);
                }
                assert(a2[l] == z);
            }
        }
        assert forall|p: int, q: int| 0 <= p < q < a2.len() implies row_before(#[trigger] a2[p], #[trigger] a2[q]) by {
            assert(row_before(a[p], a[q]));
        }
        assert forall|p: int, q: int| 0 <= p < q < b2.len() implies row_before(#[trigger] b2[p], #[trigger] b2[q]) by {
            assert(row_before(b[p], b[q]));
        }
        lemma_ordered_rows_unique(a2, b2);
        assert(a =~= a2.push(x));
        assert(b =~= b2.push(y));
    }
}

// ---------------------------------------------------------------------------
// The report's counts and the expectations file's counts
// ---------------------------------------------------------------------------

/// The keys of `m` whose entry meets `q`.
pub open spec fn keys_where(
    m: Map<Seq<char>, Outcome>,
    q: spec_fn((Seq<char>, Outcome)) -> bool,
) -> Set<Seq<char>> {
    Set::new(|k: Seq<char>| m.contains_key(k) && q((k, m[k])))
}

/// Each result as a named outcome.
pub open spec fn named_outcomes(rs: Seq<TestResult>) -> Seq<(Seq<char>, Outcome)> {
    Seq::new(rs.len(), |i: int| (rs[i].test@, rs[i].outcome))
}

/// No two results name the same test.
pub open spec fn one_result_per_test(rs: Seq<TestResult>) -> bool {
    forall|i: int, j: int| 0 <= i < j < rs.len() ==> #[trigger] rs[i].test@ != #[trigger] rs[j].test@
}

/// Adding one key to a set of keys.
proof fn lemma_keys_where_insert(
    m: Map<Seq<char>, Outcome>,
    q: spec_fn((Seq<char>, Outcome)) -> bool,
    k: Seq<char>,
    o: Outcome,
)
    requires
        !m.contains_key(k),
        keys_where(m, q).finite(),
    ensures
        keys_where(m.insert(k, o), q).finite(),
        keys_where(m.insert(k, o), q).len() == keys_where(m, q).len() + if q((k, o)) {
            1nat
        } else {
            0nat
        },
{
    let before = keys_where(m, q);
    let after = keys_where(m.insert(k, o), q);
    if q((k, o)) {
        assert(after =~= before.insert(k));
        assert(!before.contains(k));
    } else {
        assert(after =~= before);
    }
}

/// Counting the entries of a map held in ascending order counts its keys.
proof fn lemma_entries_count(s: Seq<(Seq<char>, Outcome)>, q: spec_fn((Seq<char>, Outcome)) -> bool)
    requires
        keys_ascending(s),
    ensures
        keys_where(as_map(s), q).finite(),
        s.filter(q).len() == keys_where(as_map(s), q).len(),
    decreases s.len(),
{
    if s.len() == 0 {
        assert(keys_where(as_map(s), q) =~= Set::<Seq<char>>::empty());
        reveal(Seq::filter);
    } else {
        let t = s.drop_last();
        let x = s.last();
        assert(keys_ascending(t)) by {
            assert forall|i: int, j: int| 0 <= i < j < t.len() implies str_lt(#[trigger] t[i].0, #[trigger] t[j].0) by {
                assert(str_lt(s[i].0, s[j].0));
            }
        }
        lemma_entries_count(t, q);
        // The last key is new, and the map of `s` is that of `t` with it added.
        assert(!as_map(t).contains_key(x.0)) by {
            if has_key(t, x.0) {
                let j = key_index(t, x.0);
                assert(str_lt(s[j].0, s[s.len() - 1].0));
                lemma_str_lt_irreflexive(x.0);
            }
        }
        assert(as_map(s) =~= as_map(t).insert(x.0, x.1)) by {
            assert forall|k: Seq<char>| #[trigger] as_map(s).contains_key(k) == as_map(t).insert(x.0, x.1).contains_key(k) by {
                if has_key(s, k) {
                    let j = key_index(s, k);
                    if j < s.len() - 1 {
                        assert(t[j].0 == k);
                    }
                }
                if has_key(t, k) {
                    let j = key_index(t, k);
                    assert(s[j].0 == k);
                }
                if k == x.0 {
                    assert(s[s.len() - 1].0 == k);
                }
            }
            assert forall|k: Seq<char>| #[trigger] as_map(s).contains_key(k) implies as_map(s)[k] == as_map(t).insert(x.0, x.1)[k] by {
                let j = key_index(s, k);
                lemma_key_index(s, j);
                if j < s.len() - 1 {
                    assert(t[j] == s[j]);
                    assert(keys_ascending(t));
                    lemma_key_index(t, j);
                }
            }
        }
        lemma_keys_where_insert(as_map(t), q, x.0, x.1);
        assert(s =~= t.push(x));
        t.lemma_filter_push(x, q);
    }
}

/// The tests a run's results name are the keys of its outcome map.
proof fn lemma_results_map_keys(rs: Seq<TestResult>, k: Seq<char>)
    ensures
        results_map(rs).contains_key(k) <==> exists|i: int| 0 <= i < rs.len() && #[trigger] rs[i].test@ == k,
    decreases rs.len(),
{
    if rs.len() > 0 {
        let t = rs.drop_last();
        lemma_results_map_keys(t, k);
        if exists|i: int| 0 <= i < t.len() && #[trigger] t[i].test@ == k {
            let i = choose|i: int| 0 <= i < t.len() && #[trigger] t[i].test@ == k;
            assert(rs[i] == t[i]);
        }
        if exists|i: int| 0 <= i < rs.len() && #[trigger] rs[i].test@ == k {
            let i = choose|i: int| 0 <= i < rs.len() && #[trigger] rs[i].test@ == k;
            if i < rs.len() - 1 {
                assert(t[i] == rs[i]);
            }
        }
    }
}

/// With one result per test, counting the results counts the keys of the
/// outcome map.
proof fn lemma_results_count(rs: Seq<TestResult>, q: spec_fn((Seq<char>, Outcome)) -> bool)
    requires
        one_result_per_test(rs),
    ensures
        keys_where(results_map(rs), q).finite(),
        named_outcomes(rs).filter(q).len() == keys_where(results_map(rs), q).len(),
    decreases rs.len(),
{
    if rs.len() == 0 {
        assert(keys_where(results_map(rs), q) =~= Set::<Seq<char>>::empty());
        assert(named_outcomes(rs) =~= Seq::<(Seq<char>, Outcome)>::empty());
        reveal(Seq::filter);
    } else {
        let t = rs.drop_last();
        let r = rs.last();
        assert(one_result_per_test(t)) by {
            assert forall|i: int, j: int| 0 <= i < j < t.len() implies #[trigger] t[i].test@ != #[trigger] t[j].test@ by {
                assert(t[i] == rs[i] && t[j] == rs[j]);
            }
        }
        lemma_results_count(t, q);
        lemma_results_map_keys(t, r.test@);
        assert(!results_map(t).contains_key(r.test@)) by {
            if exists|i: int| 0 <= i < t.len() && #[trigger] t[i].test@ == r.test@ {
                let i = choose|i: int| 0 <= i < t.len() && #[trigger] t[i].test@ == r.test@;
                assert(rs[i].test@ != rs[rs.len() - 1].test@);
            }
        }
        lemma_keys_where_insert(results_map(t), q, r.test@, r.outcome);
        assert(named_outcomes(rs) =~= named_outcomes(t).push((r.test@, r.outcome)));
        named_outcomes(t).lemma_filter_push((r.test@, r.outcome), q);
    }
}

/// Counting the passing named outcomes counts the passing results.
proof fn lemma_named_counts(rs: Seq<TestResult>)
    ensures
        named_outcomes(rs).filter(passed()).len() == count_outcome(rs, Outcome::Pass),
        named_outcomes(rs).filter(was_attempted()).len() == count_outcome(rs, Outcome::Pass)
            + count_outcome(rs, Outcome::Fail) + count_outcome(rs, Outcome::Timeout),
    decreases rs.len(),
{
    if rs.len() == 0 {
        assert(named_outcomes(rs) =~= Seq::<(Seq<char>, Outcome)>::empty());
        reveal(Seq::filter);
    } else {
        let t = rs.drop_last();
        let r = rs.last();
        lemma_named_counts(t);
        assert(named_outcomes(rs) =~= named_outcomes(t).push((r.test@, r.outcome)));
        named_outcomes(t).lemma_filter_push((r.test@, r.outcome), passed());
        named_outcomes(t).lemma_filter_push((r.test@, r.outcome), was_attempted());
    }
}

/// With one result per test, the expectations file built from a run counts
/// the same passing and attempted tests as the report's summary line.
pub proof fn lemma_summary_agrees_with_expectations(rs: Seq<TestResult>, e: Seq<(Seq<char>, Outcome)>)
    requires
        one_result_per_test(rs),
        keys_ascending(e),
        as_map(e) == results_map(rs),
    ensures
        e.filter(passed()).len() == count_outcome(rs, Outcome::Pass),
        e.filter(was_attempted()).len() == count_outcome(rs, Outcome::Pass) + count_outcome(rs, Outcome::Fail)
            + count_outcome(rs, Outcome::Timeout),
{
    lemma_entries_count(e, passed());
    lemma_entries_count(e, was_attempted());
    lemma_results_count(rs, passed());
    lemma_results_count(rs, was_attempted());
    lemma_named_counts(rs);
    lemma_totals_cover_run(rs);
}

} // verus!
