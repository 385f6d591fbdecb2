//! Putting tests and results in name order, keeping the run order of equal
//! names, as `sort_by` on the name does.

use vstd::prelude::*;
use crate::outcome::TestResult;
use crate::sorted_map::{lemma_str_lt_total, lemma_str_lt_transitive, lemma_str_lt_irreflexive, str_lt};
use crate::suite::Test;
use crate::text::{chars_of, contains};

verus! {

/// Something with a name to be sorted by.
pub trait Named: Sized {
    /// The name.
    spec fn name_view(&self) -> Seq<char>;

    /// The characters of the name.
    fn name_chars(&self) -> (v: Vec<char>)
        ensures
            v@ == self.name_view(),
    ;
}

impl Named for TestResult {
    open spec fn name_view(&self) -> Seq<char> {
        self.test@
    }

    fn name_chars(&self) -> (v: Vec<char>) {
        chars_of(self.test.as_str())
    }
}

impl Named for Test {
    open spec fn name_view(&self) -> Seq<char> {
        self.name@
    }

    fn name_chars(&self) -> (v: Vec<char>) {
        chars_of(self.name.as_str())
    }
}

/// `x` placed after every element whose name does not come after its own.
pub open spec fn insert_by_name<T: Named>(s: Seq<T>, x: T) -> Seq<T>
    decreases s.len(),
{
    if s.len() == 0 {
        seq![x]
    } else if !str_lt(x.name_view(), s.last().name_view()) {
        s.push(x)
    } else {
        insert_by_name(s.drop_last(), x).push(s.last())
    }
}

/// The elements in name order, equal names in their original order.
pub open spec fn sorted_by_name<T: Named>(s: Seq<T>) -> Seq<T>
    decreases s.len(),
{
    if s.len() == 0 {
        s
    } else {
        insert_by_name(sorted_by_name(s.drop_last()), s.last())
    }
}

/// Names never decrease along the sequence.
pub open spec fn names_ascending<T: Named>(s: Seq<T>) -> bool {
    forall|i: int, j: int| 0 <= i < j < s.len() ==> !str_lt(#[trigger] s[j].name_view(), #[trigger] s[i].name_view())
}

/// Inserting at the position after the last name that does not come after
/// `x` is what `insert_by_name` does.
proof fn lemma_insert_at<T: Named>(s: Seq<T>, x: T, p: int)
    requires
        0 <= p <= s.len(),
        p == 0 || !str_lt(x.name_view(), s[p - 1].name_view()),
        forall|j: int| p <= j < s.len() ==> str_lt(x.name_view(), #[trigger] s[j].name_view()),
    ensures
        insert_by_name(s, x) == s.insert(p, x),
    decreases s.len(),
{
    if s.len() == 0 {
        assert(s.insert(p, x) =~= seq![x]);
    } else if p == s.len() {
        assert(s.insert(p, x) =~= s.push(x));
    } else {
        let r = s.drop_last();
        assert forall|j: int| p <= j < r.len() implies str_lt(x.name_view(), #[trigger] r[j].name_view()) by {
            assert(r[j] == s[j]);
        }
        if p > 0 {
            assert(r[p - 1] == s[p - 1]);
        }
        lemma_insert_at(r, x, p);
        assert(s.insert(p, x) =~= r.insert(p, x).push(s.last()));
    }
}

/// Insertion keeps names ascending.
pub proof fn lemma_insert_keeps_order<T: Named>(s: Seq<T>, x: T)
    requires
        names_ascending(s),
    ensures
        names_ascending(insert_by_name(s, x)),
        insert_by_name(s, x).to_multiset() == s.to_multiset().insert(x),
        insert_by_name(s, x).len() == s.len() + 1,
    decreases s.len(),
{
    broadcast use vstd::seq_lib::group_to_multiset_ensures;
    if s.len() == 0 {
        assert(seq![x] =~= Seq::<T>::empty().push(x));
    } else if !str_lt(x.name_view(), s.last().name_view()) {
        let t = s.push(x);
        assert forall|i: int, j: int| 0 <= i < j < t.len() implies !str_lt(#[trigger] t[j].name_view(), #[trigger] t[i].name_view()) by {
            if j == s.len() && i < j {
                assert(t[i] == s[i]);
                if i < s.len() - 1 {
                    assert(!str_lt(s.last().name_view(), s[i].name_view()));
                    lemma_str_lt_total(s.last().name_view(), s[i].name_view());
                    lemma_str_lt_total(x.name_view(), s.last().name_view());
                    if str_lt(x.name_view(), s[i].name_view()) {
                        if s.last().name_view() == s[i].name_view() {
                        } else if x.name_view() == s.last().name_view() {
                        } else {
                            lemma_str_lt_transitive(s[i].name_view(), s.last().name_view(), x.name_view());
                            lemma_str_lt_total(x.name_view(), s[i].name_view());
                        }
                    }
                }
            } else {
                assert(t[i] == s[i] && t[j] == s[j]);
            }
        }
    } else {
        let r = s.drop_last();
        let last = s.last();
        assert(names_ascending(r)) by {
            assert forall|i: int, j: int| 0 <= i < j < r.len() implies !str_lt(#[trigger] r[j].name_view(), #[trigger] r[i].name_view()) by {
                assert(r[i] == s[i] && r[j] == s[j]);
            }
        }
        lemma_insert_keeps_order(r, x);
        let u = insert_by_name(r, x);
        let t = u.push(last);
        // Every element of `u` is `x` or an element of `r`, and none comes after `last`.
        assert forall|i: int| 0 <= i < u.len() implies !str_lt(last.name_view(), #[trigger] u[i].name_view()) by {
            assert(u.to_multiset().count(u[i]) > 0);
            assert(u.to_multiset() == r.to_multiset().insert(x));
            if u[i] != x {
                assert(r.to_multiset().count(u[i]) > 0);
                assert(r.contains(u[i]));
                let k = choose|k: int| 0 <= k < r.len() && r[k] == u[i];
                assert(s[k] == r[k]);
                assert(!str_lt(s[s.len() - 1].name_view(), s[k].name_view()));
            } else {
                lemma_str_lt_total(x.name_view(), last.name_view());
            }
        }
        assert forall|i: int, j: int| 0 <= i < j < t.len() implies !str_lt(#[trigger] t[j].name_view(), #[trigger] t[i].name_view()) by {
            if j == u.len() {
                assert(t[j] == last);
                assert(t[i] == u[i]);
                lemma_str_lt_total(last.name_view(), u[i].name_view());
            } else {
                assert(t[i] == u[i] && t[j] == u[j]);
            }
        }
        assert(s =~= r.push(last));
    }
}

/// Sorting by name puts names in ascending order and keeps every element.
pub proof fn lemma_sorted_by_name<T: Named>(s: Seq<T>)
    ensures
        names_ascending(sorted_by_name(s)),
        sorted_by_name(s).to_multiset() == s.to_multiset(),
        sorted_by_name(s).len() == s.len(),
    decreases s.len(),
{
    broadcast use vstd::seq_lib::group_to_multiset_ensures;
    if s.len() > 0 {
        lemma_sorted_by_name(s.drop_last());
        lemma_insert_keeps_order(sorted_by_name(s.drop_last()), s.last());
        assert(s =~= s.drop_last().push(s.last()));
    }
}

/// When the last name of an ascending sequence does not come after `x`'s
/// name, no name in it does.
proof fn lemma_none_after<T: Named>(u: Seq<T>, x: T)
    requires
        names_ascending(u),
        u.len() > 0,
        !str_lt(x.name_view(), u.last().name_view()),
    ensures
        forall|k: int| 0 <= k < u.len() ==> !str_lt(x.name_view(), #[trigger] u[k].name_view()),
{
    let l = u.last().name_view();
    assert forall|k: int| 0 <= k < u.len() implies !str_lt(x.name_view(), #[trigger] u[k].name_view()) by {
        if k < u.len() - 1 {
            assert(!str_lt(u[u.len() - 1].name_view(), u[k].name_view()));
            lemma_str_lt_total(x.name_view(), l);
            lemma_str_lt_total(l, u[k].name_view());
            lemma_str_lt_total(x.name_view(), u[k].name_view());
            if str_lt(x.name_view(), u[k].name_view()) {
                if x.name_view() != l && l != u[k].name_view() {
                    lemma_str_lt_transitive(u[k].name_view(), l, x.name_view());
                }
            }
        }
    }
}

/// Keeping the elements that pass `p` after an insertion is inserting into
/// what passes, when `x` itself passes, and leaving it as it is otherwise.
pub proof fn lemma_insert_then_filter<T: Named>(u: Seq<T>, x: T, p: spec_fn(T) -> bool)
    requires
        names_ascending(u),
    ensures
        insert_by_name(u, x).filter(p) == if p(x) {
            insert_by_name(u.filter(p), x)
        } else {
            u.filter(p)
        },
    decreases u.len(),
{
    reveal(Seq::filter);
    if u.len() == 0 {
        assert(u.filter(p) =~= u);
        assert(seq![x] =~= u.push(x));
        u.lemma_filter_push(x, p);
    } else if !str_lt(x.name_view(), u.last().name_view()) {
        u.lemma_filter_push(x, p);
        let f = u.filter(p);
        if p(x) && f.len() > 0 {
            lemma_none_after(u, x);
            assert(f.contains(f.last()));
            u.lemma_filter_contains_rev(p, f.last());
            let k = choose|k: int| 0 <= k < u.len() && u[k] == f.last();
            assert(!str_lt(x.name_view(), u[k].name_view()));
        }
    } else {
        let r = u.drop_last();
        let l = u.last();
        assert(names_ascending(r)) by {
            assert forall|i: int, j: int| 0 <= i < j < r.len() implies !str_lt(#[trigger] r[j].name_view(), #[trigger] r[i].name_view()) by {
                assert(r[i] == u[i] && r[j] == u[j]);
            }
        }
        lemma_insert_then_filter(r, x, p);
        insert_by_name(r, x).lemma_filter_push(l, p);
        assert(u =~= r.push(l));
        r.lemma_filter_push(l, p);
        if p(x) && p(l) {
            let g = r.filter(p).push(l);
            assert(g.drop_last() =~= r.filter(p));
            assert(g.last() == l);
        }
    }
}

/// Sorting by name and keeping the elements that pass `p` can be done in
/// either order: the result is the same sequence.
pub proof fn lemma_sort_commutes_with_filter<T: Named>(s: Seq<T>, p: spec_fn(T) -> bool)
    ensures
        sorted_by_name(s.filter(p)) == sorted_by_name(s).filter(p),
    decreases s.len(),
{
    reveal(Seq::filter);
    if s.len() == 0 {
        assert(s.filter(p) =~= s);
    } else {
        let r = s.drop_last();
        let x = s.last();
        assert(s =~= r.push(x));
        r.lemma_filter_push(x, p);
        lemma_sort_commutes_with_filter(r, p);
        lemma_sorted_by_name(r);
        lemma_insert_then_filter(sorted_by_name(r), x, p);
        if p(x) {
            let g = r.filter(p).push(x);
            assert(g.drop_last() =~= r.filter(p));
        }
    }
}

/// Whether a test's name contains `f`.
pub open spec fn name_contains(f: Seq<char>) -> spec_fn(Test) -> bool {
    |t: Test| contains(t.name@, f)
}

/// A filtered discovery puts in order exactly the tests that the unfiltered
/// one finds and whose names contain the filter, in the same order as there:
/// sorting the tests a filter keeps gives the sorted tests, filtered.
pub proof fn lemma_filtered_discovery_is_discovery_filtered(tests: Seq<Test>, f: Seq<char>)
    ensures
        sorted_by_name(tests.filter(name_contains(f))) == sorted_by_name(tests).filter(name_contains(f)),
{
    lemma_sort_commutes_with_filter(tests, name_contains(f));
}

/// Sort by name, keeping the original order of equal names.
pub fn sort_by_name<T: Named>(v: Vec<T>) -> (r: Vec<T>)
    ensures
        r@ == sorted_by_name(v@),
{
    // Reverse once, so that popping yields the elements in their original order.
    let ghost orig = v@;
    let mut v = v;
    let mut reversed: Vec<T> = Vec::new();
    while v.len() > 0
        invariant
            orig == v@ + reversed@.reverse(),
        decreases v@.len(),
    {
        let ghost before = v@;
        let x = v.pop().unwrap();
        let ghost rb = reversed@;
        reversed.push(x);
        proof {
            assert(before =~= v@.push(x));
            assert(reversed@.reverse() =~= seq![x] + rb.reverse());
            assert(orig =~= v@ + reversed@.reverse());
        }
    }
    let mut out: Vec<T> = Vec::new();
    let ghost n = orig.len();
    proof {
        assert(orig =~= reversed@.reverse());
        assert(orig.take(0) =~= Seq::<T>::empty());
    }
    while reversed.len() > 0
        invariant
            reversed@.len() <= n,
            n == orig.len(),
            orig.subrange(n - reversed@.len(), n as int) == reversed@.reverse(),
            out@ == sorted_by_name(orig.take(n - reversed@.len())),
            names_ascending(out@),
        decreases reversed@.len(),
    {
        let ghost i = n - reversed@.len();
        let ghost rb = reversed@;
        let x = reversed.pop().unwrap();
        proof {
            assert(rb =~= reversed@.push(x));
            assert(rb.reverse()[0] == x);
            assert(orig[i] == x) by {
                assert(orig.subrange(i, n as int)[0] == orig[i]);
            }
            assert(orig.subrange(i + 1, n as int) =~= reversed@.reverse()) by {
                assert forall|k: int| 0 <= k < n - i - 1 implies orig.subrange(i + 1, n as int)[k] == reversed@.reverse()[k] by {
                    assert(orig.subrange(i, n as int)[k + 1] == rb.reverse()[k + 1]);
                }
            }
            assert(orig.take(i + 1).drop_last() =~= orig.take(i));
            assert(orig.take(i + 1).last() == x);
            lemma_sorted_by_name(orig.take(i));
        }
        let name = x.name_chars();
        let mut p = out.len();
        while p > 0 && name_before(&name, &out[p - 1])
            invariant
                p <= out@.len(),
                name@ == x.name_view(),
                forall|j: int| p <= j < out@.len() ==> str_lt(x.name_view(), #[trigger] out@[j].name_view()),
            decreases p,
        {
            p = p - 1;
        }
        proof {
            lemma_insert_at(out@, x, p as int);
            lemma_insert_keeps_order(out@, x);
        }
        out.insert(p, x);
    }
    proof {
        assert(orig.take(n as int) =~= orig);
    }
    out
}

/// Whether `name` comes before the name of `y`.
fn name_before<T: Named>(name: &Vec<char>, y: &T) -> (b: bool)
    ensures
        b == str_lt(name@, y.name_view()),
{
    let other = y.name_chars();
    match crate::sorted_map::compare_chars(name, &other) {
        crate::sorted_map::Order::Before => true,
        _ => false,
    }
}

/// Put a run's results in the order of their test names.
pub fn sort_results(results: Vec<TestResult>) -> (r: Vec<TestResult>)
    ensures
        r@ == sorted_by_name(results@),
        names_ascending(r@),
        r@.to_multiset() == results@.to_multiset(),
{
    proof {
        lemma_sorted_by_name(results@);
    }
    sort_by_name(results)
}

/// Put discovered tests in the order of their names.
pub fn sort_tests(tests: Vec<Test>) -> (r: Vec<Test>)
    ensures
        r@ == sorted_by_name(tests@),
        names_ascending(r@),
        r@.to_multiset() == tests@.to_multiset(),
{
    proof {
        lemma_sorted_by_name(tests@);
    }
    sort_by_name(tests)
}

} // verus!
