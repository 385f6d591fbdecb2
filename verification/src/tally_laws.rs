//! How tallies combine: the tally of two runs joined is their tallies
//! merged, and the order of a run's results does not matter.

use vstd::prelude::*;
use crate::outcome::{Outcome, TestResult};
use crate::report::{
    ModuleTally, count_in, has_module, lemma_count_in_bound, lemma_count_zero, module_name, tally_map,
};

verus! {

/// A tally with nothing counted.
pub open spec fn zero_tally() -> ModuleTally {
    ModuleTally { pass: 0, fail: 0, timeout: 0, skipped: 0 }
}

/// Two tallies added field by field.
pub open spec fn add_tallies(a: ModuleTally, b: ModuleTally) -> ModuleTally {
    ModuleTally {
        pass: (a.pass + b.pass) as usize,
        fail: (a.fail + b.fail) as usize,
        timeout: (a.timeout + b.timeout) as usize,
        skipped: (a.skipped + b.skipped) as usize,
    }
}

/// The tally of module `k` in `m`, all zero when `m` does not hold it.
pub open spec fn tally_or_zero(m: Map<Seq<char>, ModuleTally>, k: Seq<char>) -> ModuleTally {
    if m.contains_key(k) {
        m[k]
    } else {
        zero_tally()
    }
}

/// Two tallies by module merged: every module of either, counts added.
pub open spec fn merge_tallies(
    m1: Map<Seq<char>, ModuleTally>,
    m2: Map<Seq<char>, ModuleTally>,
) -> Map<Seq<char>, ModuleTally> {
    Map::new(
        |k: Seq<char>| m1.contains_key(k) || m2.contains_key(k),
        |k: Seq<char>| add_tallies(tally_or_zero(m1, k), tally_or_zero(m2, k)),
    )
}

/// Counts of joined runs add up.
pub proof fn lemma_count_in_concat(a: Seq<TestResult>, b: Seq<TestResult>, m: Seq<char>, o: Outcome)
    ensures
        count_in(a + b, m, o) == count_in(a, m, o) + count_in(b, m, o),
    decreases b.len(),
{
    if b.len() == 0 {
        assert(a + b =~= a);
    } else {
        lemma_count_in_concat(a, b.drop_last(), m, o);
        assert((a + b).drop_last() =~= a + b.drop_last());
        assert((a + b).last() == b.last());
    }
}

/// A module belongs to joined runs exactly when it belongs to one of them.
proof fn lemma_has_module_concat(a: Seq<TestResult>, b: Seq<TestResult>, m: Seq<char>)
    ensures
        has_module(a + b, m) <==> (has_module(a, m) || has_module(b, m)),
{
    let c = a + b;
    if has_module(c, m) {
        let i = choose|i: int| 0 <= i < c.len() && module_name(#[trigger] c[i].test@) == m;
        if i < a.len() {
            assert(c[i] == a[i]);
        } else {
            assert(c[i] == b[i - a.len()]);
        }
    }
    if has_module(a, m) {
        let i = choose|i: int| 0 <= i < a.len() && module_name(#[trigger] a[i].test@) == m;
        assert(c[i] == a[i]);
        assert(module_name(c[i].test@) == m);
    }
    if has_module(b, m) {
        let i = choose|i: int| 0 <= i < b.len() && module_name(#[trigger] b[i].test@) == m;
        assert(c[i + a.len()] == b[i]);
        assert(module_name(c[i + a.len()].test@) == m);
    }
}

/// The tally of two runs joined is the two tallies merged, counts added.
pub proof fn lemma_tally_of_joined_runs(a: Seq<TestResult>, b: Seq<TestResult>)
    requires
        a.len() + b.len() <= usize::MAX,
    ensures
        tally_map(a + b) == merge_tallies(tally_map(a), tally_map(b)),
{
    let ta = tally_map(a);
    let tb = tally_map(b);
    assert forall|k: Seq<char>| #[trigger] tally_map(a + b).contains_key(k) == merge_tallies(ta, tb).contains_key(k) by {
        lemma_has_module_concat(a, b, k);
    }
    assert forall|k: Seq<char>| #[trigger] tally_map(a + b).contains_key(k) implies tally_map(a + b)[k]
        == merge_tallies(ta, tb)[k] by {
        lemma_has_module_concat(a, b, k);
        assert forall|o: Outcome| #[trigger] count_in(a + b, k, o) == count_in(a, k, o) + count_in(b, k, o)
            && count_in(a, k, o) <= a.len() && count_in(b, k, o) <= b.len() by {
            lemma_count_in_concat(a, b, k, o);
            lemma_count_in_bound(a, k, o);
            lemma_count_in_bound(b, k, o);
        }
        if !has_module(a, k) {
            assert forall|o: Outcome| #[trigger] count_in(a, k, o) == 0 by {
                lemma_count_zero(a, k, o);
            }
        }
        if !has_module(b, k) {
            assert forall|o: Outcome| #[trigger] count_in(b, k, o) == 0 by {
                lemma_count_zero(b, k, o);
            }
        }
        assert(count_in(a + b, k, Outcome::Pass) == count_in(a, k, Outcome::Pass) + count_in(b, k, Outcome::Pass));
        assert(count_in(a + b, k, Outcome::Fail) == count_in(a, k, Outcome::Fail) + count_in(b, k, Outcome::Fail));
        assert(count_in(a + b, k, Outcome::Timeout) == count_in(a, k, Outcome::Timeout) + count_in(b, k, Outcome::Timeout));
        assert(count_in(a + b, k, Outcome::Skipped) == count_in(a, k, Outcome::Skipped) + count_in(b, k, Outcome::Skipped));
    }
    assert(tally_map(a + b) =~= merge_tallies(ta, tb));
}

/// Removing one result from a run removes its count.
proof fn lemma_count_in_remove(rs: Seq<TestResult>, i: int, m: Seq<char>, o: Outcome)
    requires
        0 <= i < rs.len(),
    ensures
        count_in(rs, m, o) == count_in(rs.remove(i), m, o) + if module_name(rs[i].test@) == m
            && rs[i].outcome == o {
            1nat
        } else {
            0nat
        },
{
    let front = rs.take(i);
    let one = seq![rs[i]];
    let back = rs.skip(i + 1);
    assert(rs =~= front + one + back);
    assert(rs.remove(i) =~= front + back);
    lemma_count_in_concat(front + one, back, m, o);
    lemma_count_in_concat(front, one, m, o);
    lemma_count_in_concat(front, back, m, o);
    assert(one.drop_last() =~= Seq::<TestResult>::empty());
    assert(one.last() == rs[i]);
    assert(count_in(Seq::<TestResult>::empty(), m, o) == 0);
    assert(count_in(one, m, o) == count_in(one.drop_last(), m, o) + if module_name(rs[i].test@) == m
        && rs[i].outcome == o {
        1nat
    } else {
        0nat
    });
}

/// Counts depend only on which results a run holds, not on their order.
pub proof fn lemma_count_in_ignores_order(a: Seq<TestResult>, b: Seq<TestResult>, m: Seq<char>, o: Outcome)
    requires
        a.to_multiset() == b.to_multiset(),
    ensures
        count_in(a, m, o) == count_in(b, m, o),
    decreases a.len(),
{
    broadcast use vstd::seq_lib::group_to_multiset_ensures;
    if a.len() == 0 {
        assert(a.to_multiset().len() == 0);
        assert(b.to_multiset().len() == b.len());
        assert(b =~= a);
    } else {
        let x = a.last();
        let a2 = a.drop_last();
        assert(a =~= a2.push(x));
        assert(a.to_multiset().count(x) > 0);
        assert(b.contains(x));
        let i = choose|i: int| 0 <= i < b.len() && b[i] == x;
        let b2 = b.remove(i);
        assert(a2.to_multiset() =~= b2.to_multiset()) by {
            assert(a.to_multiset() =~= a2.to_multiset().insert(x));
            assert(b2.to_multiset() =~= b.to_multiset().remove(x));
        }
        lemma_count_in_ignores_order(a2, b2, m, o);
        lemma_count_in_remove(b, i, m, o);
    }
}

/// The tally of a run does not depend on the order of its results.
pub proof fn lemma_tally_ignores_order(a: Seq<TestResult>, b: Seq<TestResult>)
    requires
        a.to_multiset() == b.to_multiset(),
    ensures
        tally_map(a) == tally_map(b),
{
    broadcast use vstd::seq_lib::group_to_multiset_ensures;
    assert forall|k: Seq<char>| #[trigger] tally_map(a).contains_key(k) == tally_map(b).contains_key(k) by {
        if has_module(a, k) {
            let i = choose|i: int| 0 <= i < a.len() && module_name(#[trigger] a[i].test@) == k;
            assert(a.to_multiset().count(a[i]) > 0);
            assert(b.contains(a[i]));
            let j = choose|j: int| 0 <= j < b.len() && b[j] == a[i];
            assert(module_name(b[j].test@) == k);
        }
        if has_module(b, k) {
            let i = choose|i: int| 0 <= i < b.len() && module_name(#[trigger] b[i].test@) == k;
            assert(b.to_multiset().count(b[i]) > 0);
            assert(a.contains(b[i]));
            let j = choose|j: int| 0 <= j < a.len() && a[j] == b[i];
            assert(module_name(a[j].test@) == k);
        }
    }
    assert forall|k: Seq<char>| #[trigger] tally_map(a).contains_key(k) implies tally_map(a)[k] == tally_map(b)[k] by {
        lemma_count_in_ignores_order(a, b, k, Outcome::Pass);
        lemma_count_in_ignores_order(a, b, k, Outcome::Fail);
        lemma_count_in_ignores_order(a, b, k, Outcome::Timeout);
        lemma_count_in_ignores_order(a, b, k, Outcome::Skipped);
    }
    assert(tally_map(a) =~= tally_map(b));
}

} // verus!
