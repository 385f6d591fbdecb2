//! A map from strings to values that walks its keys in ascending order,
//! which is what a published results file needs to diff cleanly.

use vstd::prelude::*;
use crate::text::chars_of;

verus! {

// ---------------------------------------------------------------------------
// The order of strings
// ---------------------------------------------------------------------------

/// The order of `String`: lexicographic by code point, a proper prefix first.
pub open spec fn str_lt(a: Seq<char>, b: Seq<char>) -> bool
    decreases a.len(),
{
    if a.len() == 0 {
        b.len() > 0
    } else if b.len() == 0 {
        false
    } else if a[0] != b[0] {
        a[0] < b[0]
    } else {
        str_lt(a.drop_first(), b.drop_first())
    }
}

/// No string comes before itself.
pub proof fn lemma_str_lt_irreflexive(a: Seq<char>)
    ensures
        !str_lt(a, a),
    decreases a.len(),
{
    if a.len() > 0 {
        lemma_str_lt_irreflexive(a.drop_first());
    }
}

/// Of two different strings, exactly one comes first.
pub proof fn lemma_str_lt_total(a: Seq<char>, b: Seq<char>)
    ensures
        a != b ==> (str_lt(a, b) || str_lt(b, a)),
        !(str_lt(a, b) && str_lt(b, a)),
    decreases a.len(),
{
    if a.len() > 0 && b.len() > 0 {
        if a[0] == b[0] {
            lemma_str_lt_total(a.drop_first(), b.drop_first());
            if a != b {
                assert(a.drop_first() != b.drop_first()) by {
                    if a.drop_first() == b.drop_first() {
                        assert(a =~= seq![a[0]] + a.drop_first());
                        assert(b =~= seq![b[0]] + b.drop_first());
                    }
                }
            }
        } else {
            assert(a[0] < b[0] || b[0] < a[0]);
        }
    } else if a.len() == 0 && b.len() == 0 {
        assert(a =~= b);
    }
}

/// The order of strings is transitive.
pub proof fn lemma_str_lt_transitive(a: Seq<char>, b: Seq<char>, c: Seq<char>)
    requires
        str_lt(a, b),
        str_lt(b, c),
    ensures
        str_lt(a, c),
    decreases a.len(),
{
    if a.len() > 0 && b.len() > 0 && c.len() > 0 {
        if a[0] == b[0] && b[0] == c[0] {
            lemma_str_lt_transitive(a.drop_first(), b.drop_first(), c.drop_first());
        }
    }
}

/// How two strings compare.
#[derive(Clone, Copy, Debug, PartialEq, Eq, Structural)]
pub enum Order {
    Before,
    Same,
    After,
}

/// Compares two character sequences in the order of strings.
pub fn compare_chars(a: &Vec<char>, b: &Vec<char>) -> (r: Order)
    ensures
        r == Order::Before <==> str_lt(a@, b@),
        r == Order::Same <==> a@ == b@,
        r == Order::After <==> str_lt(b@, a@),
{
    proof {
        lemma_str_lt_total(a@, b@);
        lemma_str_lt_irreflexive(a@);
        assert(a@.skip(0) =~= a@);
        assert(b@.skip(0) =~= b@);
    }
    let n = a.len();
    let m = b.len();
    let mut i: usize = 0;
    while i < n && i < m && a[i] == b[i]
        invariant
            n == a@.len(),
            m == b@.len(),
            i <= n,
            i <= m,
            a@.take(i as int) == b@.take(i as int),
            str_lt(a@, b@) == str_lt(a@.skip(i as int), b@.skip(i as int)),
            str_lt(b@, a@) == str_lt(b@.skip(i as int), a@.skip(i as int)),
        decreases n - i,
    {
        proof {
            assert(a@.skip(i as int).drop_first() =~= a@.skip(i + 1));
            assert(b@.skip(i as int).drop_first() =~= b@.skip(i + 1));
            assert(a@.take(i + 1) =~= a@.take(i as int).push(a@[i as int]));
            assert(b@.take(i + 1) =~= b@.take(i as int).push(b@[i as int]));
        }
        i = i + 1;
    }
    if i == n && i == m {
        proof {
            assert(a@ =~= a@.take(i as int));
            assert(b@ =~= b@.take(i as int));
        }
        Order::Same
    } else if i == n {
        proof {
            assert(a@.skip(i as int).len() == 0);
            assert(a@ != b@);
        }
        Order::Before
    } else if i == m {
        proof {
            assert(b@.skip(i as int).len() == 0);
            assert(a@ != b@);
        }
        Order::After
    } else {
        proof {
            assert(a@.skip(i as int)[0] == a@[i as int]);
            assert(b@.skip(i as int)[0] == b@[i as int]);
            assert(a@[i as int] != b@[i as int]);
            assert(a@ != b@) by {
                if a@ == b@ {
                    assert(a@[i as int] == b@[i as int]);
                }
            }
        }
        if a[i] < b[i] {
            Order::Before
        } else {
            Order::After
        }
    }
}

// ---------------------------------------------------------------------------
// Sequences of entries
// ---------------------------------------------------------------------------

/// Keys in strictly ascending order, so no key occurs twice.
pub open spec fn keys_ascending<V>(s: Seq<(Seq<char>, V)>) -> bool {
    forall|i: int, j: int| 0 <= i < j < s.len() ==> str_lt(#[trigger] s[i].0, #[trigger] s[j].0)
}

/// Whether some entry has key `k`.
pub open spec fn has_key<V>(s: Seq<(Seq<char>, V)>, k: Seq<char>) -> bool {
    exists|i: int| 0 <= i < s.len() && #[trigger] s[i].0 == k
}

/// The position of an entry with key `k`.
pub open spec fn key_index<V>(s: Seq<(Seq<char>, V)>, k: Seq<char>) -> int {
    choose|i: int| 0 <= i < s.len() && #[trigger] s[i].0 == k
}

/// The entries read as a map.
pub open spec fn as_map<V>(s: Seq<(Seq<char>, V)>) -> Map<Seq<char>, V> {
    Map::new(|k: Seq<char>| has_key(s, k), |k: Seq<char>| s[key_index(s, k)].1)
}

/// In ascending entries, a key is found at exactly its own position.
pub proof fn lemma_key_index<V>(s: Seq<(Seq<char>, V)>, i: int)
    requires
        keys_ascending(s),
        0 <= i < s.len(),
    ensures
        has_key(s, s[i].0),
        key_index(s, s[i].0) == i,
        as_map(s).contains_key(s[i].0),
        as_map(s)[s[i].0] == s[i].1,
{
    assert(has_key(s, s[i].0));
    let j = key_index(s, s[i].0);
    if j != i {
        if j < i {
            assert(str_lt(s[j].0, s[i].0));
        } else {
            assert(str_lt(s[i].0, s[j].0));
        }
        lemma_str_lt_irreflexive(s[i].0);
    }
}

// ---------------------------------------------------------------------------
// The map
// ---------------------------------------------------------------------------

/// A map from strings to values, kept in ascending key order.
#[derive(Debug)]
pub struct SortedMap<V> {
    entries: Vec<(String, V)>,
}

impl<V> View for SortedMap<V> {
    type V = Seq<(Seq<char>, V)>;

    closed spec fn view(&self) -> Seq<(Seq<char>, V)> {
        Seq::new(self.entries@.len(), |i: int| (self.entries@[i].0@, self.entries@[i].1))
    }
}

impl<V> SortedMap<V> {
    #[verifier::type_invariant]
    spec fn ascending(self) -> bool {
        keys_ascending(self@)
    }

    /// The entries read as a map.
    pub open spec fn map(self) -> Map<Seq<char>, V> {
        as_map(self@)
    }

    /// An empty map.
    pub fn new() -> (m: Self)
        ensures
            m@ == Seq::<(Seq<char>, V)>::empty(),
            m.map() == Map::<Seq<char>, V>::empty(),
    {
        let m = SortedMap { entries: Vec::new() };
        proof {
            assert(m@ =~= Seq::<(Seq<char>, V)>::empty());
            assert(as_map(m@) =~= Map::<Seq<char>, V>::empty());
        }
        m
    }

    /// How many keys the map holds.
    pub fn len(&self) -> (n: usize)
        ensures
            n == self@.len(),
    {
        self.entries.len()
    }

    /// Whether the map holds no key.
    pub fn is_empty(&self) -> (b: bool)
        ensures
            b == (self@.len() == 0),
    {
        self.entries.len() == 0
    }

    /// The key at a position in ascending order.
    pub fn key_at(&self, i: usize) -> (k: &String)
        requires
            i < self@.len(),
        ensures
            k@ == self@[i as int].0,
    {
        &self.entries[i].0
    }

    /// The value at a position in ascending order.
    pub fn value_at(&self, i: usize) -> (v: &V)
        requires
            i < self@.len(),
        ensures
            *v == self@[i as int].1,
    {
        &self.entries[i].1
    }

    /// The first position whose key does not come before `key`.
    fn lower_bound(&self, key: &Vec<char>) -> (p: usize)
        ensures
            p <= self@.len(),
            forall|i: int| 0 <= i < p ==> str_lt(#[trigger] self@[i].0, key@),
            forall|i: int| p <= i < self@.len() ==> !str_lt(#[trigger] self@[i].0, key@),
    {
        proof {
            use_type_invariant(self);
        }
        let mut lo: usize = 0;
        let mut hi: usize = self.entries.len();
        while lo < hi
            invariant
                lo <= hi <= self@.len(),
                hi == self@.len() || !str_lt(self@[hi as int].0, key@),
                keys_ascending(self@),
                self@.len() == self.entries@.len(),
                forall|i: int| 0 <= i < lo ==> str_lt(#[trigger] self@[i].0, key@),
                forall|i: int| hi <= i < self@.len() ==> !str_lt(#[trigger] self@[i].0, key@),
            decreases hi - lo,
        {
            let mid = lo + (hi - lo) / 2;
            let k = chars_of(self.entries[mid].0.as_str());
            assert(k@ == self@[mid as int].0);
            match compare_chars(&k, key) {
                Order::Before => {
                    proof {
                        assert forall|i: int| 0 <= i < mid + 1 implies str_lt(#[trigger] self@[i].0, key@) by {
                            if i < mid {
                                assert(str_lt(self@[i].0, self@[mid as int].0));
                                lemma_str_lt_transitive(self@[i].0, self@[mid as int].0, key@);
                            }
                        }
                    }
                    lo = mid + 1;
                },
                _ => {
                    proof {
                        assert forall|i: int| mid <= i < self@.len() implies !str_lt(#[trigger] self@[i].0, key@) by {
                            if i > mid {
                                assert(str_lt(self@[mid as int].0, self@[i].0));
                                if str_lt(self@[i].0, key@) {
                                    lemma_str_lt_transitive(self@[mid as int].0, self@[i].0, key@);
                                    lemma_str_lt_total(self@[mid as int].0, key@);
                                    lemma_str_lt_irreflexive(key@);
                                }
                            }
                        }
                    }
                    hi = mid;
                },
            }
        }
        lo
    }

    /// The position of `key`, if the map holds it.
    fn find(&self, key: &Vec<char>) -> (r: Option<usize>)
        ensures
            match r {
                Some(i) => i < self@.len() && self@[i as int].0 == key@,
                None => !has_key(self@, key@),
            },
    {
        proof {
            use_type_invariant(self);
        }
        let p = self.lower_bound(key);
        if p < self.entries.len() {
            let k = chars_of(self.entries[p].0.as_str());
            if crate::text::same_chars(&k, key) {
                return Some(p);
            }
            proof {
                lemma_str_lt_total(self@[p as int].0, key@);
            }
        }
        proof {
            if has_key(self@, key@) {
                let j = key_index(self@, key@);
                lemma_str_lt_irreflexive(key@);
                if j > p {
                    assert(str_lt(self@[p as int].0, self@[j].0));
                }
            }
        }
        None
    }

    /// Whether the map holds `key`.
    pub fn contains_key(&self, key: &str) -> (b: bool)
        ensures
            b == self.map().contains_key(key@),
    {
        let k = chars_of(key);
        match self.find(&k) {
            Some(i) => {
                proof {
                    use_type_invariant(self);
                    lemma_key_index(self@, i as int);
                }
                true
            },
            None => false,
        }
    }

    /// The value for `key`, if the map holds it.
    pub fn get(&self, key: &str) -> (r: Option<&V>)
        ensures
            match r {
                Some(v) => self.map().contains_key(key@) && *v == self.map()[key@],
                None => !self.map().contains_key(key@),
            },
    {
        let k = chars_of(key);
        match self.find(&k) {
            Some(i) => {
                proof {
                    use_type_invariant(self);
                    lemma_key_index(self@, i as int);
                }
                Some(&self.entries[i].1)
            },
            None => None,
        }
    }

    /// Sets the value for `key`, replacing any earlier value.
    pub fn insert(&mut self, key: String, value: V)
        ensures
            final(self).map() == old(self).map().insert(key@, value),
            keys_ascending(final(self)@),
            has_key(old(self)@, key@) ==> final(self)@.len() == old(self)@.len(),
            !has_key(old(self)@, key@) ==> final(self)@.len() == old(self)@.len() + 1,
    {
        proof {
            use_type_invariant(&*self);
        }
        let k = chars_of(key.as_str());
        let ghost old_view = self@;
        let p = self.lower_bound(&k);
        let mut found = false;
        if p < self.entries.len() {
            let kp = chars_of(self.entries[p].0.as_str());
            found = crate::text::same_chars(&kp, &k);
        }
        let ghost new_view: Seq<(Seq<char>, V)>;
        let mut entries: Vec<(String, V)> = Vec::new();
        std::mem::swap(&mut entries, &mut self.entries);
        if found {
            let _ = entries.remove(p);
            entries.insert(p, (key, value));
        } else {
            entries.insert(p, (key, value));
        }
        proof {
            let nv = Seq::new(entries@.len(), |i: int| (entries@[i].0@, entries@[i].1));
            if found {
                assert(nv =~= old_view.update(p as int, (k@, value)));
            } else {
                assert(nv =~= old_view.insert(p as int, (k@, value)));
            }
            new_view = nv;
            lemma_insert_view(old_view, nv, p as int, k@, value, found);
        }
        self.entries = entries;
        proof {
            assert(self@ =~= new_view);
        }
    }
}

impl<V: Copy> Clone for SortedMap<V> {
    /// A copy of the map, with the same entries in the same order.
    fn clone(&self) -> (r: Self)
        ensures
            r@ == self@,
    {
        proof {
            use_type_invariant(self);
        }
        let mut entries: Vec<(String, V)> = Vec::new();
        let n = self.entries.len();
        for i in 0..n
            invariant
                n == self@.len(),
                n == self.entries@.len(),
                entries@.len() == i,
                forall|j: int| 0 <= j < i ==> (#[trigger] entries@[j]).0@ == self@[j].0 && entries@[j].1 == self@[j].1,
        {
            let e = &self.entries[i];
            entries.push((e.0.clone(), e.1));
        }
        let r = SortedMap { entries };
        proof {
            assert(r@ =~= self@);
        }
        r
    }
}

/// Replacing or inserting an entry at its lower bound keeps the keys
/// ascending and updates the map.
proof fn lemma_insert_view<V>(
    old_view: Seq<(Seq<char>, V)>,
    nv: Seq<(Seq<char>, V)>,
    p: int,
    k: Seq<char>,
    value: V,
    found: bool,
)
    requires
        keys_ascending(old_view),
        0 <= p <= old_view.len(),
        forall|i: int| 0 <= i < p ==> str_lt(#[trigger] old_view[i].0, k),
        forall|i: int| p <= i < old_view.len() ==> !str_lt(#[trigger] old_view[i].0, k),
        found ==> p < old_view.len() && old_view[p].0 == k,
        !found ==> (p < old_view.len() ==> old_view[p].0 != k),
        found ==> nv == old_view.update(p, (k, value)),
        !found ==> nv == old_view.insert(p, (k, value)),
    ensures
        keys_ascending(nv),
        as_map(nv) == as_map(old_view).insert(k, value),
        found ==> nv.len() == old_view.len(),
        !found ==> nv.len() == old_view.len() + 1,
        found == has_key(old_view, k),
{
    lemma_str_lt_irreflexive(k);
    // Keys after the lower bound come strictly after `k`, except a found key.
    assert forall|i: int| p <= i < old_view.len() && old_view[i].0 != k implies str_lt(
        k,
        #[trigger] old_view[i].0,
    ) by {
        lemma_str_lt_total(k, old_view[i].0);
    }
    if found {
        assert forall|i: int, j: int| 0 <= i < j < nv.len() implies str_lt(
            #[trigger] nv[i].0,
            #[trigger] nv[j].0,
        ) by {
            if i == p {
                assert(str_lt(old_view[p].0, old_view[j].0));
            } else if j == p {
                assert(str_lt(old_view[i].0, old_view[p].0));
            } else {
                assert(str_lt(old_view[i].0, old_view[j].0));
            }
        }
    } else {
        assert forall|i: int, j: int| 0 <= i < j < nv.len() implies str_lt(
            #[trigger] nv[i].0,
            #[trigger] nv[j].0,
        ) by {
            if i == p {
                assert(nv[j].0 == old_view[j - 1].0);
                assert(str_lt(k, old_view[j - 1].0));
            } else if j == p {
                assert(nv[i].0 == old_view[i].0);
            } else if i < p && j > p {
                assert(nv[j].0 == old_view[j - 1].0);
                assert(str_lt(old_view[i].0, k));
                assert(str_lt(k, old_view[j - 1].0));
                lemma_str_lt_transitive(old_view[i].0, k, old_view[j - 1].0);
            } else if j < p {
                assert(str_lt(old_view[i].0, old_view[j].0));
            } else {
                assert(nv[i].0 == old_view[i - 1].0);
                assert(nv[j].0 == old_view[j - 1].0);
                assert(str_lt(old_view[i - 1].0, old_view[j - 1].0));
            }
        }
    }
    // `found` says exactly whether the key was there.
    if has_key(old_view, k) {
        let j = key_index(old_view, k);
        if !found {
            if j < p {
                assert(str_lt(old_view[j].0, k));
            } else {
                if j > p {
                    assert(str_lt(k, old_view[j].0));
                }
            }
        }
    }
    // The map changes only at `k`.
    let m0 = as_map(old_view);
    let m1 = as_map(nv);
    assert forall|x: Seq<char>| #[trigger] m1.contains_key(x) == m0.insert(k, value).contains_key(x) by {
        if x == k {
            if found {
                assert(nv[p].0 == k);
            } else {
                assert(nv[p].0 == k);
            }
        } else {
            if has_key(old_view, x) {
                let j = key_index(old_view, x);
                if found || j < p {
                    assert(nv[j].0 == x);
                } else {
                    assert(nv[j + 1].0 == x);
                }
            }
            if has_key(nv, x) {
                let j = key_index(nv, x);
                if found || j < p {
                    assert(old_view[j].0 == x);
                } else {
                    assert(old_view[j - 1].0 == x);
                }
            }
        }
    }
    assert forall|x: Seq<char>| #[trigger] m1.contains_key(x) implies m1[x] == m0.insert(k, value)[x] by {
        if x == k {
            lemma_key_index(nv, p);
        } else {
            let j = key_index(nv, x);
            lemma_key_index(nv, j);
            if found || j < p {
                lemma_key_index(old_view, j);
            } else {
                lemma_key_index(old_view, j - 1);
            }
        }
    }
    assert(m1 =~= m0.insert(k, value));
}

} // verus!
