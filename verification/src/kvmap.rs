//! Ordered association lists with string keys.
//!
//! Label sets and metric maps are kept as vectors of pairs whose keys are
//! unique and whose insertion order is stable, so that everything that
//! depends on iteration order (aggregate keys, emission order) is
//! deterministic.

use vstd::prelude::*;

verus! {

/// Index of the first pair whose key is `k`, or -1 when no pair has it.
pub open spec fn find_key<V>(s: Seq<(Seq<char>, V)>, k: Seq<char>) -> int
    decreases s.len(),
{
    if s.len() == 0 {
        -1
    } else if s[0].0 == k {
        0
    } else {
        let r = find_key(s.skip(1), k);
        if r == -1 {
            -1
        } else {
            r + 1
        }
    }
}

pub open spec fn has_key<V>(s: Seq<(Seq<char>, V)>, k: Seq<char>) -> bool {
    find_key(s, k) >= 0
}

/// Value of the first pair whose key is `k`.
pub open spec fn value_of<V>(s: Seq<(Seq<char>, V)>, k: Seq<char>) -> V {
    s[find_key(s, k)].1
}

/// Inserting updates the first pair with the same key in place, or appends
/// a new pair at the end.
pub open spec fn insert_s<V>(s: Seq<(Seq<char>, V)>, k: Seq<char>, v: V) -> Seq<(Seq<char>, V)> {
    if has_key(s, k) {
        s.update(find_key(s, k), (k, v))
    } else {
        s.push((k, v))
    }
}

/// Inserting every pair of `b` into `a`, in order.
pub open spec fn extend_s<V>(a: Seq<(Seq<char>, V)>, b: Seq<(Seq<char>, V)>) -> Seq<
    (Seq<char>, V),
>
    decreases b.len(),
{
    if b.len() == 0 {
        a
    } else {
        insert_s(extend_s(a, b.drop_last()), b.last().0, b.last().1)
    }
}

/// No two pairs share a key.
pub open spec fn unique_keys<V>(s: Seq<(Seq<char>, V)>) -> bool {
    forall|i: int, j: int| 0 <= i < j < s.len() ==> s[i].0 != s[j].0
}

pub proof fn lemma_find_key_props<V>(s: Seq<(Seq<char>, V)>, k: Seq<char>)
    ensures
        -1 <= find_key(s, k) < s.len(),
        find_key(s, k) == -1 ==> forall|j: int| 0 <= j < s.len() ==> s[j].0 != k,
        find_key(s, k) >= 0 ==> s[find_key(s, k)].0 == k && forall|j: int|
            0 <= j < find_key(s, k) ==> s[j].0 != k,
    decreases s.len(),
{
    if s.len() == 0 {
    } else if s[0].0 == k {
    } else {
        lemma_find_key_props(s.skip(1), k);
        assert forall|j: int| 0 <= j < s.len() && find_key(s, k) == -1 implies s[j].0 != k by {
            if j > 0 {
                assert(s.skip(1)[j - 1] == s[j]);
            }
        }
        if find_key(s, k) >= 0 {
            assert(s.skip(1)[find_key(s, k) - 1] == s[find_key(s, k)]);
            assert forall|j: int| 0 <= j < find_key(s, k) implies s[j].0 != k by {
                if j > 0 {
                    assert(s.skip(1)[j - 1] == s[j]);
                }
            }
        }
    }
}

pub proof fn lemma_find_key_first<V>(s: Seq<(Seq<char>, V)>, k: Seq<char>, i: int)
    requires
        0 <= i < s.len(),
        s[i].0 == k,
        forall|j: int| 0 <= j < i ==> s[j].0 != k,
    ensures
        find_key(s, k) == i,
    decreases s.len(),
{
    if i == 0 {
    } else {
        assert(s[0].0 != k);
        assert(s.skip(1)[i - 1] == s[i]);
        assert forall|j: int| 0 <= j < i - 1 implies s.skip(1)[j].0 != k by {
            assert(s.skip(1)[j] == s[j + 1]);
        }
        lemma_find_key_first(s.skip(1), k, i - 1);
    }
}

/// `find_key` only looks at the keys, never at the values.
pub proof fn lemma_find_key_same_keys<V, W>(
    s: Seq<(Seq<char>, V)>,
    t: Seq<(Seq<char>, W)>,
    k: Seq<char>,
)
    requires
        s.len() == t.len(),
        forall|i: int| 0 <= i < s.len() ==> s[i].0 == t[i].0,
    ensures
        find_key(s, k) == find_key(t, k),
    decreases s.len(),
{
    if s.len() == 0 {
    } else {
        assert forall|i: int| 0 <= i < s.skip(1).len() implies s.skip(1)[i].0 == t.skip(1)[i].0 by {
            assert(s.skip(1)[i] == s[i + 1]);
            assert(t.skip(1)[i] == t[i + 1]);
        }
        lemma_find_key_same_keys(s.skip(1), t.skip(1), k);
    }
}

/// How an insertion changes lookups: the inserted key now maps to the new
/// value, every other key is untouched, and key uniqueness is preserved.
pub proof fn lemma_insert_props<V>(s: Seq<(Seq<char>, V)>, k: Seq<char>, v: V)
    ensures
        has_key(insert_s(s, k, v), k),
        value_of(insert_s(s, k, v), k) == v,
        forall|k2: Seq<char>|
            k2 != k ==> has_key(insert_s(s, k, v), k2) == has_key(s, k2),
        forall|k2: Seq<char>|
            k2 != k && has_key(s, k2) ==> value_of(insert_s(s, k, v), k2) == value_of(s, k2),
        unique_keys(s) ==> unique_keys(insert_s(s, k, v)),
        insert_s(s, k, v).len() == if has_key(s, k) {
            s.len()
        } else {
            s.len() + 1
        },
{
    lemma_find_key_props(s, k);
    let t = insert_s(s, k, v);
    if has_key(s, k) {
        let i = find_key(s, k);
        assert forall|j: int| 0 <= j < t.len() implies t[j].0 == s[j].0 by {}
        lemma_find_key_same_keys(t, s, k);
        assert(t[i].1 == v);
        assert forall|k2: Seq<char>| k2 != k implies has_key(t, k2) == has_key(s, k2) by {
            lemma_find_key_same_keys(t, s, k2);
        }
        assert forall|k2: Seq<char>| k2 != k && has_key(s, k2) implies value_of(t, k2) == value_of(
            s,
            k2,
        ) by {
            lemma_find_key_same_keys(t, s, k2);
            lemma_find_key_props(s, k2);
            assert(find_key(s, k2) != i);
        }
    } else {
        lemma_find_key_first(t, k, s.len() as int);
        assert forall|k2: Seq<char>| k2 != k implies has_key(t, k2) == has_key(s, k2) by {
            lemma_find_key_prefix(s, (k, v), k2);
        }
        assert forall|k2: Seq<char>| k2 != k && has_key(s, k2) implies value_of(t, k2) == value_of(
            s,
            k2,
        ) by {
            lemma_find_key_prefix(s, (k, v), k2);
            lemma_find_key_props(s, k2);
        }
        if unique_keys(s) {
            assert forall|i: int, j: int| 0 <= i < j < t.len() implies t[i].0 != t[j].0 by {
                if j == s.len() as int {
                    lemma_find_key_props(s, k);
                }
            }
        }
    }
}

/// Searching a pushed sequence: a hit in the prefix is unchanged; a miss
/// falls through to the new last element.
pub proof fn lemma_find_key_prefix<V>(s: Seq<(Seq<char>, V)>, p: (Seq<char>, V), k2: Seq<char>)
    ensures
        has_key(s, k2) ==> find_key(s.push(p), k2) == find_key(s, k2),
        !has_key(s, k2) && p.0 != k2 ==> !has_key(s.push(p), k2),
    decreases s.len(),
{
    lemma_find_key_props(s, k2);
    let t = s.push(p);
    if has_key(s, k2) {
        let i = find_key(s, k2);
        assert(t[i] == s[i]);
        assert forall|j: int| 0 <= j < i implies t[j].0 != k2 by {
            assert(t[j] == s[j]);
        }
        lemma_find_key_first(t, k2, i);
    } else if p.0 != k2 {
        lemma_find_key_props(t, k2);
        if has_key(t, k2) {
            let i = find_key(t, k2);
            if i < s.len() {
                assert(s[i] == t[i]);
            }
        }
    }
}

/// Lookups in an extension: keys of `b` (with unique keys) take `b`'s
/// values, the rest keep `a`'s.
pub proof fn lemma_extend_props<V>(a: Seq<(Seq<char>, V)>, b: Seq<(Seq<char>, V)>)
    requires
        unique_keys(b),
    ensures
        forall|k: Seq<char>|
            #![trigger has_key(extend_s(a, b), k)]
            has_key(extend_s(a, b), k) == (has_key(a, k) || has_key(b, k)),
        forall|k: Seq<char>|
            has_key(b, k) ==> value_of(extend_s(a, b), k) == value_of(b, k),
        forall|k: Seq<char>|
            !has_key(b, k) && has_key(a, k) ==> value_of(extend_s(a, b), k) == value_of(a, k),
        unique_keys(a) ==> unique_keys(extend_s(a, b)),
    decreases b.len(),
{
    if b.len() == 0 {
    } else {
        let b0 = b.drop_last();
        let p = b.last();
        assert(unique_keys(b0)) by {
            assert forall|i: int, j: int| 0 <= i < j < b0.len() implies b0[i].0 != b0[j].0 by {
                assert(b0[i] == b[i]);
                assert(b0[j] == b[j]);
            }
        }
        lemma_extend_props(a, b0);
        let e0 = extend_s(a, b0);
        lemma_insert_props(e0, p.0, p.1);
        assert(b =~= b0.push(p));
        assert(has_key(b, p.0)) by {
            lemma_find_key_first_exists(b, p.0, b.len() - 1);
        }
        assert forall|k: Seq<char>| k != p.0 implies has_key(b, k) == has_key(b0, k) && (has_key(
            b0,
            k,
        ) ==> find_key(b, k) == find_key(b0, k)) by {
            lemma_find_key_prefix(b0, p, k);
        }
        assert forall|k: Seq<char>|
            #![trigger has_key(extend_s(a, b), k)]
            true implies has_key(extend_s(a, b), k) == (has_key(a, k) || has_key(b, k)) by {
            assert(has_key(extend_s(a, b0), k) == (has_key(a, k) || has_key(b0, k)));
        }
        assert forall|k: Seq<char>| #[trigger] has_key(b, k) implies value_of(extend_s(a, b), k)
            == value_of(b, k) by {
            if k == p.0 {
                assert(value_of(b, k) == p.1) by {
                    lemma_find_key_props(b, k);
                    let i = find_key(b, k);
                    if i < b.len() - 1 {
                        assert(b[b.len() - 1].0 == k);
                    }
                }
            } else {
                lemma_find_key_props(b0, k);
                assert(value_of(b, k) == value_of(b0, k));
                assert(has_key(extend_s(a, b0), k));
                assert(value_of(extend_s(a, b), k) == value_of(extend_s(a, b0), k));
            }
        }
        assert forall|k: Seq<char>| !has_key(b, k) && has_key(a, k) implies value_of(
            extend_s(a, b),
            k,
        ) == value_of(a, k) by {
            assert(k != p.0);
            assert(!has_key(b0, k));
        }
    }
}

/// If some pair carries the key, the key is found.
pub proof fn lemma_find_key_first_exists<V>(s: Seq<(Seq<char>, V)>, k: Seq<char>, i: int)
    requires
        0 <= i < s.len(),
        s[i].0 == k,
    ensures
        has_key(s, k),
{
    lemma_find_key_props(s, k);
    if find_key(s, k) == -1 {
        assert(s[i].0 != k);
    }
}

/// A label set: string keys mapped to string values, keys unique, insertion
/// order preserved.
pub struct LabelMap {
    pub pairs: Vec<(String, String)>,
}

impl LabelMap {
    pub open spec fn view(&self) -> Seq<(Seq<char>, Seq<char>)> {
        self.pairs.deep_view()
    }

    pub open spec fn wf(&self) -> bool {
        unique_keys(self.view())
    }

    pub fn new() -> (r: LabelMap)
        ensures
            r.view() == Seq::<(Seq<char>, Seq<char>)>::empty(),
            r.wf(),
    {
        let r = LabelMap { pairs: Vec::new() };
        proof {
            assert(r.view() =~~= Seq::<(Seq<char>, Seq<char>)>::empty());
        }
        r
    }

    pub fn len(&self) -> (n: usize)
        ensures
            n == self.view().len(),
    {
        self.pairs.len()
    }

    pub fn key_at(&self, i: usize) -> (r: &String)
        requires
            i < self.view().len(),
        ensures
            r@ == self.view()[i as int].0,
    {
        &self.pairs[i].0
    }

    pub fn val_at(&self, i: usize) -> (r: &String)
        requires
            i < self.view().len(),
        ensures
            r@ == self.view()[i as int].1,
    {
        &self.pairs[i].1
    }

    pub fn get(&self, k: &String) -> (r: Option<String>)
        ensures
            match r {
                Some(v) => has_key(self.view(), k@) && v@ == value_of(self.view(), k@),
                None => !has_key(self.view(), k@),
            },
    {
        let n = self.pairs.len();
        let mut i: usize = 0;
        while i < n
            invariant
                n == self.view().len(),
                i <= n,
                forall|j: int| 0 <= j < i ==> self.view()[j].0 != k@,
            decreases n - i,
        {
            if self.pairs[i].0 == *k {
                proof {
                    lemma_find_key_first(self.view(), k@, i as int);
                }
                return Some(self.pairs[i].1.clone());
            }
            i += 1;
        }
        proof {
            lemma_find_key_props(self.view(), k@);
        }
        None
    }

    pub fn contains_key(&self, k: &String) -> (r: bool)
        ensures
            r == has_key(self.view(), k@),
    {
        match self.get(k) {
            Some(_) => true,
            None => false,
        }
    }

    /// Index of the first pair whose key is `k`, if any.
    pub fn position_of(&self, k: &String) -> (r: Option<usize>)
        ensures
            match r {
                Some(i) => has_key(self.view(), k@) && i == find_key(self.view(), k@),
                None => !has_key(self.view(), k@),
            },
    {
        let n = self.pairs.len();
        let mut i: usize = 0;
        while i < n
            invariant
                n == self.view().len(),
                i <= n,
                forall|j: int| 0 <= j < i ==> self.view()[j].0 != k@,
            decreases n - i,
        {
            if self.pairs[i].0 == *k {
                proof {
                    lemma_find_key_first(self.view(), k@, i as int);
                }
                return Some(i);
            }
            i += 1;
        }
        proof {
            lemma_find_key_props(self.view(), k@);
        }
        None
    }

    pub fn insert(&mut self, k: String, v: String)
        ensures
            final(self).view() == insert_s(old(self).view(), k@, v@),
            old(self).wf() ==> final(self).wf(),
    {
        let ghost s0 = self.view();
        proof {
            lemma_find_key_props(s0, k@);
            lemma_insert_props(s0, k@, v@);
        }
        match self.position_of(&k) {
            Some(i) => {
                self.pairs.remove(i);
                self.pairs.insert(i, (k, v));
                proof {
                    assert(self.view() =~~= insert_s(s0, k@, v@));
                }
            },
            None => {
                self.pairs.push((k, v));
                proof {
                    assert(self.view() =~~= insert_s(s0, k@, v@));
                }
            },
        }
    }

    pub fn extend(&mut self, other: &LabelMap)
        ensures
            final(self).view() == extend_s(old(self).view(), other.view()),
            old(self).wf() ==> final(self).wf(),
    {
        let ghost s0 = self.view();
        let ghost b = other.view();
        let n = other.pairs.len();
        let mut i: usize = 0;
        while i < n
            invariant
                n == b.len(),
                b == other.view(),
                i <= n,
                self.view() == extend_s(s0, b.take(i as int)),
                old(self).wf() ==> unique_keys(self.view()),
            decreases n - i,
        {
            let k = other.pairs[i].0.clone();
            let v = other.pairs[i].1.clone();
            let ghost before = self.view();
            proof {
                if old(self).wf() {
                    lemma_insert_props(before, k@, v@);
                }
            }
            self.insert(k, v);
            proof {
                assert(b.take(i + 1).drop_last() =~~= b.take(i as int));
                assert(b.take(i + 1).last() == b[i as int]);
            }
            i += 1;
        }
        proof {
            assert(b.take(n as int) =~~= b);
        }
    }

    pub fn duplicate(&self) -> (r: LabelMap)
        ensures
            r.view() == self.view(),
    {
        let mut pairs: Vec<(String, String)> = Vec::new();
        let n = self.pairs.len();
        let mut i: usize = 0;
        while i < n
            invariant
                n == self.view().len(),
                i <= n,
                pairs.deep_view() == self.view().take(i as int),
            decreases n - i,
        {
            let c0 = self.pairs[i].0.clone();
            let c1 = self.pairs[i].1.clone();
            let ghost dv0 = pairs.deep_view();
            let ghost pv0 = pairs@;
            proof {
                assert(dv0.len() == i as int);
                assert(dv0 == Seq::new(pv0.len(), |j: int| pv0[j].deep_view()));
                assert(pv0.len() == i as int);
            }
            pairs.push((c0, c1));
            proof {
                assert(pairs.deep_view() =~= self.view().take(i as int + 1));
            }
            i += 1;
        }
        proof {
            assert(self.view().take(n as int) =~= self.view());
        }
        let r = LabelMap { pairs };
        proof {
            assert(r.view() =~~= self.view());
        }
        r
    }
}

/// A metric map: string names mapped to unsigned counter values, keys
/// unique, insertion order preserved.
pub struct MetricMap {
    pub pairs: Vec<(String, u64)>,
}

impl MetricMap {
    pub open spec fn view(&self) -> Seq<(Seq<char>, u64)> {
        self.pairs.deep_view()
    }

    pub open spec fn wf(&self) -> bool {
        unique_keys(self.view())
    }

    pub fn new() -> (r: MetricMap)
        ensures
            r.view() == Seq::<(Seq<char>, u64)>::empty(),
            r.wf(),
    {
        let r = MetricMap { pairs: Vec::new() };
        proof {
            assert(r.view() =~~= Seq::<(Seq<char>, u64)>::empty());
        }
        r
    }

    pub fn len(&self) -> (n: usize)
        ensures
            n == self.view().len(),
    {
        self.pairs.len()
    }

    pub fn key_at(&self, i: usize) -> (r: &String)
        requires
            i < self.view().len(),
        ensures
            r@ == self.view()[i as int].0,
    {
        &self.pairs[i].0
    }

    pub fn val_at(&self, i: usize) -> (r: u64)
        requires
            i < self.view().len(),
        ensures
            r == self.view()[i as int].1,
    {
        self.pairs[i].1
    }

    pub fn get(&self, k: &String) -> (r: Option<u64>)
        ensures
            match r {
                Some(v) => has_key(self.view(), k@) && v == value_of(self.view(), k@),
                None => !has_key(self.view(), k@),
            },
    {
        let n = self.pairs.len();
        let mut i: usize = 0;
        while i < n
            invariant
                n == self.view().len(),
                i <= n,
                forall|j: int| 0 <= j < i ==> self.view()[j].0 != k@,
            decreases n - i,
        {
            if self.pairs[i].0 == *k {
                proof {
                    lemma_find_key_first(self.view(), k@, i as int);
                }
                return Some(self.pairs[i].1);
            }
            i += 1;
        }
        proof {
            lemma_find_key_props(self.view(), k@);
        }
        None
    }

    /// Index of the first pair whose key is `k`, if any.
    pub fn position_of(&self, k: &String) -> (r: Option<usize>)
        ensures
            match r {
                Some(i) => has_key(self.view(), k@) && i == find_key(self.view(), k@),
                None => !has_key(self.view(), k@),
            },
    {
        let n = self.pairs.len();
        let mut i: usize = 0;
        while i < n
            invariant
                n == self.view().len(),
                i <= n,
                forall|j: int| 0 <= j < i ==> self.view()[j].0 != k@,
            decreases n - i,
        {
            if self.pairs[i].0 == *k {
                proof {
                    lemma_find_key_first(self.view(), k@, i as int);
                }
                return Some(i);
            }
            i += 1;
        }
        proof {
            lemma_find_key_props(self.view(), k@);
        }
        None
    }

    pub fn insert(&mut self, k: String, v: u64)
        ensures
            final(self).view() == insert_s(old(self).view(), k@, v),
            old(self).wf() ==> final(self).wf(),
    {
        let ghost s0 = self.view();
        proof {
            lemma_find_key_props(s0, k@);
            lemma_insert_props(s0, k@, v);
        }
        match self.position_of(&k) {
            Some(i) => {
                self.pairs.remove(i);
                self.pairs.insert(i, (k, v));
                proof {
                    assert(self.view() =~~= insert_s(s0, k@, v));
                }
            },
            None => {
                self.pairs.push((k, v));
                proof {
                    assert(self.view() =~~= insert_s(s0, k@, v));
                }
            },
        }
    }

    pub fn duplicate(&self) -> (r: MetricMap)
        ensures
            r.view() == self.view(),
    {
        let mut pairs: Vec<(String, u64)> = Vec::new();
        let n = self.pairs.len();
        let mut i: usize = 0;
        while i < n
            invariant
                n == self.view().len(),
                i <= n,
                pairs.deep_view() == self.view().take(i as int),
            decreases n - i,
        {
            let c0 = self.pairs[i].0.clone();
            let c1 = self.pairs[i].1;
            let ghost dv0 = pairs.deep_view();
            let ghost pv0 = pairs@;
            proof {
                assert(dv0.len() == i as int);
                assert(dv0 == Seq::new(pv0.len(), |j: int| pv0[j].deep_view()));
                assert(pv0.len() == i as int);
            }
            pairs.push((c0, c1));
            proof {
                assert(pairs.deep_view() =~= self.view().take(i as int + 1));
            }
            i += 1;
        }
        proof {
            assert(self.view().take(n as int) =~= self.view());
        }
        let r = MetricMap { pairs };
        proof {
            assert(r.view() =~~= self.view());
        }
        r
    }
}

} // verus!
