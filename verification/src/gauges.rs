//! The collector's gauge manager: a live Prometheus registry, one
//! integer gauge family per metric name, and the command protocol that
//! drives registration, value updates and the HTTP hot swap.

use vstd::prelude::*;
use crate::kvmap::{find_key, has_key, lemma_find_key_first, lemma_find_key_props, value_of,
    unique_keys, LabelMap};
use crate::metrics::CollectorMetrics;
use crate::text::{spec_valid_label_name, spec_valid_metric_name, str_eq, valid_label_name,
    valid_metric_name};

verus! {

/// Strict lexicographic order on character sequences, by code point.
pub open spec fn lex_lt(a: Seq<char>, b: Seq<char>) -> bool
    decreases a.len(),
{
    if b.len() == 0 {
        false
    } else if a.len() == 0 {
        true
    } else if a[0] != b[0] {
        a[0] < b[0]
    } else {
        lex_lt(a.skip(1), b.skip(1))
    }
}

pub open spec fn lex_le(a: Seq<char>, b: Seq<char>) -> bool {
    lex_lt(a, b) || a == b
}

/// The order is total: two sequences compare one way or the other.
pub proof fn lemma_lex_total(a: Seq<char>, b: Seq<char>)
    ensures
        lex_lt(a, b) || lex_lt(b, a) || a == b,
    decreases a.len(),
{
    if b.len() == 0 || a.len() == 0 {
        if a.len() == 0 && b.len() == 0 {
            assert(a =~= b);
        }
    } else if a[0] != b[0] {
    } else {
        lemma_lex_total(a.skip(1), b.skip(1));
        if a.skip(1) == b.skip(1) {
            assert(a.skip(1).len() == b.skip(1).len());
            assert(a.len() == b.len());
            assert forall|i: int| 0 <= i < a.len() implies a[i] == b[i] by {
                if i > 0 {
                    assert(a.skip(1)[i - 1] == a[i]);
                    assert(b.skip(1)[i - 1] == b[i]);
                    assert(a.skip(1)[i - 1] == b.skip(1)[i - 1]);
                }
            }
            assert(a =~= b);
        }
    }
}

/// The order is transitive, also across a weak middle step.
pub proof fn lemma_lex_lt_trans(a: Seq<char>, b: Seq<char>, c: Seq<char>)
    requires
        lex_lt(a, b),
        lex_lt(b, c),
    ensures
        lex_lt(a, c),
    decreases a.len() + b.len() + c.len(),
{
    if b.len() == 0 {
    } else if c.len() == 0 {
    } else if a.len() == 0 {
    } else {
        if a[0] != b[0] {
            if b[0] != c[0] {
            } else {
            }
        } else {
            if b[0] != c[0] {
            } else {
                lemma_lex_lt_trans(a.skip(1), b.skip(1), c.skip(1));
            }
        }
    }
}

/// A shared character prefix does not decide the order.
proof fn lemma_lex_skip(a: Seq<char>, b: Seq<char>, i: int)
    requires
        0 <= i <= a.len(),
        i <= b.len(),
        forall|j: int| 0 <= j < i ==> a[j] == b[j],
    ensures
        lex_lt(a, b) == lex_lt(a.skip(i), b.skip(i)),
    decreases i,
{
    if i == 0 {
        assert(a.skip(0) =~= a);
        assert(b.skip(0) =~= b);
    } else {
        assert(a[0] == b[0]);
        assert forall|j: int| 0 <= j < i - 1 implies a.skip(1)[j] == b.skip(1)[j] by {
            assert(a.skip(1)[j] == a[j + 1]);
            assert(b.skip(1)[j] == b[j + 1]);
        }
        lemma_lex_skip(a.skip(1), b.skip(1), i - 1);
        assert(a.skip(1).skip(i - 1) =~= a.skip(i));
        assert(b.skip(1).skip(i - 1) =~= b.skip(i));
    }
}

/// Character-by-character lexicographic comparison, by code point.
#[verifier::loop_isolation(false)]
fn str_lt(a: &str, b: &str) -> (r: bool)
    ensures
        r == lex_lt(a@, b@),
{
    let n = a.unicode_len();
    let m = b.unicode_len();
    let mut i: usize = 0;
    while i < n && i < m
        invariant
            i <= n,
            i <= m,
            forall|j: int| 0 <= j < i ==> a@[j] == b@[j],
        decreases n - i,
    {
        let ca = a.get_char(i);
        let cb = b.get_char(i);
        if ca != cb {
            proof {
                lemma_lex_skip(a@, b@, i as int);
                assert(a@.skip(i as int)[0] == a@[i as int]);
                assert(b@.skip(i as int)[0] == b@[i as int]);
            }
            return (ca as u32) < (cb as u32);
        }
        i += 1;
    }
    proof {
        lemma_lex_skip(a@, b@, i as int);
    }
    i < m
}

/// Pairs sorted so that keys never decrease.
pub open spec fn sorted_by_key(s: Seq<(Seq<char>, Seq<char>)>) -> bool {
    forall|i: int, j: int| 0 <= i < j < s.len() ==> lex_le(s[i].0, s[j].0)
}

/// Inserting a fresh key anywhere keeps every lookup: old keys keep
/// their values, the new key appears.
proof fn lemma_insert_at<V>(s: Seq<(Seq<char>, V)>, i: int, x: (Seq<char>, V))
    requires
        0 <= i <= s.len(),
        !has_key(s, x.0),
    ensures
        forall|k: Seq<char>|
            k != x.0 ==> has_key(#[trigger] s.insert(i, x), k) == has_key(s, k),
        forall|k: Seq<char>|
            k != x.0 && has_key(s, k) ==> value_of(s.insert(i, x), k) == value_of(s, k),
        has_key(s.insert(i, x), x.0),
        value_of(s.insert(i, x), x.0) == x.1,
        unique_keys(s) ==> unique_keys(s.insert(i, x)),
{
    let t = s.insert(i, x);
    lemma_find_key_props(s, x.0);
    assert forall|a: int| 0 <= a < t.len() implies t[a] == (if a < i {
        s[a]
    } else if a == i {
        x
    } else {
        s[a - 1]
    }) by {}
    assert forall|a: int| 0 <= a < i implies t[a].0 != x.0 by {
        if s[a].0 == x.0 {
            crate::kvmap::lemma_find_key_first_exists(s, x.0, a);
        }
    }
    lemma_find_key_first(t, x.0, i);
    assert forall|k: Seq<char>| k != x.0 implies has_key(#[trigger] s.insert(i, x), k) == has_key(
        s,
        k,
    ) && (has_key(s, k) ==> value_of(s.insert(i, x), k) == value_of(s, k)) by {
        lemma_find_key_props(s, k);
        lemma_find_key_props(t, k);
        if has_key(s, k) {
            let js = find_key(s, k);
            let jt: int = if js < i {
                js
            } else {
                js + 1
            };
            assert(t[jt] == s[js]);
            assert forall|a: int| 0 <= a < jt implies t[a].0 != k by {
                if a < i {
                    assert(t[a] == s[a]);
                } else if a > i {
                    assert(t[a] == s[a - 1]);
                }
            }
            lemma_find_key_first(t, k, jt);
        } else {
            if has_key(t, k) {
                let jt = find_key(t, k);
                if jt < i {
                    crate::kvmap::lemma_find_key_first_exists(s, k, jt);
                } else if jt > i {
                    crate::kvmap::lemma_find_key_first_exists(s, k, jt - 1);
                }
            }
        }
    }
    if unique_keys(s) {
        assert forall|a: int, b: int| 0 <= a < b < t.len() implies t[a].0 != t[b].0 by {
            if a == i || b == i {
                if t[a].0 == t[b].0 {
                    let other = if a == i {
                        b
                    } else {
                        a
                    };
                    let oi: int = if other < i {
                        other
                    } else {
                        other - 1
                    };
                    assert(t[other] == s[oi]);
                    crate::kvmap::lemma_find_key_first_exists(s, x.0, oi);
                }
            } else {
                let ai: int = if a < i {
                    a
                } else {
                    a - 1
                };
                let bi: int = if b < i {
                    b
                } else {
                    b - 1
                };
                assert(t[a] == s[ai]);
                assert(t[b] == s[bi]);
            }
        }
    }
}

/// The label pairs sorted by key.  Keys and values survive unchanged;
/// with unique keys the result is the one sorted arrangement, so the
/// registry identity derived from it is deterministic.
#[verifier::loop_isolation(false)]
pub fn sort_pairs(labels: &LabelMap) -> (r: Vec<(String, String)>)
    requires
        labels.wf(),
    ensures
        sorted_by_key(r.deep_view()),
        unique_keys(r.deep_view()),
        forall|k: Seq<char>|
            has_key(#[trigger] r.deep_view(), k) == has_key(labels.view(), k),
        forall|k: Seq<char>|
            has_key(labels.view(), k) ==> value_of(r.deep_view(), k) == value_of(
                labels.view(),
                k,
            ),
{
    let mut r: Vec<(String, String)> = Vec::new();
    let n = labels.len();
    let mut i: usize = 0;
    proof {
        assert(r.deep_view() =~= Seq::<(Seq<char>, Seq<char>)>::empty());
    }
    while i < n
        invariant
            i <= n,
            n == labels.view().len(),
            sorted_by_key(r.deep_view()),
            unique_keys(r.deep_view()),
            forall|k: Seq<char>|
                has_key(#[trigger] r.deep_view(), k) == has_key(labels.view().take(i as int), k),
            forall|k: Seq<char>|
                has_key(r.deep_view(), k) ==> value_of(r.deep_view(), k) == value_of(
                    labels.view(),
                    k,
                ),
        decreases n - i,
    {
        let key = labels.key_at(i).clone();
        let val = labels.val_at(i).clone();
        let ghost pre = labels.view().take(i as int);
        proof {
            assert(!has_key(pre, key@)) by {
                lemma_find_key_props(pre, key@);
                if has_key(pre, key@) {
                    let j = find_key(pre, key@);
                    assert(pre[j] == labels.view()[j]);
                }
            }
            crate::kvmap::lemma_find_key_first_exists(labels.view(), key@, i as int);
            lemma_find_key_props(labels.view(), key@);
        }
        // find the insertion point: the first entry with a larger key
        let m = r.len();
        let mut pos: usize = 0;
        while pos < m && !str_lt(key.as_str(), r[pos].0.as_str())
            invariant
                pos <= m,
                m == r.deep_view().len(),
                forall|j: int| 0 <= j < pos ==> !lex_lt(key@, r.deep_view()[j].0),
            decreases m - pos,
        {
            pos += 1;
        }
        let ghost rv0 = r.deep_view();
        proof {
            assert forall|j: int| 0 <= j < pos implies lex_le(rv0[j].0, key@) by {
                lemma_lex_total(rv0[j].0, key@);
                if rv0[j].0 == key@ {
                    crate::kvmap::lemma_find_key_first_exists(rv0, key@, j);
                }
            }
            assert(!has_key(rv0, key@));
            lemma_insert_at(rv0, pos as int, (key@, val@));
        }
        r.insert(pos, (key, val));
        proof {
            let x = (labels.view()[i as int].0, labels.view()[i as int].1);
            assert(r.deep_view() =~= rv0.insert(pos as int, x));
            let t = r.deep_view();
            assert forall|a: int, b: int| 0 <= a < b < t.len() implies lex_le(t[a].0, t[b].0) by {
                if a == pos {
                    assert(t[b] == rv0[b - 1]);
                    if b - 1 == pos {
                        assert(lex_lt(x.0, rv0[pos as int].0));
                    } else {
                        assert(lex_lt(x.0, rv0[pos as int].0));
                        assert(lex_le(rv0[pos as int].0, rv0[b - 1].0));
                        if rv0[pos as int].0 == rv0[b - 1].0 {
                        } else {
                            lemma_lex_lt_trans(x.0, rv0[pos as int].0, rv0[b - 1].0);
                        }
                    }
                } else if b == pos {
                    assert(t[a] == rv0[a]);
                } else {
                    let ai: int = if a < pos {
                        a
                    } else {
                        a - 1
                    };
                    let bi: int = if b < pos {
                        b
                    } else {
                        b - 1
                    };
                    assert(t[a] == rv0[ai]);
                    assert(t[b] == rv0[bi]);
                }
            }
            let nx = labels.view().take(i as int + 1);
            assert(nx.drop_last() =~= pre);
            assert(nx.last() == labels.view()[i as int]);
            assert forall|k: Seq<char>|
                #[trigger] has_key(t, k) == has_key(nx, k) && (has_key(t, k) ==> value_of(t, k)
                == value_of(labels.view(), k)) by {
                assert(has_key(t, k) == has_key(rv0.insert(pos as int, x), k));
                if k == key@ {
                    crate::kvmap::lemma_find_key_first_exists(nx, k, i as int);
                    assert(has_key(t, k));
                    assert(value_of(t, k) == x.1);
                    assert forall|j: int| 0 <= j < i implies labels.view()[j].0 != k by {
                        assert(labels.view()[j].0 != labels.view()[i as int].0);
                    }
                    lemma_find_key_first(labels.view(), k, i as int);
                } else {
                    assert(has_key(rv0.insert(pos as int, x), k) == has_key(rv0, k));
                    assert(has_key(rv0, k) == has_key(pre, k));
                    lemma_find_key_props(nx, k);
                    lemma_find_key_props(pre, k);
                    if has_key(nx, k) {
                        let j = find_key(nx, k);
                        assert(pre[j] == nx[j]);
                        crate::kvmap::lemma_find_key_first_exists(pre, k, j);
                    }
                    if has_key(pre, k) {
                        let j = find_key(pre, k);
                        assert(nx[j] == pre[j]);
                        crate::kvmap::lemma_find_key_first_exists(nx, k, j);
                    }
                    if has_key(rv0, k) {
                        assert(value_of(t, k) == value_of(rv0, k));
                        assert(value_of(rv0, k) == value_of(labels.view(), k));
                    }
                }
            }
        }
        i += 1;
    }
    proof {
        assert(labels.view().take(n as int) =~= labels.view());
    }
    r
}

/// Whether a name stands in a list of names.
pub open spec fn seq_has(ss: Seq<Seq<char>>, n: Seq<char>) -> bool {
    exists|i: int| 0 <= i < ss.len() && ss[i] == n
}

/// The metric names of a message, in order.
pub open spec fn metric_names(m: &CollectorMetrics) -> Seq<Seq<char>> {
    Seq::new(m.metrics.view().len(), |i: int| m.metrics.view()[i].0)
}

/// A message whose names the Prometheus registry accepts: valid metric
/// names, a valid namespace if any, valid label names.
pub open spec fn shape_valid(m: &CollectorMetrics) -> bool {
    &&& forall|i: int|
        0 <= i < m.metrics.view().len() ==> spec_valid_metric_name(
            (#[trigger] m.metrics.view()[i]).0,
        )
    &&& match m.namespace {
        Some(ns) => spec_valid_metric_name(ns@),
        None => true,
    }
    &&& forall|i: int|
        0 <= i < m.labels.view().len() ==> spec_valid_label_name(
            (#[trigger] m.labels.view()[i]).0,
        )
}

/// Whether the registry would accept this message's shape; a caller
/// checks this before registering, as registration demands it.
pub fn check_shape(m: &CollectorMetrics) -> (r: bool)
    ensures
        r == shape_valid(m),
{
    let nm = m.metrics.len();
    let mut i: usize = 0;
    while i < nm
        invariant
            i <= nm,
            nm == m.metrics.view().len(),
            forall|j: int|
                0 <= j < i ==> spec_valid_metric_name((#[trigger] m.metrics.view()[j]).0),
        decreases nm - i,
    {
        if !valid_metric_name(m.metrics.key_at(i).as_str()) {
            return false;
        }
        i += 1;
    }
    match &m.namespace {
        Some(ns) => {
            if !valid_metric_name(ns.as_str()) {
                return false;
            }
        },
        None => {},
    }
    let nl = m.labels.len();
    let mut j: usize = 0;
    while j < nl
        invariant
            j <= nl,
            nl == m.labels.view().len(),
            forall|k: int| 0 <= k < j ==> spec_valid_label_name((#[trigger] m.labels.view()[k]).0),
        decreases nl - j,
    {
        if !valid_label_name(m.labels.key_at(j).as_str()) {
            return false;
        }
        j += 1;
    }
    true
}


#[verifier::external_type_specification]
#[verifier::external_body]
pub struct ExRegistry(prometheus::Registry);

/// Relies on prometheus::Registry::new: a fresh registry with no
/// collectors.
#[verifier::external_body]
fn new_registry() -> prometheus::Registry {
    prometheus::Registry::new()
}

/// Relies on prometheus::Registry::clone: a registry handle is shared
/// state, so the clone serves the same collectors.
#[verifier::external_body]
fn clone_registry(r: &prometheus::Registry) -> prometheus::Registry {
    r.clone()
}

/// A handle on one Prometheus integer gauge family.  The collector
/// itself is opaque here; everything the manager states is said over
/// the metric names kept beside these handles.
#[verifier::external_body]
pub struct GaugeHandle {
    inner: prometheus::IntGaugeVec,
}

/// Relies on prometheus::IntGaugeVec::new and Opts: building a gauge
/// family succeeds when the metric name and the namespace match
/// `[a-zA-Z_:][a-zA-Z0-9_:]*` and every label name matches
/// `[a-zA-Z_][a-zA-Z0-9_]*` with no duplicates; prometheus's desc
/// module checks exactly these (its help string is the name, never
/// empty here).
#[verifier::external_body]
fn new_int_gauge_vec(name: &String, namespace: &Option<String>, keys: &Vec<String>) -> GaugeHandle
    requires
        spec_valid_metric_name(name@),
        match namespace {
            Some(ns) => spec_valid_metric_name(ns@),
            None => true,
        },
        forall|i: int|
            0 <= i < keys.deep_view().len() ==> spec_valid_label_name(
                #[trigger] keys.deep_view()[i],
            ),
        forall|i: int, j: int|
            0 <= i < j < keys.deep_view().len() ==> keys.deep_view()[i] != keys.deep_view()[j],
{
    let mut opts = prometheus::Opts::new(name.clone(), name.clone());
    if let Some(ns) = namespace {
        opts = opts.namespace(ns.clone());
    }
    let refs: Vec<&str> = keys.iter().map(|s| s.as_str()).collect();
    GaugeHandle { inner: prometheus::IntGaugeVec::new(opts, &refs).unwrap() }
}

/// What registering a collector reported.
pub enum RegisterOutcome {
    Registered,
    Duplicate,
    Refused,
}

/// Relies on prometheus::Registry::register: Err(AlreadyReg) reports a
/// collector with the same descriptor already registered; any other
/// error leaves the registry without this one.
#[verifier::external_body]
fn register_gauge(r: &prometheus::Registry, g: &GaugeHandle) -> RegisterOutcome {
    match r.register(Box::new(g.inner.clone())) {
        Ok(()) => RegisterOutcome::Registered,
        Err(prometheus::Error::AlreadyReg) => RegisterOutcome::Duplicate,
        Err(_) => RegisterOutcome::Refused,
    }
}

/// Relies on prometheus::core::MetricVec::get_metric_with_label_values
/// and GenericGauge::set: sets the gauge of that label-value
/// combination, or reports false when the value count does not match
/// the family's label names.
#[verifier::external_body]
fn gauge_set(g: &GaugeHandle, label_values: &Vec<String>, value: i64) -> bool {
    let refs: Vec<&str> = label_values.iter().map(|s| s.as_str()).collect();
    match g.inner.get_metric_with_label_values(&refs) {
        Ok(m) => {
            m.set(value);
            true
        },
        Err(_) => false,
    }
}

/// One gauge family per metric name of the message, all sharing the
/// message's sorted label keys, under its namespace.
#[verifier::loop_isolation(false)]
pub fn setup_metrics(m: &CollectorMetrics) -> (r: Vec<(String, GaugeHandle)>)
    requires
        m.wf(),
        shape_valid(m),
    ensures
        r@.len() == m.metrics.view().len(),
        forall|i: int| 0 <= i < r@.len() ==> (#[trigger] r@[i]).0@ == m.metrics.view()[i].0,
{
    let sorted = sort_pairs(&m.labels);
    let mut keys: Vec<String> = Vec::new();
    let nk = sorted.len();
    let mut i: usize = 0;
    while i < nk
        invariant
            i <= nk,
            nk == sorted.deep_view().len(),
            keys.deep_view() =~= Seq::new(i as nat, |j: int| sorted.deep_view()[j].0),
        decreases nk - i,
    {
        let c = sorted[i].0.clone();
        let ghost dv0 = keys.deep_view();
        let ghost kv0 = keys@;
        proof {
            assert(dv0.len() == i as int);
            assert(dv0 == Seq::new(kv0.len(), |a: int| kv0[a].deep_view()));
            assert(kv0.len() == i as int);
            assert(sorted.deep_view()[i as int] == sorted@[i as int].deep_view());
            assert(c@ == sorted.deep_view()[i as int].0);
        }
        keys.push(c);
        proof {
            assert(keys@ == kv0.push(c));
            assert forall|j: int| 0 <= j <= i implies keys.deep_view()[j] == sorted.deep_view()[
                j
            ].0 by {
                assert(keys.deep_view()[j] == keys@[j].deep_view());
                if j < i {
                    assert(keys@[j] == kv0[j]);
                    assert(dv0[j] == kv0[j].deep_view());
                } else {
                    assert(keys@[j] == c);
                }
            }
            assert(keys.deep_view() =~= Seq::new(
                (i + 1) as nat,
                |j: int| sorted.deep_view()[j].0,
            ));
        }
        i += 1;
    }
    proof {
        assert forall|a: int|
            0 <= a < keys.deep_view().len() implies spec_valid_label_name(
            #[trigger] keys.deep_view()[a],
        ) by {
            let k = sorted.deep_view()[a].0;
            crate::kvmap::lemma_find_key_first_exists(sorted.deep_view(), k, a);
            lemma_find_key_props(m.labels.view(), k);
        }
        assert forall|a: int, b: int|
            0 <= a < b < keys.deep_view().len() implies keys.deep_view()[a] != keys.deep_view()[
            b
        ] by {}
    }
    let mut out: Vec<(String, GaugeHandle)> = Vec::new();
    let nm = m.metrics.len();
    let mut j: usize = 0;
    while j < nm
        invariant
            j <= nm,
            nm == m.metrics.view().len(),
            out@.len() == j,
            forall|a: int| 0 <= a < j ==> (#[trigger] out@[a]).0@ == m.metrics.view()[a].0,
        decreases nm - j,
    {
        let name = m.metrics.key_at(j).clone();
        let gauge = new_int_gauge_vec(&name, &m.namespace, &keys);
        out.push((name, gauge));
        j += 1;
    }
    out
}

/// The collector's registry state: the live registry and one gauge
/// family per metric name seen so far.
pub struct GaugeManager {
    pub registry: prometheus::Registry,
    pub entries: Vec<(String, GaugeHandle)>,
}

/// The commands the manager's channel carries.
pub enum Command {
    Start,
    Stop,
    Register(CollectorMetrics),
    SendMetrics(CollectorMetrics),
}

/// What the caller running the manager loop must do after a command.
pub enum Action {
    StartServer,
    StopServer,
    Restart,
    Register(CollectorMetrics),
    Nothing,
}

impl GaugeManager {
    /// The gauge names, in registration order.
    pub open spec fn names(&self) -> Seq<Seq<char>> {
        Seq::new(self.entries@.len(), |i: int| self.entries@[i].0@)
    }

    pub open spec fn wf(&self) -> bool {
        forall|i: int, j: int|
            0 <= i < j < self.names().len() ==> self.names()[i] != self.names()[j]
    }

    pub fn new() -> (r: GaugeManager)
        ensures
            r.names() == Seq::<Seq<char>>::empty(),
            r.wf(),
    {
        let r = GaugeManager { registry: new_registry(), entries: Vec::new() };
        proof {
            assert(r.names() =~= Seq::<Seq<char>>::empty());
        }
        r
    }

    /// A shared handle on the current registry, for the HTTP exposer.
    pub fn registry(&self) -> prometheus::Registry {
        clone_registry(&self.registry)
    }

    pub fn contains_name(&self, k: &String) -> (r: bool)
        ensures
            r == seq_has(self.names(), k@),
    {
        let n = self.entries.len();
        let mut i: usize = 0;
        while i < n
            invariant
                i <= n,
                n == self.names().len(),
                forall|j: int| 0 <= j < i ==> self.names()[j] != k@,
            decreases n - i,
        {
            if str_eq(self.entries[i].0.as_str(), k.as_str()) {
                proof {
                    assert(self.names()[i as int] == k@);
                }
                return true;
            }
            i += 1;
        }
        proof {
            if seq_has(self.names(), k@) {
                let j = choose|j: int| 0 <= j < self.names().len() && self.names()[j] == k@;
                assert(self.names()[j] != k@);
            }
        }
        false
    }

    /// Register a message's shape: build one gauge family per metric
    /// name, register each genuinely new name with the registry, and
    /// report whether anything new arrived — exactly then the caller
    /// rebuilds the HTTP endpoint around the registry.  Afterwards the
    /// gauge names are exactly the old ones together with the
    /// message's metric names.
    #[verifier::loop_isolation(false)]
    pub fn handle_register(&mut self, m: &CollectorMetrics) -> (rebuilt: bool)
        requires
            old(self).wf(),
            m.wf(),
            shape_valid(m),
        ensures
            final(self).wf(),
            forall|k: Seq<char>|
                #[trigger] seq_has(final(self).names(), k) == (seq_has(old(self).names(), k)
                    || seq_has(metric_names(m), k)),
            rebuilt == exists|i: int|
                0 <= i < metric_names(m).len() && !seq_has(
                    old(self).names(),
                    #[trigger] metric_names(m)[i],
                ),
    {
        let mut gm = setup_metrics(m);
        let mut rebuilt: bool = false;
        let ghost names0 = self.names();
        let ghost mnames = metric_names(m);
        proof {
            assert forall|a: int, b: int| 0 <= a < b < mnames.len() implies mnames[a] != mnames[
                b
            ] by {
                assert(m.metrics.view()[a].0 != m.metrics.view()[b].0);
            }
        }
        let n = gm.len();
        let mut i: usize = 0;
        while i < n
            invariant
                i <= n,
                n == mnames.len(),
                gm@.len() == n - i,
                forall|a: int| 0 <= a < gm@.len() ==> (#[trigger] gm@[a]).0@ == mnames[a + i],
                self.wf(),
                forall|k: Seq<char>|
                    #[trigger] seq_has(self.names(), k) == (seq_has(names0, k) || seq_has(
                        mnames.take(i as int),
                        k,
                    )),
                rebuilt == exists|a: int|
                    0 <= a < i && !seq_has(names0, #[trigger] mnames[a]),
            decreases n - i,
        {
            let ghost names_pre = self.names();
            let entry = gm.remove(0);
            let fresh = !self.contains_name(&entry.0);
            proof {
                assert(entry.0@ == mnames[i as int]);
            }
            if fresh {
                let _outcome = register_gauge(&self.registry, &entry.1);
                self.entries.push(entry);
                rebuilt = true;
                proof {
                    assert forall|k: Seq<char>|
                        #[trigger] seq_has(self.names(), k) == (seq_has(names_pre, k) || k
                        == mnames[i as int]) by {
                        let nn = self.names();
                        assert(nn.len() == names_pre.len() + 1);
                        assert(nn[nn.len() - 1] == mnames[i as int]);
                        if seq_has(nn, k) {
                            let j = choose|j: int| 0 <= j < nn.len() && nn[j] == k;
                            if j < names_pre.len() {
                                assert(names_pre[j] == k);
                            }
                        }
                        if seq_has(names_pre, k) {
                            let j = choose|j: int|
                                0 <= j < names_pre.len() && names_pre[j] == k;
                            assert(nn[j] == k);
                        }
                    }
                    assert forall|a: int, b: int|
                        0 <= a < b < self.names().len() implies self.names()[a] != self.names()[
                        b
                    ] by {
                        if b == self.names().len() - 1 {
                            assert(self.names()[b] == mnames[i as int]);
                            assert(self.names()[a] == names_pre[a]);
                            if self.names()[a] == self.names()[b] {
                                assert(names_pre[a] == mnames[i as int]);
                                assert(seq_has(names_pre, mnames[i as int]));
                            }
                        } else {
                            assert(self.names()[a] == names_pre[a]);
                            assert(self.names()[b] == names_pre[b]);
                        }
                    }
                }
            }
            proof {
                let t1 = mnames.take(i as int + 1);
                let t0 = mnames.take(i as int);
                assert forall|k: Seq<char>|
                    #[trigger] seq_has(t1, k) == (seq_has(t0, k) || k == mnames[i as int]) by {
                    if seq_has(t1, k) {
                        let j = choose|j: int| 0 <= j < t1.len() && t1[j] == k;
                        if j < i {
                            assert(t0[j] == k);
                        } else {
                            assert(t1[j] == mnames[i as int]);
                        }
                    }
                    if seq_has(t0, k) {
                        let j = choose|j: int| 0 <= j < t0.len() && t0[j] == k;
                        assert(t1[j] == k);
                    }
                    if k == mnames[i as int] {
                        assert(t1[i as int] == k);
                    }
                }
                if !fresh {
                    assert(seq_has(names_pre, mnames[i as int]));
                    if !seq_has(names0, mnames[i as int]) {
                        assert(seq_has(t0, mnames[i as int]));
                        let j = choose|j: int| 0 <= j < t0.len() && t0[j] == mnames[i as int];
                        assert(mnames[j] == mnames[i as int]);
                    }
                }
                assert forall|a: int| 0 <= a < gm@.len() implies (#[trigger] gm@[a]).0@ == mnames[
                    a + i + 1
                ] by {}
            }
            i += 1;
        }
        proof {
            assert(mnames.take(n as int) =~= mnames);
        }
        rebuilt
    }

    /// Update gauges from one message: project its label values in
    /// sorted-key order, set the gauge of every registered metric name
    /// (counters clamp to the top of the signed 64-bit range), and
    /// report whether any name was unknown — exactly then the caller
    /// re-issues a register command for the message.
    #[verifier::loop_isolation(false)]
    pub fn handle_send(&self, m: &CollectorMetrics) -> (missing: bool)
        requires
            m.wf(),
        ensures
            missing == exists|i: int|
                0 <= i < metric_names(m).len() && !seq_has(
                    self.names(),
                    #[trigger] metric_names(m)[i],
                ),
    {
        let sorted = sort_pairs(&m.labels);
        let mut vals: Vec<String> = Vec::new();
        let nk = sorted.len();
        let mut i: usize = 0;
        while i < nk
            invariant
                i <= nk,
            decreases nk - i,
        {
            vals.push(sorted[i].1.clone());
            i += 1;
        }
        let mut missing: bool = false;
        let ghost mnames = metric_names(m);
        let nm = m.metrics.len();
        let mut j: usize = 0;
        while j < nm
            invariant
                j <= nm,
                nm == mnames.len(),
                missing == exists|a: int|
                    0 <= a < j && !seq_has(self.names(), #[trigger] mnames[a]),
            decreases nm - j,
        {
            let name = m.metrics.key_at(j).clone();
            let value = m.metrics.val_at(j);
            proof {
                assert(name@ == mnames[j as int]);
            }
            let ne = self.entries.len();
            let mut e: usize = 0;
            let mut found: bool = false;
            while e < ne
                invariant
                    e <= ne,
                    ne == self.names().len(),
                    !found,
                    forall|a: int| 0 <= a < e ==> self.names()[a] != name@,
                decreases ne - e,
            {
                if str_eq(self.entries[e].0.as_str(), name.as_str()) {
                    found = true;
                    break ;
                }
                e += 1;
            }
            if found {
                let clamped: i64 = if value > 9223372036854775807u64 {
                    9223372036854775807i64
                } else {
                    value as i64
                };
                let _ok = gauge_set(&self.entries[e].1, &vals, clamped);
                proof {
                    assert(self.names()[e as int] == name@);
                }
            } else {
                missing = true;
                proof {
                    if seq_has(self.names(), name@) {
                        let a = choose|a: int|
                            0 <= a < self.names().len() && self.names()[a] == name@;
                        assert(self.names()[a] != name@);
                    }
                }
            }
            j += 1;
        }
        missing
    }

    /// One step of the manager's command loop: start and stop pass
    /// through to the HTTP runner; a register command rebuilds exactly
    /// when a new name arrived; a send command asks for a deferred
    /// register exactly when a name was unknown.
    pub fn handle_command(&mut self, cmd: Command) -> (action: Action)
        requires
            old(self).wf(),
            match cmd {
                Command::Register(m) => m.wf() && shape_valid(&m),
                Command::SendMetrics(m) => m.wf(),
                _ => true,
            },
        ensures
            final(self).wf(),
            match cmd {
                Command::Start => action is StartServer && *final(self) == *old(self),
                Command::Stop => action is StopServer && *final(self) == *old(self),
                Command::Register(m) => {
                    &&& (action is Restart || action is Nothing)
                    &&& (action is Restart) == exists|i: int|
                        0 <= i < metric_names(&m).len() && !seq_has(
                            old(self).names(),
                            #[trigger] metric_names(&m)[i],
                        )
                    &&& forall|k: Seq<char>|
                        #[trigger] seq_has(final(self).names(), k) == (seq_has(
                            old(self).names(),
                            k,
                        ) || seq_has(metric_names(&m), k))
                },
                Command::SendMetrics(m) => {
                    &&& *final(self) == *old(self)
                    &&& (action matches Action::Register(r) && r == m || action is Nothing)
                    &&& (action matches Action::Register(r)) == exists|i: int|
                        0 <= i < metric_names(&m).len() && !seq_has(
                            old(self).names(),
                            #[trigger] metric_names(&m)[i],
                        )
                },
            },
    {
        match cmd {
            Command::Start => Action::StartServer,
            Command::Stop => Action::StopServer,
            Command::Register(m) => {
                let rebuilt = self.handle_register(&m);
                if rebuilt {
                    Action::Restart
                } else {
                    Action::Nothing
                }
            },
            Command::SendMetrics(m) => {
                let missing = self.handle_send(&m);
                if missing {
                    Action::Register(m)
                } else {
                    Action::Nothing
                }
            },
        }
    }
}

/// Registration folded over a whole run: given the states a manager
/// passes through under a sequence of register commands, each step
/// adding one message's names as `handle_register` guarantees, the
/// final gauge names are exactly the initial ones together with every
/// metric name seen.
pub proof fn lemma_register_sequence(states: Seq<Seq<Seq<char>>>, groups: Seq<Seq<Seq<char>>>)
    requires
        states.len() == groups.len() + 1,
        forall|j: int, k: Seq<char>|
            0 <= j < groups.len() ==> #[trigger] seq_has(states[j + 1], k) == (seq_has(
                states[j],
                k,
            ) || seq_has(groups[j], k)),
    ensures
        forall|k: Seq<char>|
            #[trigger] seq_has(states.last(), k) == (seq_has(states[0], k) || exists|j: int|
                0 <= j < groups.len() && seq_has(#[trigger] groups[j], k)),
    decreases groups.len(),
{
    if groups.len() == 0 {
    } else {
        let m = groups.len() - 1;
        lemma_register_sequence(states.take(states.len() - 1), groups.take(m));
        assert forall|k: Seq<char>|
            #[trigger] seq_has(states.last(), k) == (seq_has(states[0], k) || exists|j: int|
                0 <= j < groups.len() && seq_has(#[trigger] groups[j], k)) by {
            let st = states.take(states.len() - 1);
            let gt = groups.take(m);
            assert(st.last() == states[states.len() - 2]);
            assert(st[0] == states[0]);
            assert forall|j: int, k2: Seq<char>|
                0 <= j < gt.len() implies #[trigger] seq_has(st[j + 1], k2) == (seq_has(
                st[j],
                k2,
            ) || seq_has(gt[j], k2)) by {
                assert(st[j + 1] == states[j + 1]);
                assert(st[j] == states[j]);
                assert(gt[j] == groups[j]);
            }
            assert(seq_has(states.last(), k) == (seq_has(states[m], k) || seq_has(
                groups[m],
                k,
            )));
            if seq_has(states.last(), k) {
                if seq_has(groups[m], k) {
                } else {
                    assert(seq_has(st.last(), k));
                    if !seq_has(states[0], k) {
                        let j = choose|j: int| 0 <= j < gt.len() && seq_has(gt[j], k);
                        assert(seq_has(groups[j], k));
                    }
                }
            }
            if seq_has(states[0], k) {
                assert(seq_has(st.last(), k));
            }
            if exists|j: int| 0 <= j < groups.len() && seq_has(#[trigger] groups[j], k) {
                let j = choose|j: int| 0 <= j < groups.len() && seq_has(#[trigger] groups[j], k);
                if j == m {
                } else {
                    assert(seq_has(gt[j], k));
                    assert(seq_has(st.last(), k));
                }
            }
        }
    }
}

} // verus!
