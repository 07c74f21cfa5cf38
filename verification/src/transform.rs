//! The OpenConfig telemetry transformer: per-emission aggregates, the
//! previous-emission store, and rate computation across emissions.

use vstd::prelude::*;
use vstd::string::StrSliceExecFns;
use vstd::string::StringExecFns;
use crate::kvmap::{extend_s, find_key, has_key, insert_s, lemma_find_key_first,
    lemma_find_key_props, value_of, LabelMap, MetricMap};
use crate::text::push_char;

verus! {

/// Identity of one registered metric family.
#[derive(PartialEq, Eq, Hash, Clone, Debug)]
pub struct MetricsKey {
    pub namespace: String,
    pub system_id: String,
    pub counter_name: String,
}

/// Abstract state of the per-counter-key slot of an aggregate.
pub struct DataView {
    pub data: Seq<(Seq<char>, u64)>,
    pub labels: Seq<(Seq<char>, Seq<char>)>,
}

/// Abstract state of one aggregate.
pub struct AggView {
    pub prefix: Seq<char>,
    pub metrics_data: Seq<(Seq<char>, DataView)>,
    pub prefix_labels: Seq<(Seq<char>, Seq<char>)>,
    pub ts: u64,
    pub system_id: Seq<char>,
    pub namespace: Seq<char>,
}

/// The counters and per-counter labels collected under one counter key.
pub struct OpenConfigMetricsData {
    pub data: MetricMap,
    pub metrics_labels: LabelMap,
}

impl OpenConfigMetricsData {
    pub open spec fn view(&self) -> DataView {
        DataView { data: self.data.view(), labels: self.metrics_labels.view() }
    }

    pub open spec fn wf(&self) -> bool {
        self.data.wf() && self.metrics_labels.wf()
    }

    pub fn new() -> (r: OpenConfigMetricsData)
        ensures
            r.view().data == Seq::<(Seq<char>, u64)>::empty(),
            r.view().labels == Seq::<(Seq<char>, Seq<char>)>::empty(),
            r.wf(),
    {
        OpenConfigMetricsData { data: MetricMap::new(), metrics_labels: LabelMap::new() }
    }

    /// Record a counter value and its per-second rate under `key` and
    /// `key_per_sec`.
    pub fn add(&mut self, key: String, value: u64, rate: u64)
        ensures
            final(self).view().data == insert_s(
                insert_s(old(self).view().data, key@, value),
                key@ + "_per_sec"@,
                rate,
            ),
            final(self).view().labels == old(self).view().labels,
            old(self).wf() ==> final(self).wf(),
    {
        let rate_key = key.clone().concat("_per_sec");
        self.data.insert(key, value);
        self.data.insert(rate_key, rate);
    }

    /// Merge a label set into this slot's labels.
    pub fn add_labels(&mut self, labels: &LabelMap)
        ensures
            final(self).view().labels == extend_s(old(self).view().labels, labels.view()),
            final(self).view().data == old(self).view().data,
            old(self).wf() ==> final(self).wf(),
    {
        self.metrics_labels.extend(labels);
    }

    pub fn duplicate(&self) -> (r: OpenConfigMetricsData)
        ensures
            r.view() == self.view(),
    {
        let r = OpenConfigMetricsData {
            data: self.data.duplicate(),
            metrics_labels: self.metrics_labels.duplicate(),
        };
        r
    }
}

/// What `add` does to a slot.
pub open spec fn spec_data_add(
    d: DataView,
    name: Seq<char>,
    value: u64,
    labels: Seq<(Seq<char>, Seq<char>)>,
    rate: u64,
) -> DataView {
    DataView {
        data: insert_s(insert_s(d.data, name, value), name + "_per_sec"@, rate),
        labels: extend_s(d.labels, labels),
    }
}

/// What recording a counter does to an aggregate's slot map: the slot of
/// `ck` (a fresh one if none exists) takes the counter and its rate and
/// merges the counter labels.
pub open spec fn spec_add_metrics_data(
    md: Seq<(Seq<char>, DataView)>,
    ck: Seq<char>,
    name: Seq<char>,
    value: u64,
    labels: Seq<(Seq<char>, Seq<char>)>,
    rate: u64,
) -> Seq<(Seq<char>, DataView)> {
    if has_key(md, ck) {
        md.update(
            find_key(md, ck),
            (ck, spec_data_add(value_of(md, ck), name, value, labels, rate)),
        )
    } else {
        md.push(
            (
                ck,
                spec_data_add(
                    DataView { data: Seq::empty(), labels: Seq::empty() },
                    name,
                    value,
                    labels,
                    rate,
                ),
            ),
        )
    }
}

/// The aggregate key: the system id followed by `_` and each prefix
/// label value, in insertion order.
pub open spec fn agg_key(system_id: Seq<char>, pls: Seq<(Seq<char>, Seq<char>)>) -> Seq<char>
    decreases pls.len(),
{
    if pls.len() == 0 {
        system_id
    } else {
        agg_key(system_id, pls.drop_last()) + seq!['_'] + pls.last().1
    }
}

/// One telemetry aggregate: all counters of one emission under one
/// subscription prefix.
pub struct OpenConfigMetrics {
    pub prefix: String,
    pub metrics_data: Vec<(String, OpenConfigMetricsData)>,
    pub prefix_labels: LabelMap,
    pub ts: u64,
    pub system_id: String,
    pub namespace: String,
}

impl OpenConfigMetrics {
    pub open spec fn md_view(&self) -> Seq<(Seq<char>, DataView)> {
        Seq::new(
            self.metrics_data@.len(),
            |i: int| (self.metrics_data@[i].0@, self.metrics_data@[i].1.view()),
        )
    }

    pub open spec fn view(&self) -> AggView {
        AggView {
            prefix: self.prefix@,
            metrics_data: self.md_view(),
            prefix_labels: self.prefix_labels.view(),
            ts: self.ts,
            system_id: self.system_id@,
            namespace: self.namespace@,
        }
    }

    pub open spec fn wf(&self) -> bool {
        self.prefix_labels.wf() && crate::kvmap::unique_keys(self.md_view()) && forall|i: int|
            0 <= i < self.metrics_data@.len() ==> (#[trigger] self.metrics_data@[i]).1.wf()
    }

    pub fn new(prefix: String, system_id: String, namespace: String) -> (r: OpenConfigMetrics)
        ensures
            r.view().prefix == prefix@,
            r.view().metrics_data == Seq::<(Seq<char>, DataView)>::empty(),
            r.view().prefix_labels == Seq::<(Seq<char>, Seq<char>)>::empty(),
            r.view().ts == 0,
            r.view().system_id == system_id@,
            r.view().namespace == namespace@,
            r.wf(),
    {
        let r = OpenConfigMetrics {
            prefix,
            metrics_data: Vec::new(),
            prefix_labels: LabelMap::new(),
            ts: 0,
            system_id,
            namespace,
        };
        proof {
            assert(r.md_view() =~= Seq::<(Seq<char>, DataView)>::empty());
        }
        r
    }

    fn position_of(&self, k: &String) -> (r: Option<usize>)
        ensures
            match r {
                Some(i) => has_key(self.md_view(), k@) && i == find_key(self.md_view(), k@),
                None => !has_key(self.md_view(), k@),
            },
    {
        let n = self.metrics_data.len();
        let mut i: usize = 0;
        while i < n
            invariant
                n == self.md_view().len(),
                i <= n,
                forall|j: int| 0 <= j < i ==> self.md_view()[j].0 != k@,
            decreases n - i,
        {
            if self.metrics_data[i].0 == *k {
                proof {
                    lemma_find_key_first(self.md_view(), k@, i as int);
                }
                return Some(i);
            }
            i += 1;
        }
        proof {
            lemma_find_key_props(self.md_view(), k@);
        }
        None
    }

    /// Record one counter under its counter key.
    pub fn add_metrics_data(
        &mut self,
        counter_key: String,
        counter_name: String,
        value: u64,
        labels: &LabelMap,
        rate: u64,
    )
        ensures
            final(self).view().metrics_data == spec_add_metrics_data(
                old(self).view().metrics_data,
                counter_key@,
                counter_name@,
                value,
                labels.view(),
                rate,
            ),
            final(self).view().prefix == old(self).view().prefix,
            final(self).view().prefix_labels == old(self).view().prefix_labels,
            final(self).view().ts == old(self).view().ts,
            final(self).view().system_id == old(self).view().system_id,
            final(self).view().namespace == old(self).view().namespace,
            old(self).wf() && labels.wf() ==> final(self).wf(),
    {
        let ghost md0 = self.md_view();
        proof {
            lemma_find_key_props(md0, counter_key@);
            if old(self).wf() {
                crate::kvmap::lemma_insert_props(md0, counter_key@, value_of(md0, counter_key@));
            }
        }
        match self.position_of(&counter_key) {
            Some(i) => {
                let mut entry = self.metrics_data.remove(i);
                entry.1.add(counter_name, value, rate);
                entry.1.add_labels(labels);
                self.metrics_data.insert(i, entry);
                proof {
                    assert(self.md_view() =~= spec_add_metrics_data(
                        md0,
                        counter_key@,
                        counter_name@,
                        value,
                        labels.view(),
                        rate,
                    ));
                }
            },
            None => {
                let mut data = OpenConfigMetricsData::new();
                data.add(counter_name, value, rate);
                data.add_labels(labels);
                self.metrics_data.push((counter_key, data));
                proof {
                    assert(self.md_view() =~= spec_add_metrics_data(
                        md0,
                        counter_key@,
                        counter_name@,
                        value,
                        labels.view(),
                        rate,
                    ));
                }
            },
        }
        proof {
            if old(self).wf() && labels.wf() {
                assert forall|i: int, j: int|
                    0 <= i < j < self.md_view().len() implies self.md_view()[i].0
                    != self.md_view()[j].0 by {
                    assert(md0[i].0 == self.md_view()[i].0 || (md0.len() < self.md_view().len()
                        && j == self.md_view().len() - 1));
                }
            }
        }
    }

    /// The slot recorded under a counter key, if any.
    pub fn get_metrics_data(&self, counter_name: &String) -> (r: Option<&OpenConfigMetricsData>)
        ensures
            match r {
                Some(d) => has_key(self.md_view(), counter_name@) && d.view() == value_of(
                    self.md_view(),
                    counter_name@,
                ),
                None => !has_key(self.md_view(), counter_name@),
            },
    {
        match self.position_of(counter_name) {
            Some(i) => {
                proof {
                    lemma_find_key_props(self.md_view(), counter_name@);
                }
                Some(&self.metrics_data[i].1)
            },
            None => None,
        }
    }

    /// The aggregate key: system id plus every prefix label value.
    pub fn key(&self) -> (r: String)
        ensures
            r@ == agg_key(self.system_id@, self.prefix_labels.view()),
    {
        let mut key = self.system_id.clone();
        let n = self.prefix_labels.len();
        let mut i: usize = 0;
        proof {
            assert(self.prefix_labels.view().take(0) =~= Seq::<(Seq<char>, Seq<char>)>::empty());
        }
        while i < n
            invariant
                i <= n,
                n == self.prefix_labels.view().len(),
                key@ == agg_key(self.system_id@, self.prefix_labels.view().take(i as int)),
            decreases n - i,
        {
            proof {
                let pls = self.prefix_labels.view();
                assert(pls.take(i as int + 1).drop_last() =~= pls.take(i as int));
                assert(pls.take(i as int + 1).last() == pls[i as int]);
            }
            push_char(&mut key, '_');
            key.append(self.prefix_labels.val_at(i).as_str());
            proof {
                assert(key@ =~= agg_key(
                    self.system_id@,
                    self.prefix_labels.view().take(i as int + 1),
                ));
            }
            i += 1;
        }
        proof {
            assert(self.prefix_labels.view().take(n as int) =~= self.prefix_labels.view());
        }
        key
    }

    pub fn duplicate(&self) -> (r: OpenConfigMetrics)
        ensures
            r.view() == self.view(),
            self.wf() ==> r.wf(),
    {
        let mut md: Vec<(String, OpenConfigMetricsData)> = Vec::new();
        let n = self.metrics_data.len();
        let mut i: usize = 0;
        while i < n
            invariant
                i <= n,
                n == self.md_view().len(),
                md@.len() == i,
                forall|j: int|
                    0 <= j < i ==> (#[trigger] md@[j]).0@ == self.md_view()[j].0 && md@[j].1.view()
                        == self.md_view()[j].1 && (self.wf() ==> md@[j].1.wf()),
            decreases n - i,
        {
            let e = (self.metrics_data[i].0.clone(), self.metrics_data[i].1.duplicate());
            md.push(e);
            i += 1;
        }
        let r = OpenConfigMetrics {
            prefix: self.prefix.clone(),
            metrics_data: md,
            prefix_labels: self.prefix_labels.duplicate(),
            ts: self.ts,
            system_id: self.system_id.clone(),
            namespace: self.namespace.clone(),
        };
        proof {
            assert(r.md_view() =~= self.md_view());
            assert(r.view() == self.view());
        }
        r
    }
}


/// The per-message list of aggregates, one per `__prefix__` seen.
pub struct OpenConfigMetricsList(pub Vec<OpenConfigMetrics>);

impl OpenConfigMetricsList {
    pub open spec fn view(&self) -> Seq<AggView> {
        Seq::new(self.0@.len(), |i: int| self.0@[i].view())
    }

    pub open spec fn wf(&self) -> bool {
        forall|i: int| 0 <= i < self.0@.len() ==> (#[trigger] self.0@[i]).wf()
    }

    pub fn new() -> (r: OpenConfigMetricsList)
        ensures
            r.view() == Seq::<AggView>::empty(),
            r.wf(),
    {
        let r = OpenConfigMetricsList(Vec::new());
        proof {
            assert(r.view() =~= Seq::<AggView>::empty());
        }
        r
    }

    /// Open a new aggregate for a freshly parsed prefix.
    pub fn add(
        &mut self,
        prefix: String,
        prefix_labels: LabelMap,
        ts: u64,
        system_id: String,
        namespace: String,
    )
        requires
            prefix_labels.wf(),
        ensures
            final(self).view() == old(self).view().push(
                AggView {
                    prefix: prefix@,
                    metrics_data: Seq::empty(),
                    prefix_labels: prefix_labels.view(),
                    ts: ts,
                    system_id: system_id@,
                    namespace: namespace@,
                },
            ),
            old(self).wf() ==> final(self).wf(),
    {
        let mut metrics = OpenConfigMetrics::new(prefix, system_id, namespace);
        metrics.prefix_labels = prefix_labels;
        metrics.ts = ts;
        proof {
            assert(metrics.md_view() =~= Seq::<(Seq<char>, DataView)>::empty());
        }
        self.0.push(metrics);
        proof {
            assert(final(self).view() =~= old(self).view().push(
                AggView {
                    prefix: prefix@,
                    metrics_data: Seq::empty(),
                    prefix_labels: prefix_labels.view(),
                    ts: ts,
                    system_id: system_id@,
                    namespace: namespace@,
                },
            ));
        }
    }

    /// Record a counter on the most recent aggregate, under its full
    /// name `{prefix}_{counter_name}`; without an aggregate nothing
    /// happens.
    pub fn add_counter(
        &mut self,
        counter_key: String,
        counter_name: String,
        counter_labels: &LabelMap,
        value: u64,
        rate: u64,
    )
        requires
            counter_labels.wf(),
        ensures
            old(self).view().len() == 0 ==> *final(self) == *old(self),
            old(self).view().len() > 0 ==> final(self).view() == old(self).view().update(
                old(self).view().len() - 1,
                AggView {
                    prefix: old(self).view().last().prefix,
                    metrics_data: spec_add_metrics_data(
                        old(self).view().last().metrics_data,
                        counter_key@,
                        old(self).view().last().prefix + seq!['_'] + counter_name@,
                        value,
                        counter_labels.view(),
                        rate,
                    ),
                    prefix_labels: old(self).view().last().prefix_labels,
                    ts: old(self).view().last().ts,
                    system_id: old(self).view().last().system_id,
                    namespace: old(self).view().last().namespace,
                },
            ),
            old(self).wf() ==> final(self).wf(),
    {
        let n = self.0.len();
        if n == 0 {
            return ;
        }
        let mut last = self.0.remove(n - 1);
        let full_name = last.prefix.clone().concat("_").concat(counter_name.as_str());
        proof {
            reveal_strlit("_");
            assert(full_name@ =~= last.prefix@ + seq!['_'] + counter_name@);
        }
        last.add_metrics_data(counter_key, full_name, value, counter_labels, rate);
        self.0.push(last);
        proof {
            assert(final(self).view() =~= old(self).view().update(
                old(self).view().len() - 1,
                final(self).view().last(),
            ));
        }
    }

    /// The key of the most recent aggregate, or `default` when the
    /// message carried no prefix yet.
    pub fn get_key(&self) -> (r: String)
        ensures
            self.view().len() == 0 ==> r@ == "default"@,
            self.view().len() > 0 ==> r@ == agg_key(
                self.view().last().system_id,
                self.view().last().prefix_labels,
            ),
    {
        let n = self.0.len();
        if n == 0 {
            String::from_str("default")
        } else {
            self.0[n - 1].key()
        }
    }

    /// The timestamp of the most recent aggregate.
    pub fn ts(&self) -> (r: u64)
        requires
            self.view().len() > 0,
        ensures
            r == self.view().last().ts,
    {
        let n = self.0.len();
        self.0[n - 1].ts
    }
}

/// The previous-emission store: one aggregate per aggregate key, kept
/// across messages for rate computation.
pub struct PrevMap {
    pub entries: Vec<(String, OpenConfigMetrics)>,
}

impl PrevMap {
    pub open spec fn view(&self) -> Seq<(Seq<char>, AggView)> {
        Seq::new(self.entries@.len(), |i: int| (self.entries@[i].0@, self.entries@[i].1.view()))
    }

    pub open spec fn wf(&self) -> bool {
        crate::kvmap::unique_keys(self.view()) && forall|i: int|
            0 <= i < self.entries@.len() ==> (#[trigger] self.entries@[i]).1.wf()
    }

    pub fn new() -> (r: PrevMap)
        ensures
            r.view() == Seq::<(Seq<char>, AggView)>::empty(),
            r.wf(),
    {
        let r = PrevMap { entries: Vec::new() };
        proof {
            assert(r.view() =~= Seq::<(Seq<char>, AggView)>::empty());
        }
        r
    }

    fn position_of(&self, k: &String) -> (r: Option<usize>)
        ensures
            match r {
                Some(i) => has_key(self.view(), k@) && i == find_key(self.view(), k@),
                None => !has_key(self.view(), k@),
            },
    {
        let n = self.entries.len();
        let mut i: usize = 0;
        while i < n
            invariant
                n == self.view().len(),
                i <= n,
                forall|j: int| 0 <= j < i ==> self.view()[j].0 != k@,
            decreases n - i,
        {
            if self.entries[i].0 == *k {
                proof {
                    lemma_find_key_first(self.view(), k@, i as int);
                }
                return Some(i);
            }
            i += 1;
        }
        proof {
            lemma_find_key_props(self.view(), k@);
        }
        None
    }

    /// Store an aggregate under its key, replacing any previous one.
    pub fn insert(&mut self, k: String, v: OpenConfigMetrics)
        requires
            v.wf(),
        ensures
            final(self).view() == insert_s(old(self).view(), k@, v.view()),
            old(self).wf() ==> final(self).wf(),
    {
        let ghost s0 = self.view();
        proof {
            lemma_find_key_props(s0, k@);
            crate::kvmap::lemma_insert_props(s0, k@, v.view());
        }
        match self.position_of(&k) {
            Some(i) => {
                self.entries.remove(i);
                self.entries.insert(i, (k, v));
                proof {
                    assert(self.view() =~= insert_s(s0, k@, v.view()));
                }
            },
            None => {
                self.entries.push((k, v));
                proof {
                    assert(self.view() =~= insert_s(s0, k@, v.view()));
                }
            },
        }
    }
}

/// The telemetry rate: the increase since the previous value, divided
/// by the elapsed time in seconds, truncating.  A counter that shrank
/// was reset and reports zero, as do a zero delta and a clock that did
/// not advance; a result beyond 64 bits saturates.
pub open spec fn spec_rate(prev_v: u64, prev_ts: u64, v: u64, ts: u64) -> u64 {
    if v < prev_v {
        0u64
    } else {
        let delta: u64 = (v - prev_v) as u64;
        if delta == 0 {
            0u64
        } else if ts <= prev_ts {
            0u64
        } else if delta * 1000 / (ts - prev_ts) > u64::MAX {
            u64::MAX
        } else {
            (delta * 1000 / (ts - prev_ts)) as u64
        }
    }
}

pub fn compute_rate(prev_v: u64, prev_ts: u64, v: u64, ts: u64) -> (r: u64)
    ensures
        r == spec_rate(prev_v, prev_ts, v, ts),
{
    if v < prev_v {
        return 0;
    }
    let delta: u64 = v - prev_v;
    if delta == 0 {
        return 0;
    }
    if ts <= prev_ts {
        return 0;
    }
    let wide: u128 = (delta as u128) * 1000 / ((ts - prev_ts) as u128);
    if wide > u64::MAX as u128 {
        u64::MAX
    } else {
        wide as u64
    }
}

/// For two observations of a monotone counter under an advancing clock,
/// the emitted rate is exactly `(v2 - v1) * 1000 / (ts2 - ts1)`, with
/// integer truncation.
pub proof fn lemma_monotone_rate(v1: u64, ts1: u64, v2: u64, ts2: u64)
    requires
        v1 <= v2,
        ts1 < ts2,
        (v2 - v1) * 1000 / (ts2 - ts1) <= u64::MAX,
    ensures
        spec_rate(v1, ts1, v2, ts2) == (v2 - v1) * 1000 / (ts2 - ts1),
{
    if v2 - v1 == 0 {
    }
}

/// The full metric name of a counter under a prefix.
pub open spec fn spec_full_name(prefix: Seq<char>, name: Seq<char>) -> Seq<char> {
    prefix + seq!['_'] + name
}

/// The rate found by the previous-emission lookup chain: the previous
/// aggregate by aggregate key, its slot by counter key, the counter's
/// previous value by full name; any miss means a rate of zero.
pub open spec fn spec_rate_for(
    pv: Seq<(Seq<char>, AggView)>,
    ak: Seq<char>,
    ck: Seq<char>,
    short_name: Seq<char>,
    v: u64,
    ts: u64,
) -> u64 {
    if has_key(pv, ak) {
        let prev = value_of(pv, ak);
        if has_key(prev.metrics_data, ck) {
            let slot = value_of(prev.metrics_data, ck);
            let full = spec_full_name(prev.prefix, short_name);
            if has_key(slot.data, full) {
                spec_rate(value_of(slot.data, full), prev.ts, v, ts)
            } else {
                0u64
            }
        } else {
            0u64
        }
    } else {
        0u64
    }
}


pub fn rate_lookup(
    pm: &PrevMap,
    agg: &String,
    ckey: &String,
    short: &String,
    value: u64,
    now: u64,
) -> (r: u64)
    ensures
        r == spec_rate_for(pm.view(), agg@, ckey@, short@, value, now),
{
    match pm.position_of(agg) {
        Some(i) => {
            proof {
                lemma_find_key_props(pm.view(), agg@);
            }
            let prev_agg = &pm.entries[i].1;
            let full = prev_agg.prefix.clone().concat("_").concat(short.as_str());
            proof {
                reveal_strlit("_");
                assert(full@ =~= spec_full_name(prev_agg.prefix@, short@));
            }
            match prev_agg.get_metrics_data(ckey) {
                Some(slot) => {
                    match slot.data.get(&full) {
                        Some(prev_v) => compute_rate(prev_v, prev_agg.ts, value, now),
                        None => 0,
                    }
                },
                None => 0,
            }
        },
        None => 0,
    }
}


/// One key/value entry of a telemetry message.
pub struct KeyValue {
    pub key: String,
    pub value: Option<crate::telemetry::Value>,
}

/// One decoded telemetry message.
pub struct OpenConfigData {
    pub path: String,
    pub system_id: String,
    pub kv: Vec<KeyValue>,
}

/// The text between the first and second `:` of a sensor path, if a
/// first `:` exists.
pub open spec fn spec_second_segment(s: Seq<char>) -> Option<Seq<char>> {
    let i = crate::telemetry::first_idx(s, ':');
    if i == -1 {
        None
    } else {
        let rest = s.skip(i + 1);
        let j = crate::telemetry::first_idx(rest, ':');
        if j == -1 {
            Some(rest)
        } else {
            Some(rest.take(j))
        }
    }
}

#[verifier::loop_isolation(false)]
pub fn second_segment(s: &str) -> (r: Option<String>)
    ensures
        match r {
            Some(seg) => spec_second_segment(s@) == Some(seg@),
            None => spec_second_segment(s@) is None,
        },
{
    let n = s.unicode_len();
    let mut i: usize = 0;
    let mut found: bool = false;
    while i < n
        invariant
            i <= n,
            !found,
            forall|j: int| 0 <= j < i ==> s@[j] != ':',
        decreases n - i,
    {
        if s.get_char(i) == ':' {
            found = true;
            break ;
        }
        i += 1;
    }
    if !found {
        proof {
            crate::telemetry::lemma_first_idx_props(s@, ':');
            if crate::telemetry::first_idx(s@, ':') >= 0 {
                assert(s@[crate::telemetry::first_idx(s@, ':')] == ':');
            }
        }
        return None;
    }
    proof {
        crate::telemetry::lemma_first_idx_at(s@, ':', i as int);
    }
    let mut j: usize = i + 1;
    let mut found2: bool = false;
    while j < n
        invariant
            i < j <= n,
            !found2,
            forall|m: int| i < m < j ==> s@[m] != ':',
        decreases n - j,
    {
        if s.get_char(j) == ':' {
            found2 = true;
            break ;
        }
        j += 1;
    }
    let ghost rest = s@.skip(i + 1);
    proof {
        if found2 {
            assert(rest[j - i - 1] == s@[j as int]);
            assert forall|m: int| 0 <= m < j - i - 1 implies rest[m] != ':' by {
                assert(rest[m] == s@[m + i + 1]);
            }
            crate::telemetry::lemma_first_idx_at(rest, ':', j - i - 1);
            assert(s@.subrange(i + 1, j as int) =~= rest.take(j - i - 1));
        } else {
            crate::telemetry::lemma_first_idx_props(rest, ':');
            if crate::telemetry::first_idx(rest, ':') >= 0 {
                assert(s@[crate::telemetry::first_idx(rest, ':') + i + 1] == rest[
                    crate::telemetry::first_idx(rest, ':')
                ]);
            }
            assert(s@.subrange(i + 1, n as int) =~= rest);
        }
    }
    Some(String::from_str(s.substring_char(i + 1, j)))
}

/// Abstract form of one emitted message: its labels and metrics.
pub struct MsgView {
    pub labels: Seq<(Seq<char>, Seq<char>)>,
    pub metrics: Seq<(Seq<char>, u64)>,
}

/// The key under which the walk looks up the previous snapshot: the
/// most recent aggregate's key, or `default` before any prefix.
pub open spec fn spec_list_key(lv: Seq<AggView>) -> Seq<char> {
    if lv.len() == 0 {
        "default"@
    } else {
        agg_key(lv.last().system_id, lv.last().prefix_labels)
    }
}

/// Recording a counter on the most recent aggregate of the walk.
pub open spec fn spec_add_counter(
    lv: Seq<AggView>,
    ck: Seq<char>,
    name: Seq<char>,
    labels: Seq<(Seq<char>, Seq<char>)>,
    value: u64,
    rate: u64,
) -> Seq<AggView> {
    if lv.len() == 0 {
        lv
    } else {
        lv.update(
            lv.len() - 1,
            AggView {
                prefix: lv.last().prefix,
                metrics_data: spec_add_metrics_data(
                    lv.last().metrics_data,
                    ck,
                    lv.last().prefix + seq!['_'] + name,
                    value,
                    labels,
                    rate,
                ),
                prefix_labels: lv.last().prefix_labels,
                ts: lv.last().ts,
                system_id: lv.last().system_id,
                namespace: lv.last().namespace,
            },
        )
    }
}

/// One key/value entry applied to the walk state `(aggregates, ts)`:
/// `__timestamp__` sets the clock, `index` is skipped, `__prefix__`
/// opens an aggregate, and any other keyed payload records a counter
/// with its rate against the previous emission.
pub open spec fn spec_kv_step(
    lv: Seq<AggView>,
    ts: u64,
    pv: Seq<(Seq<char>, AggView)>,
    kv: KeyValue,
    sid: Seq<char>,
    ns: Seq<char>,
) -> (Seq<AggView>, u64) {
    if kv.key@ == "__timestamp__"@ {
        match kv.value {
            Some(v) => (lv, crate::telemetry::spec_convert_value(&v)),
            None => (lv, ts),
        }
    } else if kv.key@ == "index"@ {
        (lv, ts)
    } else if kv.key@ == "__prefix__"@ {
        match kv.value {
            Some(crate::telemetry::Value::Str(sv)) => (
                lv.push(
                    AggView {
                        prefix: crate::telemetry::spec_sanitized_prefix(sv@),
                        metrics_data: Seq::empty(),
                        prefix_labels: crate::telemetry::spec_prefix_labels(
                            crate::brackets::bracket_contents_s(sv@),
                        ),
                        ts: ts,
                        system_id: sid,
                        namespace: ns,
                    },
                ),
                ts,
            ),
            _ => (lv, ts),
        }
    } else {
        match kv.value {
            Some(v) => {
                let value = crate::telemetry::spec_convert_value(&v);
                let ck0 = crate::telemetry::spec_counter_key(
                    crate::brackets::bracket_contents_s(kv.key@),
                );
                let ck = if ck0.len() == 0 {
                    spec_list_key(lv)
                } else {
                    ck0
                };
                if ck.len() > 0 {
                    let nm = crate::telemetry::spec_counter_name(kv.key@);
                    let rate = if lv.len() > 0 {
                        spec_rate_for(pv, spec_list_key(lv), ck, nm, value, lv.last().ts)
                    } else {
                        0u64
                    };
                    (
                        spec_add_counter(
                            lv,
                            ck,
                            nm,
                            crate::telemetry::spec_counter_labels(
                                crate::brackets::bracket_contents_s(kv.key@),
                            ),
                            value,
                            rate,
                        ),
                        ts,
                    )
                } else {
                    (lv, ts)
                }
            },
            None => (lv, ts),
        }
    }
}

/// The whole key/value walk of one matching message, over a fixed
/// previous-emission store.
pub open spec fn spec_kv_walk(
    kvs: Seq<KeyValue>,
    pv: Seq<(Seq<char>, AggView)>,
    sid: Seq<char>,
    ns: Seq<char>,
) -> (Seq<AggView>, u64)
    decreases kvs.len(),
{
    if kvs.len() == 0 {
        (Seq::empty(), 0u64)
    } else {
        let p = spec_kv_walk(kvs.drop_last(), pv, sid, ns);
        spec_kv_step(p.0, p.1, pv, kvs.last(), sid, ns)
    }
}

/// The labels of the message emitted for one slot of an aggregate: the
/// prefix labels, extended by the slot's counter labels, with the
/// namespace and system id inserted last.
pub open spec fn spec_slot_labels(a: AggView, slot: DataView) -> Seq<(Seq<char>, Seq<char>)> {
    insert_s(
        insert_s(extend_s(a.prefix_labels, slot.labels), "namespace"@, a.namespace),
        "system_id"@,
        a.system_id,
    )
}

/// The messages emitted for one aggregate: one per counter key, in
/// slot order, carrying that slot's data.
pub open spec fn spec_agg_msgs(a: AggView) -> Seq<MsgView> {
    Seq::new(
        a.metrics_data.len(),
        |i: int|
            MsgView {
                labels: spec_slot_labels(a, a.metrics_data[i].1),
                metrics: a.metrics_data[i].1.data,
            },
    )
}

/// Emission of the walked aggregates, in order: each contributes its
/// slot messages and is stored under its key for the next emission.
pub open spec fn spec_emit_all(lv: Seq<AggView>, pv: Seq<(Seq<char>, AggView)>) -> (
    Seq<MsgView>,
    Seq<(Seq<char>, AggView)>,
)
    decreases lv.len(),
{
    if lv.len() == 0 {
        (Seq::empty(), pv)
    } else {
        let pv1 = insert_s(pv, agg_key(lv[0].system_id, lv[0].prefix_labels), lv[0]);
        let rest = spec_emit_all(lv.skip(1), pv1);
        (spec_agg_msgs(lv[0]) + rest.0, rest.1)
    }
}

/// What one matching pass over the message does to the outputs and the
/// previous-emission store.
pub open spec fn spec_subscription(
    kvs: Seq<KeyValue>,
    pv: Seq<(Seq<char>, AggView)>,
    sid: Seq<char>,
    ns: Seq<char>,
) -> (Seq<MsgView>, Seq<(Seq<char>, AggView)>) {
    spec_emit_all(spec_kv_walk(kvs, pv, sid, ns).0, pv)
}

/// One pass per configured path the message's sensor path names, in
/// configuration order, each over the store the one before left.
pub open spec fn spec_run(
    paths: Seq<crate::counters::Path>,
    kvs: Seq<KeyValue>,
    seg: Seq<char>,
    pv: Seq<(Seq<char>, AggView)>,
    sid: Seq<char>,
    ns: Seq<char>,
) -> (Seq<MsgView>, Seq<(Seq<char>, AggView)>)
    decreases paths.len(),
{
    if paths.len() == 0 {
        (Seq::empty(), pv)
    } else {
        let p = spec_run(paths.drop_last(), kvs, seg, pv, sid, ns);
        if paths.last().path@ == seg {
            let s = spec_subscription(kvs, p.1, sid, ns);
            (p.0 + s.0, s.1)
        } else {
            p
        }
    }
}

/// What processing one message emits and leaves in the store: nothing
/// for a message without a matching sensor path.
pub open spec fn spec_process(
    paths: Seq<crate::counters::Path>,
    msg: OpenConfigData,
    pv: Seq<(Seq<char>, AggView)>,
    ns: Seq<char>,
) -> (Seq<MsgView>, Seq<(Seq<char>, AggView)>) {
    match spec_second_segment(msg.path@) {
        Some(seg) => spec_run(paths, msg.kv@, seg, pv, msg.system_id@, ns),
        None => (Seq::empty(), pv),
    }
}

/// The abstract views of a run of aggregates.
pub open spec fn agg_views(v: Seq<OpenConfigMetrics>) -> Seq<AggView> {
    Seq::new(v.len(), |i: int| v[i].view())
}

/// What every message emitted for an aggregate shows: well-formed maps,
/// no namespace field of its own, and `namespace` / `system_id` labels
/// carrying the aggregate's identity.
pub open spec fn emitted_ok(m: crate::metrics::CollectorMetrics, a: AggView) -> bool {
    &&& m.wf()
    &&& m.namespace is None
    &&& has_key(m.labels.view(), "namespace"@)
    &&& value_of(m.labels.view(), "namespace"@) == a.namespace
    &&& has_key(m.labels.view(), "system_id"@)
    &&& value_of(m.labels.view(), "system_id"@) == a.system_id
}

/// Emit one `CollectorMetrics` per counter key of the aggregate, then
/// store the aggregate under its key for the next emission's rates.
#[verifier::loop_isolation(false)]
fn emit_aggregate(
    agg: OpenConfigMetrics,
    out: &mut Vec<crate::metrics::CollectorMetrics>,
    prev: &mut PrevMap,
)
    requires
        agg.wf(),
        old(prev).wf(),
    ensures
        final(prev).wf(),
        final(prev).view() == insert_s(
            old(prev).view(),
            agg_key(agg.view().system_id, agg.view().prefix_labels),
            agg.view(),
        ),
        final(out)@.len() == old(out)@.len() + agg.view().metrics_data.len(),
        forall|i: int| 0 <= i < old(out)@.len() ==> final(out)@[i] == old(out)@[i],
        forall|i: int|
            old(out)@.len() <= i < final(out)@.len() ==> emitted_ok(
                #[trigger] final(out)@[i],
                agg.view(),
            ) && final(out)@[i].metrics.view() == agg.view().metrics_data[
                i - old(out)@.len()
            ].1.data && final(out)@[i].labels.view() == spec_slot_labels(
                agg.view(),
                agg.view().metrics_data[i - old(out)@.len()].1,
            ),
{
    let key = agg.key();
    let ghost base = out@.len();
    let n = agg.metrics_data.len();
    let mut j: usize = 0;
    while j < n
        invariant
            j <= n,
            n == agg.view().metrics_data.len(),
            out@.len() == base + j,
            forall|i: int| 0 <= i < base ==> out@[i] == old(out)@[i],
            forall|i: int|
                base <= i < out@.len() ==> emitted_ok(#[trigger] out@[i], agg.view())
                    && out@[i].metrics.view() == agg.view().metrics_data[i - base].1.data && out@[
                    i
                ].labels.view() == spec_slot_labels(agg.view(), agg.view().metrics_data[i - base].1),
        decreases n - j,
    {
        let mut lm = agg.prefix_labels.duplicate();
        lm.extend(&agg.metrics_data[j].1.metrics_labels);
        let ghost lm0 = lm.view();
        proof {
            crate::kvmap::lemma_extend_props(
                agg.prefix_labels.view(),
                agg.metrics_data@[j as int].1.metrics_labels.view(),
            );
            crate::kvmap::lemma_insert_props(lm0, "namespace"@, agg.namespace@);
        }
        lm.insert(String::from_str("namespace"), agg.namespace.clone());
        proof {
            crate::kvmap::lemma_insert_props(lm.view(), "system_id"@, agg.system_id@);
            reveal_strlit("namespace");
            reveal_strlit("system_id");
            assert("namespace"@[0] == 'n');
            assert("system_id"@[0] == 's');
            assert("namespace"@ != "system_id"@);
        }
        lm.insert(String::from_str("system_id"), agg.system_id.clone());
        let mm = agg.metrics_data[j].1.data.duplicate();
        let cm = crate::metrics::CollectorMetrics { labels: lm, metrics: mm, namespace: None };
        proof {
            assert(agg.view().metrics_data[j as int].1.data == agg.metrics_data@[
                j as int
            ].1.view().data);
            assert(agg.view().metrics_data[j as int].1 == agg.metrics_data@[j as int].1.view());
            assert(emitted_ok(cm, agg.view()));
            assert(cm.labels.view() == spec_slot_labels(
                agg.view(),
                agg.view().metrics_data[j as int].1,
            ));
        }
        out.push(cm);
        j += 1;
    }
    prev.insert(key, agg);
}

/// Process one telemetry message: for every configured subscription
/// path the message's sensor path names, collect aggregates from its
/// key/value entries, compute rates against the previous emission, emit
/// one message per counter key, and remember the aggregates.  The
/// outputs and the new store are exactly `spec_process` of the inputs;
/// every message emitted carries the namespace and the device's system
/// id as labels.
#[verifier::loop_isolation(false)]
pub fn process_message(
    msg: &OpenConfigData,
    paths: &Vec<crate::counters::Path>,
    namespace: &String,
    prev: &mut PrevMap,
) -> (out: Vec<crate::metrics::CollectorMetrics>)
    requires
        old(prev).wf(),
    ensures
        final(prev).wf(),
        out@.len() == spec_process(paths@, *msg, old(prev).view(), namespace@).0.len(),
        forall|i: int|
            0 <= i < out@.len() ==> out@[i].labels.view() == spec_process(
                paths@,
                *msg,
                old(prev).view(),
                namespace@,
            ).0[i].labels && out@[i].metrics.view() == spec_process(
                paths@,
                *msg,
                old(prev).view(),
                namespace@,
            ).0[i].metrics,
        final(prev).view() == spec_process(paths@, *msg, old(prev).view(), namespace@).1,
        forall|i: int|
            0 <= i < out@.len() ==> (#[trigger] out@[i]).wf() && out@[i].namespace is None
                && has_key(out@[i].labels.view(), "namespace"@) && value_of(
                out@[i].labels.view(),
                "namespace"@,
            ) == namespace@ && has_key(out@[i].labels.view(), "system_id"@) && value_of(
                out@[i].labels.view(),
                "system_id"@,
            ) == msg.system_id@,
{
    let ghost pv0 = prev.view();
    let ghost sid = msg.system_id@;
    let ghost ns = namespace@;
    let mut out: Vec<crate::metrics::CollectorMetrics> = Vec::new();
    let seg = match second_segment(msg.path.as_str()) {
        Some(seg) => seg,
        None => {
            return out;
        },
    };
    let np = paths.len();
    let mut p: usize = 0;
    proof {
        assert(paths@.take(0) =~= Seq::<crate::counters::Path>::empty());
    }
    while p < np
        invariant
            p <= np,
            np == paths@.len(),
            prev.wf(),
            out@.len() == spec_run(paths@.take(p as int), msg.kv@, seg@, pv0, sid, ns).0.len(),
            forall|i: int|
                0 <= i < out@.len() ==> out@[i].labels.view() == spec_run(
                    paths@.take(p as int),
                    msg.kv@,
                    seg@,
                    pv0,
                    sid,
                    ns,
                ).0[i].labels && out@[i].metrics.view() == spec_run(
                    paths@.take(p as int),
                    msg.kv@,
                    seg@,
                    pv0,
                    sid,
                    ns,
                ).0[i].metrics,
            prev.view() == spec_run(paths@.take(p as int), msg.kv@, seg@, pv0, sid, ns).1,
            forall|i: int|
                0 <= i < out@.len() ==> (#[trigger] out@[i]).wf() && out@[i].namespace is None
                    && has_key(out@[i].labels.view(), "namespace"@) && value_of(
                    out@[i].labels.view(),
                    "namespace"@,
                ) == namespace@ && has_key(out@[i].labels.view(), "system_id"@) && value_of(
                    out@[i].labels.view(),
                    "system_id"@,
                ) == msg.system_id@,
        decreases np - p,
    {
        proof {
            assert(paths@.take(p as int + 1).drop_last() =~= paths@.take(p as int));
            assert(paths@.take(p as int + 1).last() == paths@[p as int]);
        }
        let ghost run0 = spec_run(paths@.take(p as int), msg.kv@, seg@, pv0, sid, ns);
        let ghost out_pre = out@;
        if crate::text::str_eq(paths[p].path.as_str(), seg.as_str()) {
            process_subscription(msg, namespace, prev, &mut out);
            proof {
                let sub = spec_subscription(msg.kv@, run0.1, sid, ns);
                let run1 = spec_run(paths@.take(p as int + 1), msg.kv@, seg@, pv0, sid, ns);
                assert(run1.0 == run0.0 + sub.0);
                assert(run1.1 == sub.1);
                assert forall|i: int|
                    0 <= i < out@.len() implies #[trigger] out@[i].labels.view() == run1.0[
                    i
                ].labels && out@[i].metrics.view() == run1.0[i].metrics by {
                    if i < out_pre.len() {
                        assert(out@[i] == out_pre[i]);
                        assert(out_pre[i].labels.view() == run0.0[i].labels);
                        assert((run0.0 + sub.0)[i] == run0.0[i]);
                    } else {
                        let j = i - out_pre.len();
                        assert(out@[i].labels.view() == sub.0[j].labels);
                        assert(out@[i].metrics.view() == sub.0[j].metrics);
                        assert((run0.0 + sub.0)[i] == sub.0[j]);
                    }
                }
            }
        }
        p += 1;
    }
    proof {
        assert(paths@.take(np as int) =~= paths@);
    }
    out
}

/// Walk the key/value entries of one matching message and emit the
/// results: exactly what `spec_subscription` says over the walked
/// aggregates, appended to `out`, with the store updated in step.
#[verifier::loop_isolation(false)]
fn process_subscription(
    msg: &OpenConfigData,
    namespace: &String,
    prev: &mut PrevMap,
    out: &mut Vec<crate::metrics::CollectorMetrics>,
)
    requires
        old(prev).wf(),
    ensures
        final(prev).wf(),
        final(out)@.len() == old(out)@.len() + spec_subscription(
            msg.kv@,
            old(prev).view(),
            msg.system_id@,
            namespace@,
        ).0.len(),
        forall|i: int| 0 <= i < old(out)@.len() ==> final(out)@[i] == old(out)@[i],
        forall|i: int|
            0 <= i < spec_subscription(msg.kv@, old(prev).view(), msg.system_id@, namespace@).0.len()
                ==> final(out)@[old(out)@.len() + i].labels.view() == spec_subscription(
                msg.kv@,
                old(prev).view(),
                msg.system_id@,
                namespace@,
            ).0[i].labels && final(out)@[old(out)@.len() + i].metrics.view() == spec_subscription(
                msg.kv@,
                old(prev).view(),
                msg.system_id@,
                namespace@,
            ).0[i].metrics,
        final(prev).view() == spec_subscription(
            msg.kv@,
            old(prev).view(),
            msg.system_id@,
            namespace@,
        ).1,
        forall|i: int|
            old(out)@.len() <= i < final(out)@.len() ==> (#[trigger] final(out)@[i]).wf()
                && (final(out)@[i].namespace is None)
                && has_key(final(out)@[i].labels.view(), "namespace"@)
                && value_of(final(out)@[i].labels.view(), "namespace"@) == namespace@ && has_key(
                final(out)@[i].labels.view(),
                "system_id"@,
            ) && value_of(final(out)@[i].labels.view(), "system_id"@) == msg.system_id@,
{
    let ghost pv0 = prev.view();
    let ghost sid = msg.system_id@;
    let ghost ns = namespace@;
    let mut list = OpenConfigMetricsList::new();
    let mut ts: u64 = 0;
    let nk = msg.kv.len();
    let mut i: usize = 0;
    proof {
        assert(msg.kv@.take(0) =~= Seq::<KeyValue>::empty());
    }
    while i < nk
        invariant
            i <= nk,
            list.wf(),
            prev.wf(),
            *prev == *old(prev),
            list.view() == spec_kv_walk(msg.kv@.take(i as int), pv0, sid, ns).0,
            ts == spec_kv_walk(msg.kv@.take(i as int), pv0, sid, ns).1,
            forall|k: int|
                0 <= k < list.view().len() ==> (#[trigger] list.view()[k]).namespace == namespace@
                    && list.view()[k].system_id == msg.system_id@,
        decreases nk - i,
    {
        proof {
            assert(msg.kv@.take(i as int + 1).drop_last() =~= msg.kv@.take(i as int));
            assert(msg.kv@.take(i as int + 1).last() == msg.kv@[i as int]);
        }
        let ghost lv0 = list.view();
        let ghost ts0 = ts;
        let ghost st = spec_kv_step(lv0, ts0, pv0, msg.kv@[i as int], sid, ns);
        let kv = &msg.kv[i];
        if crate::text::str_eq(kv.key.as_str(), "__timestamp__") {
            match &kv.value {
                Some(v) => {
                    ts = crate::telemetry::convert_value(v);
                },
                None => {},
            }
            proof {
                assert(list.view() == st.0 && ts == st.1);
            }
        } else if crate::text::str_eq(kv.key.as_str(), "index") {
            proof {
                assert(list.view() == st.0 && ts == st.1);
            }
        } else if crate::text::str_eq(kv.key.as_str(), "__prefix__") {
            match &kv.value {
                Some(v) => {
                    match v {
                        crate::telemetry::Value::Str(sv) => {
                            let (prefix, plabels) = crate::telemetry::parse_prefix(sv.as_str());
                            list.add(
                                prefix,
                                plabels,
                                ts,
                                msg.system_id.clone(),
                                namespace.clone(),
                            );
                            proof {
                                assert(list.view() =~= lv0.push(
                                    AggView {
                                        prefix: crate::telemetry::spec_sanitized_prefix(sv@),
                                        metrics_data: Seq::empty(),
                                        prefix_labels: crate::telemetry::spec_prefix_labels(
                                            crate::brackets::bracket_contents_s(sv@),
                                        ),
                                        ts: ts0,
                                        system_id: sid,
                                        namespace: ns,
                                    },
                                ));
                            }
                        },
                        _ => {},
                    }
                },
                None => {},
            }
            proof {
                assert(list.view() == st.0 && ts == st.1);
            }
        } else {
            match &kv.value {
                Some(v) => {
                    let cvalue = crate::telemetry::convert_value(v);
                    let (name, clabels, ck0) = crate::telemetry::counter_parts(kv.key.as_str());
                    let ck = if ck0.unicode_len() == 0 {
                        list.get_key()
                    } else {
                        ck0
                    };
                    proof {
                        assert(ck@ == if crate::telemetry::spec_counter_key(
                            crate::brackets::bracket_contents_s(kv.key@),
                        ).len() == 0 {
                            spec_list_key(lv0)
                        } else {
                            crate::telemetry::spec_counter_key(
                                crate::brackets::bracket_contents_s(kv.key@),
                            )
                        });
                    }
                    if ck.unicode_len() > 0 {
                        let rate = if list.0.len() > 0 {
                            let akey = list.get_key();
                            let now = list.ts();
                            rate_lookup(prev, &akey, &ck, &name, cvalue, now)
                        } else {
                            0
                        };
                        proof {
                            assert(rate == if lv0.len() > 0 {
                                spec_rate_for(
                                    pv0,
                                    spec_list_key(lv0),
                                    ck@,
                                    crate::telemetry::spec_counter_name(kv.key@),
                                    cvalue,
                                    lv0.last().ts,
                                )
                            } else {
                                0u64
                            });
                        }
                        list.add_counter(ck, name, &clabels, cvalue, rate);
                        proof {
                            assert(list.view() =~= spec_add_counter(
                                lv0,
                                ck@,
                                crate::telemetry::spec_counter_name(kv.key@),
                                crate::telemetry::spec_counter_labels(
                                    crate::brackets::bracket_contents_s(kv.key@),
                                ),
                                cvalue,
                                rate,
                            ));
                        }
                    }
                },
                None => {},
            }
            proof {
                assert(list.view() == st.0 && ts == st.1);
            }
        }
        i += 1;
    }
    proof {
        assert(msg.kv@.take(nk as int) =~= msg.kv@);
    }
    let ghost walk = spec_kv_walk(msg.kv@, pv0, sid, ns).0;
    let ghost s = spec_emit_all(walk, pv0);
    let ghost l0 = list.0@;
    proof {
        assert forall|k: int|
            0 <= k < l0.len() implies (#[trigger] l0[k]).wf() && l0[k].view().namespace
            == namespace@ && l0[k].view().system_id == msg.system_id@ by {
            assert(list.view()[k] == list.0@[k].view());
            assert(list.0@[k].wf());
        }
        assert(agg_views(l0) =~= list.view());
    }
    let mut rest = list.0;
    let ghost base = out@.len();
    proof {
        assert(rest@ == l0);
        assert forall|k: int|
            0 <= k < rest@.len() implies (#[trigger] rest@[k]).wf() && rest@[k].view().namespace
            == namespace@ && rest@[k].view().system_id == msg.system_id@ by {
            assert(rest@[k] == l0[k]);
        }
        assert(agg_views(rest@) =~= walk);
        assert(s.0.skip(0) =~= s.0);
    }
    while rest.len() > 0
        invariant
            prev.wf(),
            out@.len() >= base,
            out@.len() - base <= s.0.len(),
            spec_emit_all(agg_views(rest@), prev.view()).0 == s.0.skip(out@.len() - base),
            spec_emit_all(agg_views(rest@), prev.view()).1 == s.1,
            forall|k: int| 0 <= k < rest@.len() ==> (#[trigger] rest@[k]).wf() && rest@[
                k
            ].view().namespace == namespace@ && rest@[k].view().system_id == msg.system_id@,
            forall|i: int| 0 <= i < base ==> out@[i] == old(out)@[i],
            forall|i: int|
                base <= i < out@.len() ==> out@[i].labels.view() == s.0[i - base].labels && out@[
                    i
                ].metrics.view() == s.0[i - base].metrics,
            forall|i: int|
                base <= i < out@.len() ==> (#[trigger] out@[i]).wf() && out@[
                    i
                ].namespace is None && has_key(out@[i].labels.view(), "namespace"@) && value_of(
                    out@[i].labels.view(),
                    "namespace"@,
                ) == namespace@ && has_key(out@[i].labels.view(), "system_id"@) && value_of(
                    out@[i].labels.view(),
                    "system_id"@,
                ) == msg.system_id@,
        decreases rest@.len(),
    {
        let ghost rv_old = agg_views(rest@);
        let ghost prevv = prev.view();
        let ghost done = out@.len() - base;
        let ghost out_pre = out@;
        let agg = rest.remove(0);
        let ghost cnt = agg.view().metrics_data.len();
        proof {
            assert(agg.view() == rv_old[0]);
            assert(agg_views(rest@) =~= rv_old.skip(1));
        }
        emit_aggregate(agg, out, prev);
        proof {
            let pv1 = insert_s(
                prevv,
                agg_key(rv_old[0].system_id, rv_old[0].prefix_labels),
                rv_old[0],
            );
            let head = spec_agg_msgs(rv_old[0]);
            let tail = spec_emit_all(rv_old.skip(1), pv1);
            let old_len = base + done;
            assert(spec_emit_all(rv_old, prevv).0 == head + tail.0);
            assert(spec_emit_all(rv_old, prevv).1 == tail.1);
            assert(prev.view() == pv1);
            assert(head.len() == cnt);
            assert forall|i: int|
                base <= i < out@.len() implies #[trigger] out@[i].labels.view() == s.0[
                i - base
            ].labels && out@[i].metrics.view() == s.0[i - base].metrics by {
                if i < old_len {
                    assert(out@[i] == out_pre[i]);
                    assert(out_pre[i].labels.view() == s.0[i - base].labels);
                } else {
                    let j = i - old_len;
                    assert(out@[i].labels.view() == spec_slot_labels(
                        agg.view(),
                        agg.view().metrics_data[j].1,
                    ));
                    assert(out@[i].metrics.view() == agg.view().metrics_data[j].1.data);
                    assert(head[j].labels == spec_slot_labels(
                        rv_old[0],
                        rv_old[0].metrics_data[j].1,
                    ));
                    assert((head + tail.0)[j] == head[j]);
                    assert(s.0.skip(done)[j] == s.0[done + j]);
                }
            }
            assert(tail.0 =~= s.0.skip(done + cnt)) by {
                assert forall|j: int| 0 <= j < tail.0.len() implies tail.0[j] == s.0.skip(
                    done + cnt,
                )[j] by {
                    assert((head + tail.0)[cnt + j] == tail.0[j]);
                    assert(s.0.skip(done)[cnt + j] == s.0[done + cnt + j]);
                    assert(s.0.skip(done + cnt)[j] == s.0[done + cnt + j]);
                }
            }
        }
    }
    proof {
        assert(agg_views(rest@) =~= Seq::<AggView>::empty());
        assert(spec_emit_all(Seq::<AggView>::empty(), prev.view()).0 =~= Seq::<MsgView>::empty());
        assert(out@.len() - base == s.0.len());
    }
}

/// Two consecutive emissions with the same aggregate key and a
/// monotone counter: when the previous emission stored value `v1` at
/// time `ts1` under this aggregate key, counter key and full counter
/// name, the rate emitted for the follow-up `(v2, ts2)` is exactly
/// `(v2 - v1) * 1000 / (ts2 - ts1)`, truncating.
pub proof fn lemma_consecutive_emission_rate(
    pv: Seq<(Seq<char>, AggView)>,
    ak: Seq<char>,
    ck: Seq<char>,
    nm: Seq<char>,
    v2: u64,
    ts2: u64,
)
    requires
        has_key(pv, ak),
        has_key(value_of(pv, ak).metrics_data, ck),
        has_key(
            value_of(value_of(pv, ak).metrics_data, ck).data,
            spec_full_name(value_of(pv, ak).prefix, nm),
        ),
        value_of(
            value_of(value_of(pv, ak).metrics_data, ck).data,
            spec_full_name(value_of(pv, ak).prefix, nm),
        ) <= v2,
        value_of(pv, ak).ts < ts2,
        (v2 - value_of(
            value_of(value_of(pv, ak).metrics_data, ck).data,
            spec_full_name(value_of(pv, ak).prefix, nm),
        )) * 1000 / (ts2 - value_of(pv, ak).ts) <= u64::MAX,
    ensures
        spec_rate_for(pv, ak, ck, nm, v2, ts2) == (v2 - value_of(
            value_of(value_of(pv, ak).metrics_data, ck).data,
            spec_full_name(value_of(pv, ak).prefix, nm),
        )) * 1000 / (ts2 - value_of(pv, ak).ts),
{
    let prev = value_of(pv, ak);
    let slot = value_of(prev.metrics_data, ck);
    let v1 = value_of(slot.data, spec_full_name(prev.prefix, nm));
    lemma_monotone_rate(v1, prev.ts, v2, ts2);
}

} // verus!
