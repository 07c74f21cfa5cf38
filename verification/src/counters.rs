//! The file scraper: counter specs, per-tick scrape logic with delta
//! rates, and the registration metadata built from a directory listing.

use vstd::prelude::*;
use vstd::string::StringExecFns;
use crate::kvmap::{extend_s, has_key, insert_s, lemma_extend_props, lemma_insert_props, value_of,
    LabelMap, MetricMap};
use crate::metrics::{clone_opt_string, opt_view, CollectorMetrics};
use crate::text::{parse_counter, spec_parse_counter};

verus! {

/// One counter spec of the agent configuration: directories to scan,
/// labels of its own, and the names whose delta rate is also emitted.
pub struct Counter {
    pub paths: Vec<String>,
    pub labels: Option<LabelMap>,
    pub rate_keys: Option<Vec<String>>,
}

impl Counter {
    pub open spec fn wf(&self) -> bool {
        match self.labels {
            Some(l) => l.wf(),
            None => true,
        }
    }

    /// The counter's own labels, an empty set when none are configured.
    pub open spec fn own_labels(&self) -> Seq<(Seq<char>, Seq<char>)> {
        match self.labels {
            Some(l) => l.view(),
            None => Seq::empty(),
        }
    }

    /// The configured rate keys, an empty list when none are configured.
    pub open spec fn rate_keys_view(&self) -> Seq<Seq<char>> {
        match self.rate_keys {
            Some(ks) => ks.deep_view(),
            None => Seq::empty(),
        }
    }
}

/// The agent configuration.
pub struct Config {
    pub address: String,
    pub namespace: Option<String>,
    pub labels: Option<LabelMap>,
    pub counters: Vec<Counter>,
    pub interval: u64,
}

/// TLS material locations for the device connection.
pub struct Tls {
    pub cert_file: String,
    pub key_file: String,
    pub ca_file: String,
    pub server_name: String,
}

/// One telemetry subscription path with its sample frequency.
pub struct Path {
    pub path: String,
    pub freq: u32,
}

/// The delta rate of the file scraper: the increase since the previous
/// observation; a first observation counts from zero; a counter reset
/// reports the new value itself.
pub open spec fn rate_of(prev: Seq<(Seq<char>, u64)>, k: Seq<char>, v: u64) -> u64 {
    let p: u64 = if has_key(prev, k) {
        value_of(prev, k)
    } else {
        0
    };
    if v >= p {
        (v - p) as u64
    } else {
        v
    }
}

/// Fold one scraped file's rate keys into the metric map and rate state.
pub open spec fn apply_rate_keys(
    ms: Seq<(Seq<char>, u64)>,
    rm: Seq<(Seq<char>, u64)>,
    rks: Seq<Seq<char>>,
    name: Seq<char>,
    v: u64,
) -> (Seq<(Seq<char>, u64)>, Seq<(Seq<char>, u64)>)
    decreases rks.len(),
{
    if rks.len() == 0 {
        (ms, rm)
    } else {
        let p = apply_rate_keys(ms, rm, rks.drop_last(), name, v);
        if rks.last() == name {
            (
                insert_s(p.0, name + "_rate"@, rate_of(p.1, name, v)),
                insert_s(p.1, name, v),
            )
        } else {
            p
        }
    }
}

/// Fold a directory listing into the metric map and rate state: each
/// file name becomes a metric whose value is its parsed content, and each
/// rate key adds its delta.
pub open spec fn scrape_files(
    ms: Seq<(Seq<char>, u64)>,
    rm: Seq<(Seq<char>, u64)>,
    files: Seq<(Seq<char>, Seq<char>)>,
    rks: Seq<Seq<char>>,
) -> (Seq<(Seq<char>, u64)>, Seq<(Seq<char>, u64)>)
    decreases files.len(),
{
    if files.len() == 0 {
        (ms, rm)
    } else {
        let p = scrape_files(ms, rm, files.drop_last(), rks);
        let name = files.last().0;
        let v = spec_parse_counter(files.last().1);
        apply_rate_keys(insert_s(p.0, name, v), p.1, rks, name, v)
    }
}

/// One scrape pass over one counter spec.  `files` holds the name and
/// raw content of every regular file found under the spec's directories,
/// in listing order.  The message's labels are the spec's own labels
/// extended by the global labels, so a global label always wins; its
/// metrics are the parsed values plus a `{name}_rate` delta for each
/// configured rate key, computed against (and updating) `rate_map`.
#[verifier::loop_isolation(false)]
pub fn scrape_tick(
    counter: &Counter,
    global_labels: &LabelMap,
    namespace: &Option<String>,
    rate_map: &mut MetricMap,
    files: &Vec<(String, String)>,
) -> (r: CollectorMetrics)
    requires
        counter.wf(),
        global_labels.wf(),
        old(rate_map).wf(),
    ensures
        r.metrics.view() == scrape_files(
            Seq::<(Seq<char>, u64)>::empty(),
            old(rate_map).view(),
            files.deep_view(),
            counter.rate_keys_view(),
        ).0,
        final(rate_map).view() == scrape_files(
            Seq::<(Seq<char>, u64)>::empty(),
            old(rate_map).view(),
            files.deep_view(),
            counter.rate_keys_view(),
        ).1,
        r.labels.view() == extend_s(counter.own_labels(), global_labels.view()),
        forall|k: Seq<char>|
            has_key(global_labels.view(), k) ==> has_key(r.labels.view(), k) && value_of(
                r.labels.view(),
                k,
            ) == value_of(global_labels.view(), k),
        opt_view(r.namespace) == opt_view(*namespace),
        r.wf(),
        final(rate_map).wf(),
{
    let mut labels = match &counter.labels {
        Some(l) => l.duplicate(),
        None => LabelMap::new(),
    };
    proof {
        assert(labels.view() == counter.own_labels());
        assert(labels.wf());
    }
    labels.extend(global_labels);
    proof {
        lemma_extend_props(counter.own_labels(), global_labels.view());
    }
    let mut metrics = MetricMap::new();
    let ghost fs = files.deep_view();
    let ghost rks = counter.rate_keys_view();
    let ghost rm0 = rate_map.view();
    let n = files.len();
    let mut i: usize = 0;
    proof {
        assert(fs.take(0) =~= Seq::<(Seq<char>, Seq<char>)>::empty());
    }
    while i < n
        invariant
            i <= n,
            n == fs.len(),
            fs == files.deep_view(),
            metrics.view() == scrape_files(Seq::<(Seq<char>, u64)>::empty(), rm0, fs.take(i as int), rks).0,
            rate_map.view() == scrape_files(Seq::<(Seq<char>, u64)>::empty(), rm0, fs.take(i as int), rks).1,
            metrics.wf(),
            rate_map.wf(),
        decreases n - i,
    {
        proof {
            assert(files.deep_view()[i as int] == files@[i as int].deep_view());
            assert(fs.take(i as int + 1).drop_last() =~= fs.take(i as int));
            assert(fs.take(i as int + 1).last() == fs[i as int]);
        }
        let name = files[i].0.clone();
        let value = parse_counter(files[i].1.as_str());
        metrics.insert(name.clone(), value);
        let ghost m1 = metrics.view();
        let ghost r1 = rate_map.view();
        match &counter.rate_keys {
            Some(rks_v) => {
                let m = rks_v.len();
                let mut j: usize = 0;
                proof {
                    assert(rks.take(0) =~= Seq::<Seq<char>>::empty());
                }
                while j < m
                    invariant
                        j <= m,
                        m == rks.len(),
                        rks == rks_v.deep_view(),
                        metrics.view() == apply_rate_keys(m1, r1, rks.take(j as int), name@, value).0,
                        rate_map.view() == apply_rate_keys(m1, r1, rks.take(j as int), name@, value).1,
                        metrics.wf(),
                        rate_map.wf(),
                    decreases m - j,
                {
                    proof {
                        assert(rks_v.deep_view()[j as int] == rks_v@[j as int].deep_view());
                        assert(rks.take(j as int + 1).drop_last() =~= rks.take(j as int));
                        assert(rks.take(j as int + 1).last() == rks[j as int]);
                    }
                    if rks_v[j] == name {
                        let prev = match rate_map.get(&name) {
                            Some(p) => p,
                            None => 0,
                        };
                        let rate = if value >= prev {
                            value - prev
                        } else {
                            value
                        };
                        proof {
                            assert(rate == rate_of(rate_map.view(), name@, value));
                        }
                        metrics.insert(name.clone().concat("_rate"), rate);
                        rate_map.insert(name.clone(), value);
                    }
                    j += 1;
                }
                proof {
                    assert(rks.take(m as int) =~= rks);
                }
            },
            None => {
                proof {
                    assert(rks.len() == 0);
                    assert(rks.take(0 as int) =~= rks);
                }
            },
        }
        proof {
            assert(apply_rate_keys(m1, r1, rks, name@, value) == apply_rate_keys(
                insert_s(
                    scrape_files(Seq::<(Seq<char>, u64)>::empty(), rm0, fs.take(i as int), rks).0,
                    fs[i as int].0,
                    spec_parse_counter(fs[i as int].1),
                ),
                scrape_files(Seq::<(Seq<char>, u64)>::empty(), rm0, fs.take(i as int), rks).1,
                rks,
                fs[i as int].0,
                spec_parse_counter(fs[i as int].1),
            ));
        }
        i += 1;
    }
    proof {
        assert(fs.take(n as int) =~= fs);
    }
    CollectorMetrics { labels, metrics, namespace: clone_opt_string(namespace) }
}

/// Zero-valued rate entries for one file name.
pub open spec fn zero_rate_keys(
    ms: Seq<(Seq<char>, u64)>,
    rks: Seq<Seq<char>>,
    name: Seq<char>,
) -> Seq<(Seq<char>, u64)>
    decreases rks.len(),
{
    if rks.len() == 0 {
        ms
    } else {
        let m0 = zero_rate_keys(ms, rks.drop_last(), name);
        if rks.last() == name {
            insert_s(m0, name + "_rate"@, 0u64)
        } else {
            m0
        }
    }
}

/// Zero-valued metrics for a directory listing, declaring the shape a
/// counter spec will report.
pub open spec fn metadata_files(
    ms: Seq<(Seq<char>, u64)>,
    names: Seq<Seq<char>>,
    rks: Seq<Seq<char>>,
) -> Seq<(Seq<char>, u64)>
    decreases names.len(),
{
    if names.len() == 0 {
        ms
    } else {
        let m0 = metadata_files(ms, names.drop_last(), rks);
        zero_rate_keys(insert_s(m0, names.last(), 0u64), rks, names.last())
    }
}

/// The registration message for one counter spec: every file name (and
/// every matching rate key) mapped to zero, under the spec's labels
/// extended by the global labels.
#[verifier::loop_isolation(false)]
pub fn get_metrics_metadata(
    counter: &Counter,
    global_labels: &LabelMap,
    namespace: &Option<String>,
    file_names: &Vec<String>,
) -> (r: CollectorMetrics)
    requires
        counter.wf(),
        global_labels.wf(),
    ensures
        r.metrics.view() == metadata_files(
            Seq::<(Seq<char>, u64)>::empty(),
            file_names.deep_view(),
            counter.rate_keys_view(),
        ),
        r.labels.view() == extend_s(counter.own_labels(), global_labels.view()),
        forall|k: Seq<char>|
            has_key(global_labels.view(), k) ==> has_key(r.labels.view(), k) && value_of(
                r.labels.view(),
                k,
            ) == value_of(global_labels.view(), k),
        opt_view(r.namespace) == opt_view(*namespace),
        r.wf(),
{
    let mut labels = match &counter.labels {
        Some(l) => l.duplicate(),
        None => LabelMap::new(),
    };
    proof {
        assert(labels.view() == counter.own_labels());
        assert(labels.wf());
    }
    labels.extend(global_labels);
    proof {
        lemma_extend_props(counter.own_labels(), global_labels.view());
    }
    let mut metrics = MetricMap::new();
    let ghost ns = file_names.deep_view();
    let ghost rks = counter.rate_keys_view();
    let n = file_names.len();
    let mut i: usize = 0;
    proof {
        assert(ns.take(0) =~= Seq::<Seq<char>>::empty());
    }
    while i < n
        invariant
            i <= n,
            n == ns.len(),
            ns == file_names.deep_view(),
            metrics.view() == metadata_files(Seq::<(Seq<char>, u64)>::empty(), ns.take(i as int), rks),
            metrics.wf(),
        decreases n - i,
    {
        proof {
            assert(file_names.deep_view()[i as int] == file_names@[i as int].deep_view());
            assert(ns.take(i as int + 1).drop_last() =~= ns.take(i as int));
            assert(ns.take(i as int + 1).last() == ns[i as int]);
        }
        let name = file_names[i].clone();
        metrics.insert(name.clone(), 0);
        let ghost m1 = metrics.view();
        match &counter.rate_keys {
            Some(rks_v) => {
                let m = rks_v.len();
                let mut j: usize = 0;
                proof {
                    assert(rks.take(0) =~= Seq::<Seq<char>>::empty());
                }
                while j < m
                    invariant
                        j <= m,
                        m == rks.len(),
                        rks == rks_v.deep_view(),
                        metrics.view() == zero_rate_keys(m1, rks.take(j as int), name@),
                        metrics.wf(),
                    decreases m - j,
                {
                    proof {
                        assert(rks_v.deep_view()[j as int] == rks_v@[j as int].deep_view());
                        assert(rks.take(j as int + 1).drop_last() =~= rks.take(j as int));
                        assert(rks.take(j as int + 1).last() == rks[j as int]);
                    }
                    if rks_v[j] == name {
                        metrics.insert(name.clone().concat("_rate"), 0);
                    }
                    j += 1;
                }
                proof {
                    assert(rks.take(m as int) =~= rks);
                }
            },
            None => {
                proof {
                    assert(rks.len() == 0);
                    assert(rks.take(0 as int) =~= rks);
                }
            },
        }
        i += 1;
    }
    proof {
        assert(ns.take(n as int) =~= ns);
    }
    CollectorMetrics { labels, metrics, namespace: clone_opt_string(namespace) }
}

/// The agent-side scraper state: configuration plus the per-name rate
/// state that lives for the life of the process.
pub struct Scraper {
    pub global_labels: LabelMap,
    pub namespace: Option<String>,
    pub counters: Vec<Counter>,
    pub interval: u64,
    pub rate_map: MetricMap,
}

impl Scraper {
    pub open spec fn wf(&self) -> bool {
        self.global_labels.wf() && self.rate_map.wf() && forall|i: int|
            0 <= i < self.counters.len() ==> (#[trigger] self.counters[i]).wf()
    }

    pub fn new(
        global_labels: LabelMap,
        counters: Vec<Counter>,
        interval: u64,
        namespace: Option<String>,
    ) -> (r: Scraper)
        requires
            global_labels.wf(),
            forall|i: int| 0 <= i < counters.len() ==> (#[trigger] counters[i]).wf(),
        ensures
            r.wf(),
            r.global_labels.view() == global_labels.view(),
            r.counters == counters,
            r.interval == interval,
            opt_view(r.namespace) == opt_view(namespace),
            r.rate_map.view() == Seq::<(Seq<char>, u64)>::empty(),
    {
        Scraper { global_labels, namespace, counters, interval, rate_map: MetricMap::new() }
    }

    /// One tick of one counter spec; see `scrape_tick`.
    pub fn tick_counter(&mut self, idx: usize, files: &Vec<(String, String)>) -> (r:
        CollectorMetrics)
        requires
            old(self).wf(),
            idx < old(self).counters.len(),
        ensures
            final(self).wf(),
            final(self).counters == old(self).counters,
            final(self).global_labels == old(self).global_labels,
            final(self).namespace == old(self).namespace,
            r.metrics.view() == scrape_files(
                Seq::<(Seq<char>, u64)>::empty(),
                old(self).rate_map.view(),
                files.deep_view(),
                old(self).counters[idx as int].rate_keys_view(),
            ).0,
            final(self).rate_map.view() == scrape_files(
                Seq::<(Seq<char>, u64)>::empty(),
                old(self).rate_map.view(),
                files.deep_view(),
                old(self).counters[idx as int].rate_keys_view(),
            ).1,
            r.labels.view() == extend_s(
                old(self).counters[idx as int].own_labels(),
                old(self).global_labels.view(),
            ),
            forall|k: Seq<char>|
                has_key(old(self).global_labels.view(), k) ==> has_key(r.labels.view(), k)
                    && value_of(r.labels.view(), k) == value_of(
                    old(self).global_labels.view(),
                    k,
                ),
            opt_view(r.namespace) == opt_view(old(self).namespace),
            r.wf(),
    {
        scrape_tick(
            &self.counters[idx],
            &self.global_labels,
            &self.namespace,
            &mut self.rate_map,
            files,
        )
    }
}

/// Make sure the global labels carry the scraping host's name: when no
/// `host` label is configured, insert the hostname with `-` become `_`.
pub fn ensure_host_label(labels: &mut LabelMap, hostname: &str)
    ensures
        final(labels).view() == if has_key(old(labels).view(), "host"@) {
            old(labels).view()
        } else {
            insert_s(
                old(labels).view(),
                "host"@,
                crate::text::replace_char(hostname@, '-', '_'),
            )
        },
        has_key(final(labels).view(), "host"@),
        old(labels).wf() ==> final(labels).wf(),
{
    let key = String::from_str("host");
    if !labels.contains_key(&key) {
        let value = crate::text::replace_char_exec(hostname, '-', '_');
        proof {
            lemma_insert_props(labels.view(), "host"@, value@);
        }
        labels.insert(key, value);
    }
}


/// Every message the file scraper emits carries the global labels
/// whole: a label set built as the spec's own labels extended by the
/// global ones keeps every global key with its global value — in
/// particular the `host` label, once `ensure_host_label` has run.
pub proof fn lemma_scraper_labels_carry_global(
    own: Seq<(Seq<char>, Seq<char>)>,
    global: Seq<(Seq<char>, Seq<char>)>,
)
    requires
        crate::kvmap::unique_keys(global),
        has_key(global, "host"@),
    ensures
        has_key(extend_s(own, global), "host"@),
        value_of(extend_s(own, global), "host"@) == value_of(global, "host"@),
        forall|k: Seq<char>|
            has_key(global, k) ==> has_key(#[trigger] extend_s(own, global), k) && value_of(
                extend_s(own, global),
                k,
            ) == value_of(global, k),
{
    lemma_extend_props(own, global);
}

} // verus!
