use telemetry_pipeline::counters::{ensure_host_label, get_metrics_metadata, scrape_tick, Counter,
    Scraper, Path};
use telemetry_pipeline::gauges::{check_shape, sort_pairs, setup_metrics, Action, Command,
    GaugeManager};
use telemetry_pipeline::kvmap::{LabelMap, MetricMap};
use telemetry_pipeline::metrics::CollectorMetrics;
use telemetry_pipeline::telemetry::{convert_value, counter_parts, parse_prefix, split_pair, Value};
use telemetry_pipeline::text::{parse_counter, str_eq, valid_label_name, valid_metric_name};
use telemetry_pipeline::transform::{compute_rate, process_message, second_segment, KeyValue,
    OpenConfigData, PrevMap};

fn label_map(pairs: &[(&str, &str)]) -> LabelMap {
    let mut m = LabelMap::new();
    for (k, v) in pairs {
        m.insert(k.to_string(), v.to_string());
    }
    m
}

fn metric_map(pairs: &[(&str, u64)]) -> MetricMap {
    let mut m = MetricMap::new();
    for (k, v) in pairs {
        m.insert(k.to_string(), *v);
    }
    m
}

fn get_metric(m: &CollectorMetrics, k: &str) -> Option<u64> {
    m.metrics.get(&k.to_string())
}

fn get_label(m: &CollectorMetrics, k: &str) -> Option<String> {
    m.labels.get(&k.to_string())
}

#[test]
fn parse_counter_plain() {
    assert_eq!(parse_counter("5\n"), 5);
    assert_eq!(parse_counter("  42\t"), 42);
    assert_eq!(parse_counter("\u{000B}8\u{00A0}"), 8);
    assert_eq!(parse_counter("+7"), 7);
    assert_eq!(parse_counter("0"), 0);
}

#[test]
fn parse_counter_errors_resolve_to_zero() {
    assert_eq!(parse_counter("abc"), 0);
    assert_eq!(parse_counter(""), 0);
    assert_eq!(parse_counter("-3"), 0);
    assert_eq!(parse_counter("1 2"), 0);
    assert_eq!(parse_counter("18446744073709551615"), u64::MAX);
    assert_eq!(parse_counter("18446744073709551616"), 0);
}

#[test]
fn convert_value_variants() {
    assert_eq!(convert_value(&Value::Uint(9)), 9);
    assert_eq!(convert_value(&Value::Double(4)), 4);
    assert_eq!(convert_value(&Value::Float(3)), 3);
    assert_eq!(convert_value(&Value::Int(7)), 7);
    assert_eq!(convert_value(&Value::Int(-1)), 0);
    assert_eq!(convert_value(&Value::Str("5".to_string())), 0);
    assert_eq!(convert_value(&Value::Other), 0);
}

#[test]
fn str_helpers() {
    assert!(str_eq("abc", "abc"));
    assert!(!str_eq("abc", "abd"));
    assert!(valid_metric_name("a_name:x9"));
    assert!(!valid_metric_name("9name"));
    assert!(!valid_metric_name(""));
    assert!(valid_label_name("host_1"));
    assert!(!valid_label_name("a:b"));
}

#[test]
fn split_pair_exactly_one_equals() {
    let r = split_pair("name='et-0/0/8'").unwrap();
    assert_eq!(r.0, "name");
    assert_eq!(r.1, "'et-0/0/8'");
    assert!(split_pair("noequals").is_none());
    assert!(split_pair("a=b=c").is_none());
}

// Scraper scenario: first tick counts from zero, a later tick reports
// the delta, and a reset reports the new value.
#[test]
fn scraper_three_ticks() {
    let counter = Counter {
        paths: vec!["/x".to_string()],
        labels: None,
        rate_keys: Some(vec!["a".to_string()]),
    };
    let global = label_map(&[("host", "h")]);
    let mut scraper = Scraper::new(global, vec![counter], 1000, None);

    let files1 = vec![("a".to_string(), "5\n".to_string()), ("b".to_string(), "abc".to_string())];
    let m1 = scraper.tick_counter(0, &files1);
    assert_eq!(get_metric(&m1, "a"), Some(5));
    assert_eq!(get_metric(&m1, "a_rate"), Some(5));
    assert_eq!(get_metric(&m1, "b"), Some(0));
    assert_eq!(get_label(&m1, "host"), Some("h".to_string()));

    let files2 = vec![("a".to_string(), "8".to_string()), ("b".to_string(), "abc".to_string())];
    let m2 = scraper.tick_counter(0, &files2);
    assert_eq!(get_metric(&m2, "a"), Some(8));
    assert_eq!(get_metric(&m2, "a_rate"), Some(3));
    assert_eq!(get_metric(&m2, "b"), Some(0));

    let files3 = vec![("a".to_string(), "2".to_string()), ("b".to_string(), "abc".to_string())];
    let m3 = scraper.tick_counter(0, &files3);
    assert_eq!(get_metric(&m3, "a"), Some(2));
    assert_eq!(get_metric(&m3, "a_rate"), Some(2));
    assert_eq!(get_metric(&m3, "b"), Some(0));
}

// Global labels always win over per-spec labels.
#[test]
fn scraper_global_label_wins() {
    let counter = Counter {
        paths: vec![],
        labels: Some(label_map(&[("site", "lab"), ("host", "wrong")])),
        rate_keys: None,
    };
    let global = label_map(&[("host", "right")]);
    let mut rate_map = MetricMap::new();
    let m = scrape_tick(&counter, &global, &None, &mut rate_map, &vec![]);
    assert_eq!(get_label(&m, "site"), Some("lab".to_string()));
    assert_eq!(get_label(&m, "host"), Some("right".to_string()));
}

#[test]
fn metadata_declares_zeroed_shape() {
    let counter = Counter {
        paths: vec!["/x".to_string()],
        labels: None,
        rate_keys: Some(vec!["a".to_string()]),
    };
    let global = label_map(&[("host", "h")]);
    let names = vec!["a".to_string(), "b".to_string()];
    let m = get_metrics_metadata(&counter, &global, &Some("ns".to_string()), &names);
    assert_eq!(get_metric(&m, "a"), Some(0));
    assert_eq!(get_metric(&m, "a_rate"), Some(0));
    assert_eq!(get_metric(&m, "b"), Some(0));
    assert_eq!(m.namespace, Some("ns".to_string()));
    assert_eq!(get_label(&m, "host"), Some("h".to_string()));
}

#[test]
fn host_label_filled_from_hostname() {
    let mut labels = LabelMap::new();
    ensure_host_label(&mut labels, "my-host-1");
    assert_eq!(labels.get(&"host".to_string()), Some("my_host_1".to_string()));

    let mut labels2 = label_map(&[("host", "kept")]);
    ensure_host_label(&mut labels2, "other");
    assert_eq!(labels2.get(&"host".to_string()), Some("kept".to_string()));
}

// Prefix parse scenario: bracketed labels come out under prefix_*, the
// slash inside a quoted value survives, and the stripped prefix doubles
// its slashes.
#[test]
fn prefix_parse() {
    let (prefix, labels) = parse_prefix(
        "/cos/interfaces/interface[name='et-0/0/8']/queues/queue[queue='8']/",
    );
    assert_eq!(prefix, "__cos__interfaces__interface__queues__queue__");
    assert_eq!(labels.get(&"prefix_name".to_string()), Some("et_0/0/8".to_string()));
    assert_eq!(labels.get(&"prefix_queue".to_string()), Some("8".to_string()));
    assert_eq!(labels.len(), 2);
}

#[test]
fn prefix_parse_empty_value_dropped() {
    let (_, labels) = parse_prefix("/a[x='']/b[y='1']/");
    assert!(labels.get(&"prefix_x".to_string()).is_none());
    assert_eq!(labels.get(&"prefix_y".to_string()), Some("1".to_string()));
}

// Emitted counter names keep no bracket characters.
#[test]
fn counter_name_has_no_brackets() {
    let (name, labels, ckey) = counter_parts("/foo/bar[k='v-1']/baz");
    assert_eq!(name, "__foo__bar__baz");
    let (dashed, _, _) = counter_parts("in-errors");
    assert_eq!(dashed, "in_errors");
    assert!(!name.contains('[') && !name.contains(']'));
    assert_eq!(labels.get(&"counter_k".to_string()), Some("v-1".to_string()));
    assert_eq!(ckey, "v-1");
}

// The counter key is the bracketed values joined in appearance order,
// whatever the label names were.
#[test]
fn counter_key_follows_value_order() {
    let (_, _, ck1) = counter_parts("c[x='1'][y='2']");
    let (_, _, ck2) = counter_parts("c[a='1'][b='2']");
    assert_eq!(ck1, "1_2");
    assert_eq!(ck2, "1_2");
    let (_, _, ck3) = counter_parts("c[x='2'][y='1']");
    assert_eq!(ck3, "2_1");
}

#[test]
fn counter_key_drops_empty_sides() {
    let (_, labels, ck) = counter_parts("c[k=''][j='8']");
    assert_eq!(ck, "8");
    assert!(labels.get(&"counter_k".to_string()).is_none());
    assert_eq!(labels.get(&"counter_j".to_string()), Some("8".to_string()));
}

#[test]
fn rate_is_truncated_per_second() {
    assert_eq!(compute_rate(1000, 1_000_000, 3000, 1_002_000), 1000);
    assert_eq!(compute_rate(0, 0, 5, 2000), 2);
    // zero delta and a stuck clock both resolve to zero
    assert_eq!(compute_rate(5, 0, 5, 1000), 0);
    assert_eq!(compute_rate(1, 1000, 2, 1000), 0);
    // a shrinking counter was reset: the telemetry flavor reports zero
    assert_eq!(compute_rate(10, 0, 4, 1000), 0);
}

#[test]
fn second_segment_of_sensor_path() {
    assert_eq!(second_segment("sensor:/intf/x:more"), Some("/intf/x".to_string()));
    assert_eq!(second_segment("sensor:/intf/x"), Some("/intf/x".to_string()));
    assert_eq!(second_segment("nosegments"), None);
}

fn telemetry_message(ts: u64, pkts: u64) -> OpenConfigData {
    OpenConfigData {
        path: "sensor:/intf:extra".to_string(),
        system_id: "r1".to_string(),
        kv: vec![
            KeyValue { key: "__timestamp__".to_string(), value: Some(Value::Uint(ts)) },
            KeyValue {
                key: "__prefix__".to_string(),
                value: Some(Value::Str(
                    "/cos/interfaces/interface[name='et-0/0/8']/queues/queue[queue='8']/"
                        .to_string(),
                )),
            },
            KeyValue { key: "index".to_string(), value: Some(Value::Uint(0)) },
            KeyValue { key: "pkts".to_string(), value: Some(Value::Uint(pkts)) },
        ],
    }
}

// Rate across two emissions of the same aggregate: the second message
// reports (v2 - v1) * 1000 / (ts2 - ts1).
#[test]
fn telemetry_rate_across_emissions() {
    let paths = vec![Path { path: "/intf".to_string(), freq: 0 }];
    let ns = "ns".to_string();
    let mut prev = PrevMap::new();
    let name = "__cos__interfaces__interface__queues__queue___pkts";

    let out1 = process_message(&telemetry_message(1_000_000, 1000), &paths, &ns, &mut prev);
    assert_eq!(out1.len(), 1);
    assert_eq!(get_metric(&out1[0], name), Some(1000));
    assert_eq!(get_metric(&out1[0], &format!("{}_per_sec", name)), Some(0));
    assert_eq!(get_label(&out1[0], "namespace"), Some("ns".to_string()));
    assert_eq!(get_label(&out1[0], "system_id"), Some("r1".to_string()));
    assert_eq!(get_label(&out1[0], "prefix_name"), Some("et_0/0/8".to_string()));
    assert_eq!(get_label(&out1[0], "prefix_queue"), Some("8".to_string()));

    let out2 = process_message(&telemetry_message(1_002_000, 3000), &paths, &ns, &mut prev);
    assert_eq!(out2.len(), 1);
    assert_eq!(get_metric(&out2[0], name), Some(3000));
    assert_eq!(get_metric(&out2[0], &format!("{}_per_sec", name)), Some(1000));
}

// A message whose sensor path names no configured subscription is
// dropped whole.
#[test]
fn telemetry_unmatched_path_ignored() {
    let paths = vec![Path { path: "/other".to_string(), freq: 0 }];
    let ns = "ns".to_string();
    let mut prev = PrevMap::new();
    let out = process_message(&telemetry_message(1, 1), &paths, &ns, &mut prev);
    assert!(out.is_empty());
}

fn shape(labels: &[(&str, &str)], names: &[(&str, u64)], ns: Option<&str>) -> CollectorMetrics {
    CollectorMetrics {
        labels: label_map(labels),
        metrics: metric_map(names),
        namespace: ns.map(|s| s.to_string()),
    }
}

#[test]
fn shape_check() {
    assert!(check_shape(&shape(&[("host", "h")], &[("m", 1)], None)));
    assert!(!check_shape(&shape(&[("host", "h")], &[("9bad", 1)], None)));
    assert!(!check_shape(&shape(&[("bad:label", "h")], &[("m", 1)], None)));
    assert!(!check_shape(&shape(&[("host", "h")], &[("m", 1)], Some("9ns"))));
}

#[test]
fn sorted_labels_are_ordered_and_complete() {
    let labels = label_map(&[("zeta", "1"), ("alpha", "2"), ("mid", "3")]);
    let sorted = sort_pairs(&labels);
    let keys: Vec<&str> = sorted.iter().map(|p| p.0.as_str()).collect();
    assert_eq!(keys, vec!["alpha", "mid", "zeta"]);
    let vals: Vec<&str> = sorted.iter().map(|p| p.1.as_str()).collect();
    assert_eq!(vals, vec!["2", "3", "1"]);
}

#[test]
fn setup_metrics_one_gauge_per_name() {
    let m = shape(&[("host", "h"), ("site", "s")], &[("m_one", 1), ("m_two", 2)], None);
    let gm = setup_metrics(&m);
    assert_eq!(gm.len(), 2);
    assert_eq!(gm[0].0, "m_one");
    assert_eq!(gm[1].0, "m_two");
}

// Register semantics: the gauge map's names become exactly the union of
// the metric names seen; re-registering the same shape adds nothing and
// triggers no rebuild.
#[test]
fn register_union_and_duplicate() {
    let mut mgr = GaugeManager::new();
    let m1 = shape(&[("a", "1"), ("b", "2")], &[("m", 1)], None);
    let rebuilt1 = mgr.handle_register(&m1);
    assert!(rebuilt1);
    assert!(mgr.contains_name(&"m".to_string()));

    // same shape again: no new name, no rebuild, no external error
    let rebuilt2 = mgr.handle_register(&m1);
    assert!(!rebuilt2);

    // a wider shape brings one new name and a rebuild
    let m2 = shape(&[("a", "1"), ("b", "2"), ("c", "3")], &[("m", 1), ("n", 2)], None);
    let rebuilt3 = mgr.handle_register(&m2);
    assert!(rebuilt3);
    assert!(mgr.contains_name(&"m".to_string()));
    assert!(mgr.contains_name(&"n".to_string()));
}

// Send semantics: an unknown name asks for a deferred register of the
// same message; after that register the send passes.
#[test]
fn send_unknown_name_defers_register() {
    let mut mgr = GaugeManager::new();
    let m1 = shape(&[("a", "1")], &[("m", 1)], None);
    assert!(mgr.handle_register(&m1));

    let m2 = shape(&[("a", "1")], &[("m", 5), ("n", 6)], None);
    let action = mgr.handle_command(Command::SendMetrics(m2));
    match action {
        Action::Register(r) => {
            assert!(mgr.handle_register(&r));
        },
        _ => panic!("expected a deferred register"),
    }
    let m3 = shape(&[("a", "1")], &[("m", 5), ("n", 6)], None);
    assert!(!mgr.handle_send(&m3));
}

#[test]
fn command_loop_actions() {
    let mut mgr = GaugeManager::new();
    assert!(matches!(mgr.handle_command(Command::Start), Action::StartServer));
    assert!(matches!(mgr.handle_command(Command::Stop), Action::StopServer));
    let m = shape(&[("a", "1")], &[("m", 1)], None);
    assert!(matches!(mgr.handle_command(Command::Register(m)), Action::Restart));
    let m2 = shape(&[("a", "1")], &[("m", 1)], None);
    assert!(matches!(mgr.handle_command(Command::Register(m2)), Action::Nothing));
}

// The values set through the manager reach the real registry: the text
// exposition carries them under the sorted label names.
#[test]
fn gauge_values_reach_the_registry() {
    let mut mgr = GaugeManager::new();
    let m = shape(&[("host", "h")], &[("mymetric", 0)], None);
    assert!(mgr.handle_register(&m));
    let sample = shape(&[("host", "h")], &[("mymetric", 41)], None);
    assert!(!mgr.handle_send(&sample));

    let families = mgr.registry().gather();
    let fam = families.iter().find(|f| f.name() == "mymetric").expect("family registered");
    let metric = &fam.get_metric()[0];
    assert_eq!(metric.get_gauge().value(), 41.0);
    assert_eq!(metric.get_label()[0].name(), "host");
    assert_eq!(metric.get_label()[0].value(), "h");
}

// A namespace prefixes the exported family name.
#[test]
fn namespace_prefixes_family_name() {
    let mut mgr = GaugeManager::new();
    let m = shape(&[("host", "h")], &[("inner", 0)], Some("ns"));
    assert!(mgr.handle_register(&m));
    let sample = shape(&[("host", "h")], &[("inner", 7)], Some("ns"));
    assert!(!mgr.handle_send(&sample));
    let families = mgr.registry().gather();
    assert!(families.iter().any(|f| f.name() == "ns_inner"));
}

// An unclosed bracket is ordinary text: nothing is extracted and the
// character stays in the name.
#[test]
fn unmatched_bracket_stays() {
    let (name, labels, ck) = counter_parts("a[b");
    assert_eq!(name, "a[b");
    assert_eq!(labels.len(), 0);
    assert_eq!(ck, "");
}

// Quotes are optional in bracket values.
#[test]
fn unquoted_bracket_value() {
    let (_, labels, ck) = counter_parts("c[k=v]");
    assert_eq!(labels.get(&"counter_k".to_string()), Some("v".to_string()));
    assert_eq!(ck, "v");
}

// A counter key seen before any prefix falls back to the default
// aggregate key and is dropped only if even that is empty.
#[test]
fn counter_before_prefix_uses_default_key() {
    let paths = vec![Path { path: "/intf".to_string(), freq: 0 }];
    let ns = "ns".to_string();
    let mut prev = PrevMap::new();
    let msg = OpenConfigData {
        path: "s:/intf".to_string(),
        system_id: "r1".to_string(),
        kv: vec![KeyValue { key: "pkts".to_string(), value: Some(Value::Uint(5)) }],
    };
    // no __prefix__ ever arrives: no aggregate, nothing emitted
    let out = process_message(&msg, &paths, &ns, &mut prev);
    assert!(out.is_empty());
}
