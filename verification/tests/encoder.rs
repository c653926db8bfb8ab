use metrics_sidecar::encoder::{encode, scrape, write_family, write_series};
use metrics_sidecar::histogram::Histogram;
use metrics_sidecar::registry::{
    Family, Label, MetricKind, MetricObservation, Registry, Series, SeriesValue, Snapshot,
};

fn text(bytes: Vec<u8>) -> String {
    String::from_utf8(bytes).unwrap()
}

fn names(all: &[&str]) -> Vec<Vec<u8>> {
    all.iter().map(|n| n.as_bytes().to_vec()).collect()
}

fn counter(name: &str, pairs: &[(&str, &str)], value: u64) -> MetricObservation {
    MetricObservation {
        name: name.as_bytes().to_vec(),
        kind: MetricKind::Counter,
        labels: pairs
            .iter()
            .map(|(n, v)| Label { name: n.as_bytes().to_vec(), value: v.as_bytes().to_vec() })
            .collect(),
        value,
    }
}

#[test]
fn nothing_encodes_as_nothing() {
    assert_eq!(encode(&Snapshot { families: vec![] }), b"");
    assert_eq!(scrape(&Registry::new()), b"");
}

#[test]
fn a_counter_without_labels_has_no_braces() {
    let mut registry = Registry::new();
    registry.register(b"up", b"Whether it runs", MetricKind::Counter, &vec![]).unwrap();
    registry.apply(&counter("up", &[], 1)).unwrap();
    assert_eq!(
        text(scrape(&registry)),
        "# HELP up Whether it runs\n# TYPE up counter\nup 1\n"
    );
}

#[test]
fn a_family_without_help_has_an_empty_help_line() {
    let mut registry = Registry::new();
    registry.apply(&counter("hits", &[("page", "/")], 18_446_744_073_709_551_615)).unwrap();
    assert_eq!(
        text(scrape(&registry)),
        "# HELP hits \n# TYPE hits counter\nhits{page=\"/\"} 18446744073709551615\n"
    );
}

#[test]
fn label_values_and_help_are_escaped() {
    let mut registry = Registry::new();
    registry
        .register(b"hits", b"a \"b\" \\ c\nd", MetricKind::Counter, &names(&["page"]))
        .unwrap();
    registry.apply(&counter("hits", &[("page", "a \"b\" \\ c\nd")], 1)).unwrap();
    assert_eq!(
        text(scrape(&registry)),
        "# HELP hits a \"b\" \\\\ c\\nd\n# TYPE hits counter\nhits{page=\"a \\\"b\\\" \\\\ c\\nd\"} 1\n"
    );
}

#[test]
fn families_are_encoded_in_the_order_of_their_names() {
    let mut registry = Registry::new();
    registry.apply(&counter("zeta", &[], 1)).unwrap();
    registry.apply(&counter("alpha", &[("k", "2")], 2)).unwrap();
    registry.apply(&counter("alpha", &[("k", "1")], 3)).unwrap();
    registry.apply(&counter("mid", &[], 4)).unwrap();
    assert_eq!(
        text(scrape(&registry)),
        "\
# HELP alpha 
# TYPE alpha counter
alpha{k=\"2\"} 2
alpha{k=\"1\"} 3
# HELP mid 
# TYPE mid counter
mid 4
# HELP zeta 
# TYPE zeta counter
zeta 1
"
    );
}

#[test]
fn a_histogram_without_labels_has_only_its_bound_in_braces() {
    let mut h = Histogram::new();
    h.observe(300_000_000);
    h.observe(7_500_000_000);
    let family = Family {
        name: b"wait".to_vec(),
        help: b"Waiting time".to_vec(),
        kind: MetricKind::Histogram,
        label_names: vec![],
        series: vec![Series { key: vec![], value: SeriesValue::Histogram(h) }],
    };
    let mut out = Vec::new();
    write_family(&mut out, &family);
    assert_eq!(
        text(out),
        "\
# HELP wait Waiting time
# TYPE wait histogram
wait_bucket{le=\"0.005\"} 0
wait_bucket{le=\"0.01\"} 0
wait_bucket{le=\"0.025\"} 0
wait_bucket{le=\"0.05\"} 0
wait_bucket{le=\"0.1\"} 0
wait_bucket{le=\"0.25\"} 0
wait_bucket{le=\"0.5\"} 1
wait_bucket{le=\"1\"} 1
wait_bucket{le=\"2.5\"} 1
wait_bucket{le=\"5\"} 1
wait_bucket{le=\"10\"} 2
wait_bucket{le=\"+Inf\"} 2
wait_sum 7.8
wait_count 2
"
    );
}

#[test]
fn a_series_is_appended_to_what_is_there() {
    let family = Family {
        name: b"hits".to_vec(),
        help: vec![],
        kind: MetricKind::Counter,
        label_names: names(&["a", "b"]),
        series: vec![],
    };
    let series = Series { key: names(&["1", "2"]), value: SeriesValue::Counter(5) };
    let mut out = b"# before\n".to_vec();
    write_series(&mut out, &family, &series);
    assert_eq!(text(out), "# before\nhits{a=\"1\",b=\"2\"} 5\n");
}

#[test]
fn a_series_with_too_few_values_shows_those_it_has() {
    let family = Family {
        name: b"hits".to_vec(),
        help: vec![],
        kind: MetricKind::Counter,
        label_names: names(&["a", "b"]),
        series: vec![],
    };
    let short = Series { key: names(&["1"]), value: SeriesValue::Counter(5) };
    let mut out = Vec::new();
    write_series(&mut out, &family, &short);
    assert_eq!(text(out), "hits{a=\"1\"} 5\n");
}

#[test]
fn equal_states_encode_to_equal_bytes() {
    let mut one = Registry::new();
    let mut two = Registry::new();
    for registry in [&mut one, &mut two] {
        registry.apply(&counter("hits", &[("page", "/")], 3)).unwrap();
        registry.apply(&counter("hits", &[("page", "/x")], 4)).unwrap();
    }
    assert_eq!(scrape(&one), scrape(&two));
    assert_eq!(scrape(&one), scrape(&one));
    assert_eq!(encode(&one.snapshot()), encode(&one.snapshot()));
}
