//! The text of a scrape is, byte for byte, what the `prometheus` crate
//! writes for the same observations, where that crate puts the labels in the
//! same order: it sorts them by name.

use metrics_sidecar::encoder::scrape;
use metrics_sidecar::listener::process_metric;
use metrics_sidecar::registry::{Label, MetricKind, MetricObservation, Registry};
use prometheus::{Encoder, HistogramOpts, HistogramVec, IntCounterVec, Opts, TextEncoder};

fn names(all: &[&str]) -> Vec<Vec<u8>> {
    all.iter().map(|n| n.as_bytes().to_vec()).collect()
}

fn observation(
    name: &str,
    kind: MetricKind,
    pairs: &[(&str, &str)],
    value: u64,
) -> MetricObservation {
    MetricObservation {
        name: name.as_bytes().to_vec(),
        kind,
        labels: pairs
            .iter()
            .map(|(n, v)| Label { name: n.as_bytes().to_vec(), value: v.as_bytes().to_vec() })
            .collect(),
        value,
    }
}

fn encoded(registry: &prometheus::Registry) -> String {
    let mut buffer = Vec::new();
    TextEncoder::new().encode(&registry.gather(), &mut buffer).unwrap();
    String::from_utf8(buffer).unwrap()
}

#[test]
fn counters_are_written_as_prometheus_writes_them() {
    let theirs = prometheus::Registry::new();
    let orders =
        IntCounterVec::new(Opts::new("order_total", "Total number of orders"), &["product_id"])
            .unwrap();
    let hits = IntCounterVec::new(Opts::new("hits", "Pages \\ served\nso far"), &["lang", "page"])
        .unwrap();
    theirs.register(Box::new(orders.clone())).unwrap();
    theirs.register(Box::new(hits.clone())).unwrap();

    let mut ours = Registry::new();
    assert_eq!(ours.register(
        b"order_total",
        b"Total number of orders",
        MetricKind::Counter,
        &names(&["product_id"])
    ), Ok(()));
    assert_eq!(ours.register(
        b"hits",
        b"Pages \\ served\nso far",
        MetricKind::Counter,
        &names(&["lang", "page"])
    ), Ok(()));
    assert_eq!(String::from_utf8(scrape(&ours)).unwrap(), encoded(&theirs));

    let steps: [(&str, &[(&str, &str)], u64); 6] = [
        ("order_total", &[("product_id", "LAPTOP_1")], 3),
        ("order_total", &[("product_id", "say \"hi\"\\\n")], 1),
        ("hits", &[("lang", "en"), ("page", "/")], 10),
        ("order_total", &[("product_id", "LAPTOP_1")], 39),
        ("hits", &[("lang", "de"), ("page", "/caf\u{e9}")], 0),
        ("hits", &[("lang", "en"), ("page", "/")], 18_000_000_000_000),
    ];
    for (name, pairs, amount) in steps {
        let values: Vec<&str> = pairs.iter().map(|(_, v)| *v).collect();
        let counter = if name == "hits" { &hits } else { &orders };
        counter.with_label_values(&values).inc_by(amount);
        ours.apply(&observation(name, MetricKind::Counter, pairs, amount)).unwrap();
    }
    let text = String::from_utf8(scrape(&ours)).unwrap();
    assert!(text.contains("order_total{product_id=\"LAPTOP_1\"} 42\n"));
    // That crate puts the series of a metric in the order of their label
    // values, this library in the order in which they first came.
    let mut ours_sorted: Vec<&str> = text.lines().collect();
    let theirs_text = encoded(&theirs);
    let mut theirs_sorted: Vec<&str> = theirs_text.lines().collect();
    ours_sorted.sort();
    theirs_sorted.sort();
    assert_eq!(ours_sorted, theirs_sorted);
}

#[test]
fn histograms_are_written_as_prometheus_writes_them() {
    let theirs = prometheus::Registry::new();
    let wait = HistogramVec::new(HistogramOpts::new("wait", "Waiting time"), &["a", "b"]).unwrap();
    theirs.register(Box::new(wait.clone())).unwrap();

    let mut ours = Registry::new();
    assert_eq!(
        ours.register(b"wait", b"Waiting time", MetricKind::Histogram, &names(&["a", "b"])),
        Ok(())
    );

    let values: [(u64, f64); 9] = [
        (250_000_000, 0.25),
        (5_000_000, 0.005),
        (5_000_001, 0.005000001),
        (0, 0.0),
        (2_000_000_000, 2.0),
        (10_000_000_000, 10.0),
        (12_500_000_000, 12.5),
        (500_000_000, 0.5),
        (1_000_000_000, 1.0),
    ];
    for (nanos, seconds) in values {
        wait.with_label_values(&["x", "y"]).observe(seconds);
        ours.apply(&observation("wait", MetricKind::Histogram, &[("a", "x"), ("b", "y")], nanos))
            .unwrap();
    }
    let text = String::from_utf8(scrape(&ours)).unwrap();
    assert_eq!(text, encoded(&theirs));
    assert!(text.contains("wait_bucket{a=\"x\",b=\"y\",le=\"0.005\"} 2\n"));
    assert!(text.contains("wait_bucket{a=\"x\",b=\"y\",le=\"+Inf\"} 9\n"));
    assert!(text.contains("wait_count{a=\"x\",b=\"y\"} 9\n"));
}

#[test]
fn the_metrics_of_the_sidecar_are_written_as_prometheus_writes_them() {
    let theirs = prometheus::Registry::new();
    let requests = IntCounterVec::new(
        Opts::new("http_requests_total", "Total HTTP requests"),
        &["path", "method", "status"],
    )
    .unwrap();
    let durations = HistogramVec::new(
        HistogramOpts::new("http_request_duration_seconds", "HTTP request duration in seconds"),
        &["path", "method"],
    )
    .unwrap();
    let orders =
        IntCounterVec::new(Opts::new("order_total", "Total number of orders"), &["product_id"])
            .unwrap();
    theirs.register(Box::new(requests.clone())).unwrap();
    theirs.register(Box::new(durations.clone())).unwrap();
    theirs.register(Box::new(orders.clone())).unwrap();

    let mut ours = metrics_sidecar::listener::init_metrics();
    for (path, method, status, text, seconds) in [
        ("/order", "POST", "200", "0.25", 0.25),
        ("/order", "POST", "200", "1.5", 1.5),
        ("/order", "POST", "500", "0.5", 0.5),
    ] {
        requests.with_label_values(&[path, method, status]).inc();
        durations.with_label_values(&[path, method]).observe(seconds);
        let line = format!(
            "request{{path=\"{path}\",method=\"{method}\",status={status}}} {text}"
        );
        process_metric(&mut ours, &line);
    }
    orders.with_label_values(&["LAPTOP_1"]).inc_by(3);
    process_metric(&mut ours, "order{product_id=\"LAPTOP_1\",quantity=3} 1");

    // The labels of a sample are sorted there and stand as declared here:
    // the samples are the same once their labels are sorted.
    let sorted = |text: &str| -> Vec<String> {
        text.lines()
            .map(|line| match (line.find('{'), line.rfind('}')) {
                (Some(open), Some(close)) if !line.starts_with('#') => {
                    let mut pairs: Vec<&str> = line[open + 1..close].split(',').collect();
                    let bound: Vec<&str> =
                        pairs.iter().filter(|p| p.starts_with("le=")).cloned().collect();
                    pairs.retain(|p| !p.starts_with("le="));
                    pairs.sort();
                    pairs.extend(bound);
                    format!("{}{{{}}}{}", &line[..open], pairs.join(","), &line[close + 1..])
                }
                _ => line.to_string(),
            })
            .collect()
    };
    let text = String::from_utf8(scrape(&ours)).unwrap();
    assert_eq!(sorted(&text), sorted(&encoded(&theirs)));
}

#[test]
fn buckets_fill_as_the_buckets_of_prometheus_do() {
    let theirs = prometheus::Registry::new();
    let wait = HistogramVec::new(HistogramOpts::new("wait", "Waiting time"), &["q"]).unwrap();
    theirs.register(Box::new(wait.clone())).unwrap();
    let mut ours = Registry::new();
    assert_eq!(
        ours.register(b"wait", b"Waiting time", MetricKind::Histogram, &names(&["q"])),
        Ok(())
    );

    let mut seed: u64 = 0x2545f4914f6cdd1d;
    for round in 0..3_000 {
        seed ^= seed << 13;
        seed ^= seed >> 7;
        seed ^= seed << 17;
        // Milliseconds, many of them at a bound or next to one.
        let millis = match round % 3 {
            0 => [5, 10, 25, 50, 100, 250, 500, 1_000, 2_500, 5_000, 10_000][(seed % 11) as usize],
            1 => seed % 12_000,
            _ => (seed % 11) * 1_000 + (seed >> 32) % 3,
        };
        let queue = if seed % 2 == 0 { "a" } else { "b" };
        wait.with_label_values(&[queue]).observe(millis as f64 / 1000.0);
        ours.apply(&observation(
            "wait",
            MetricKind::Histogram,
            &[("q", queue)],
            millis * 1_000_000,
        ))
        .unwrap();
    }
    // Sums are added up there in floating point and here in whole
    // nanoseconds, and do not always come to the same digits.
    let without_sums = |text: &str| -> Vec<String> {
        let mut lines: Vec<String> =
            text.lines().filter(|l| !l.starts_with("wait_sum")).map(String::from).collect();
        lines.sort();
        lines
    };
    let text = String::from_utf8(scrape(&ours)).unwrap();
    assert_eq!(without_sums(&text), without_sums(&encoded(&theirs)));
    assert_eq!(text.lines().count(), 2 + 2 * 14);
}
