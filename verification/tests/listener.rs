use metrics_sidecar::encoder::scrape;
use metrics_sidecar::listener::{
    MAX_PACKET, Outcome, apply_all, init_metrics, observations, process_metric, process_packet,
};
use metrics_sidecar::codec::MetricLine;
use metrics_sidecar::registry::{
    ApplyError, Label, MetricKind, MetricObservation, RegisterError, Registry, SeriesValue,
};
use metrics_sidecar::wire::ParseError;

fn text(bytes: Vec<u8>) -> String {
    String::from_utf8(bytes).unwrap()
}

fn label(name: &str, value: &str) -> Label {
    Label { name: name.as_bytes().to_vec(), value: value.as_bytes().to_vec() }
}

#[test]
fn a_request_stands_for_a_count_and_a_duration() {
    let line = MetricLine::Request {
        path: b"/order".to_vec(),
        method: b"POST".to_vec(),
        status: b"200".to_vec(),
        duration: 12_300_000,
    };
    assert_eq!(
        observations(&line),
        Some(vec![
            MetricObservation {
                name: b"http_requests_total".to_vec(),
                kind: MetricKind::Counter,
                labels: vec![
                    label("path", "/order"),
                    label("method", "POST"),
                    label("status", "200"),
                ],
                value: 1,
            },
            MetricObservation {
                name: b"http_request_duration_seconds".to_vec(),
                kind: MetricKind::Histogram,
                labels: vec![label("path", "/order"), label("method", "POST")],
                value: 12_300_000,
            },
        ])
    );
}

#[test]
fn an_order_stands_for_a_count_of_its_quantity() {
    let line = MetricLine::Order { product_id: b"LAPTOP_1".to_vec(), quantity: 3 };
    assert_eq!(
        observations(&line),
        Some(vec![MetricObservation {
            name: b"order_total".to_vec(),
            kind: MetricKind::Counter,
            labels: vec![label("product_id", "LAPTOP_1")],
            value: 3,
        }])
    );
    let none = MetricLine::Order { product_id: b"X".to_vec(), quantity: 0 };
    assert_eq!(observations(&none).unwrap()[0].value, 0);
    let down = MetricLine::Order { product_id: b"X".to_vec(), quantity: -1 };
    assert_eq!(observations(&down), None);
    let most = MetricLine::Order { product_id: b"X".to_vec(), quantity: i64::MAX };
    assert_eq!(observations(&most).unwrap()[0].value, 9_223_372_036_854_775_807);
}

#[test]
fn the_sidecar_starts_with_its_three_metrics() {
    let mut registry = init_metrics();
    for name in ["http_requests_total", "http_request_duration_seconds", "order_total"] {
        assert_eq!(
            registry.register(name.as_bytes(), b"", MetricKind::Counter, &vec![]),
            Err(RegisterError::NameTaken)
        );
    }
    assert_eq!(registry.register(b"other", b"", MetricKind::Counter, &vec![]), Ok(()));
    assert!(registry.snapshot().families.is_empty());
}

#[test]
fn each_way_to_drop_a_packet_has_its_outcome() {
    let mut registry = init_metrics();
    let long = vec![b'a'; MAX_PACKET + 1];
    assert_eq!(process_packet(&mut registry, &long), Outcome::Oversized);
    for bytes in [
        &[0xc3, 0x28][..],
        &[0xed, 0xa0, 0x80][..],
        &[0xc0, 0x80][..],
        &[0xf4, 0x90, 0x80, 0x80][..],
        &[0xe2, 0x82][..],
        &[0x80][..],
        b"order{product_id=\"\xff\",quantity=1} 1",
    ] {
        assert_eq!(process_packet(&mut registry, bytes), Outcome::InvalidEncoding, "{bytes:?}");
    }
    assert_eq!(process_packet(&mut registry, b""), Outcome::Malformed(ParseError::BadName));
    assert_eq!(
        process_packet(&mut registry, b"order{product_id=\"X\" quantity=1} 1"),
        Outcome::Malformed(ParseError::BadLabels)
    );
    assert_eq!(
        process_packet(&mut registry, b"order{product_id=\"X\",quantity=1}1"),
        Outcome::Malformed(ParseError::MissingSpace)
    );
    assert_eq!(
        process_packet(&mut registry, b"order{product_id=\"X\",quantity=1} x"),
        Outcome::Malformed(ParseError::BadValue)
    );
    assert_eq!(
        process_packet(&mut registry, b"order{product_id=\"X\",quantity=99999999999999999999} 1"),
        Outcome::Malformed(ParseError::OutOfRange)
    );
    assert_eq!(process_packet(&mut registry, b"cpu{core=\"0\"} 0.5"), Outcome::Unrecognized);
    assert_eq!(
        process_packet(&mut registry, b"order{product_id=\"X\",quantity=-1} 1"),
        Outcome::NegativeIncrement
    );
    assert_eq!(text(scrape(&registry)), "");
}

#[test]
fn a_packet_of_the_longest_length_is_looked_at() {
    let mut registry = init_metrics();
    let mut packet = b"order{product_id=\"".to_vec();
    let tail = b"\",quantity=1} 1";
    packet.resize(MAX_PACKET - tail.len(), b'p');
    packet.extend_from_slice(tail);
    assert_eq!(packet.len(), MAX_PACKET);
    assert_eq!(process_packet(&mut registry, &packet), Outcome::Applied);
    packet.insert(20, b'p');
    assert_eq!(process_packet(&mut registry, &packet), Outcome::Oversized);
}

#[test]
fn text_beyond_ascii_is_taken() {
    let mut registry = init_metrics();
    let packet = "order{product_id=\"caf\u{e9} \u{1F600}\",quantity=2} 1";
    assert_eq!(process_packet(&mut registry, packet.as_bytes()), Outcome::Applied);
    assert_eq!(process_metric(&mut registry, packet), Outcome::Applied);
    assert!(text(scrape(&registry)).contains("order_total{product_id=\"caf\u{e9} \u{1F600}\"} 4\n"));
}

#[test]
fn a_refused_observation_is_left_out_and_the_others_are_applied() {
    let mut registry = Registry::new();
    assert_eq!(
        registry.register(b"http_requests_total", b"", MetricKind::Histogram, &vec![]),
        Ok(())
    );
    let line = "request{path=\"/\",method=\"GET\",status=200} 0.25";
    assert_eq!(process_metric(&mut registry, line), Outcome::Rejected(ApplyError::KindConflict));
    let snapshot = registry.snapshot();
    assert_eq!(snapshot.families.len(), 1);
    assert_eq!(snapshot.families[0].name, b"http_request_duration_seconds");
    match &snapshot.families[0].series[0].value {
        SeriesValue::Histogram(h) => assert_eq!((h.count(), h.sum()), (1, 250_000_000)),
        SeriesValue::Counter(_) => panic!("durations are a histogram"),
    }
}

#[test]
fn the_first_refusal_is_the_one_reported() {
    let mut registry = Registry::new();
    let one = |name: &str, kind: MetricKind, value: u64| MetricObservation {
        name: name.as_bytes().to_vec(),
        kind,
        labels: vec![],
        value,
    };
    let all = vec![
        one("a", MetricKind::Counter, u64::MAX),
        one("a", MetricKind::Counter, 1),
        one("a", MetricKind::Histogram, 1),
        one("b", MetricKind::Counter, 2),
    ];
    assert_eq!(apply_all(&mut registry, &all), Some(ApplyError::Overflow));
    let snapshot = registry.snapshot();
    assert_eq!(snapshot.families.len(), 2);
    assert_eq!(snapshot.families[0].series[0].value, SeriesValue::Counter(u64::MAX));
    assert_eq!(snapshot.families[1].series[0].value, SeriesValue::Counter(2));
    assert_eq!(apply_all(&mut registry, &vec![]), None);
    assert_eq!(apply_all(&mut registry, &vec![one("b", MetricKind::Counter, 1)]), None);
}

#[test]
fn one_corrupt_packet_and_then_valid_ones() {
    for count in [0usize, 1, 2, 25] {
        let mut with = init_metrics();
        let mut without = init_metrics();
        assert_eq!(
            process_packet(&mut with, b"\xffrequest{path=\"/\",method=\"GET\",status=200} 1"),
            Outcome::InvalidEncoding
        );
        let mut applied = 0;
        for i in 0..count {
            let packet = format!(
                "request{{path=\"/p{}\",method=\"GET\",status=200}} 0.{}",
                i % 3,
                i + 1
            );
            if process_packet(&mut with, packet.as_bytes()) == Outcome::Applied {
                applied += 1;
            }
            assert_eq!(process_packet(&mut without, packet.as_bytes()), Outcome::Applied);
        }
        assert_eq!(applied, count);
        assert_eq!(scrape(&with), scrape(&without));
    }
}

#[test]
fn lines_that_are_written_and_read_add_up_to_the_same() {
    let lines = vec![
        MetricLine::Request {
            path: b"/order".to_vec(),
            method: b"POST".to_vec(),
            status: b"200".to_vec(),
            duration: 12_300_000,
        },
        MetricLine::Order { product_id: b"LAPTOP_1".to_vec(), quantity: 3 },
        MetricLine::Request {
            path: b"/order".to_vec(),
            method: b"POST".to_vec(),
            status: b"500".to_vec(),
            duration: 3_000_000_001,
        },
        MetricLine::Order { product_id: b"LAPTOP_1".to_vec(), quantity: 39 },
        MetricLine::Order { product_id: b"LAPTOP_1".to_vec(), quantity: -4 },
    ];
    let mut direct = init_metrics();
    let mut through_text = init_metrics();
    for line in &lines {
        if let Some(all) = observations(line) {
            assert_eq!(apply_all(&mut direct, &all), None);
        }
        let packet = metrics_sidecar::codec::serialize(line);
        process_packet(&mut through_text, &packet);
    }
    assert_eq!(direct.snapshot(), through_text.snapshot());
    let scraped = text(scrape(&direct));
    assert!(scraped.contains("order_total{product_id=\"LAPTOP_1\"} 42\n"));
    assert!(scraped
        .contains("http_request_duration_seconds_sum{path=\"/order\",method=\"POST\"} 3.012300001\n"));
    assert!(scraped
        .contains("http_request_duration_seconds_count{path=\"/order\",method=\"POST\"} 2\n"));
}
