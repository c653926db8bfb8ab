use metrics_sidecar::histogram::{BUCKETS, Histogram, bound_of};
use metrics_sidecar::registry::{
    ApplyError, Family, Label, MetricKind, MetricObservation, RegisterError, Registry, Series,
    SeriesValue,
};

fn labels(pairs: &[(&str, &str)]) -> Vec<Label> {
    pairs
        .iter()
        .map(|(name, value)| Label {
            name: name.as_bytes().to_vec(),
            value: value.as_bytes().to_vec(),
        })
        .collect()
}

fn counter(name: &str, pairs: &[(&str, &str)], value: u64) -> MetricObservation {
    MetricObservation {
        name: name.as_bytes().to_vec(),
        kind: MetricKind::Counter,
        labels: labels(pairs),
        value,
    }
}

fn timing(name: &str, pairs: &[(&str, &str)], value: u64) -> MetricObservation {
    MetricObservation {
        name: name.as_bytes().to_vec(),
        kind: MetricKind::Histogram,
        labels: labels(pairs),
        value,
    }
}

fn names(all: &[&str]) -> Vec<Vec<u8>> {
    all.iter().map(|n| n.as_bytes().to_vec()).collect()
}

#[test]
fn a_new_registry_is_empty() {
    let registry = Registry::new();
    assert!(registry.snapshot().families.is_empty());
}

#[test]
fn the_first_observation_makes_the_family() {
    let mut registry = Registry::new();
    assert_eq!(registry.apply(&counter("hits", &[("page", "/"), ("lang", "en")], 2)), Ok(()));
    let snapshot = registry.snapshot();
    assert_eq!(
        snapshot.families,
        vec![Family {
            name: b"hits".to_vec(),
            help: vec![],
            kind: MetricKind::Counter,
            label_names: names(&["page", "lang"]),
            series: vec![Series { key: names(&["/", "en"]), value: SeriesValue::Counter(2) }],
        }]
    );
}

#[test]
fn a_counter_adds_what_it_is_given() {
    let mut registry = Registry::new();
    let mut sum = 0;
    for amount in [3u64, 0, 7, 1, 1000, 5] {
        assert_eq!(registry.apply(&counter("hits", &[("page", "/")], amount)), Ok(()));
        sum += amount;
        let snapshot = registry.snapshot();
        assert_eq!(snapshot.families[0].series[0].value, SeriesValue::Counter(sum));
    }
    assert_eq!(sum, 1016);
}

#[test]
fn the_order_of_increments_does_not_matter() {
    let amounts = [5u64, 1, 9, 2, 2, 40];
    let mut forward = Registry::new();
    for amount in amounts {
        forward.apply(&counter("hits", &[("page", "/")], amount)).unwrap();
    }
    let mut backward = Registry::new();
    for amount in amounts.iter().rev() {
        backward.apply(&counter("hits", &[("page", "/")], *amount)).unwrap();
    }
    assert_eq!(forward.snapshot(), backward.snapshot());
    assert_eq!(forward.snapshot().families[0].series[0].value, SeriesValue::Counter(59));
}

#[test]
fn each_label_set_has_its_own_series() {
    let mut registry = Registry::new();
    registry.apply(&counter("hits", &[("page", "/a")], 1)).unwrap();
    registry.apply(&counter("hits", &[("page", "/b")], 10)).unwrap();
    registry.apply(&counter("hits", &[("page", "/a")], 100)).unwrap();
    let snapshot = registry.snapshot();
    assert_eq!(
        snapshot.families[0].series,
        vec![
            Series { key: names(&["/a"]), value: SeriesValue::Counter(101) },
            Series { key: names(&["/b"]), value: SeriesValue::Counter(10) },
        ]
    );
}

#[test]
fn labels_in_another_order_are_the_same_series() {
    let mut registry = Registry::new();
    registry.apply(&counter("hits", &[("page", "/"), ("lang", "en")], 1)).unwrap();
    registry.apply(&counter("hits", &[("lang", "en"), ("page", "/")], 2)).unwrap();
    registry.apply(&counter("hits", &[("lang", "/"), ("page", "en")], 4)).unwrap();
    let snapshot = registry.snapshot();
    assert_eq!(snapshot.families[0].label_names, names(&["page", "lang"]));
    assert_eq!(
        snapshot.families[0].series,
        vec![
            Series { key: names(&["/", "en"]), value: SeriesValue::Counter(3) },
            Series { key: names(&["en", "/"]), value: SeriesValue::Counter(4) },
        ]
    );
}

#[test]
fn the_other_kind_is_a_conflict() {
    let mut registry = Registry::new();
    registry.apply(&counter("hits", &[("page", "/")], 1)).unwrap();
    let before = registry.snapshot();
    assert_eq!(
        registry.apply(&timing("hits", &[("page", "/")], 1)),
        Err(ApplyError::KindConflict)
    );
    assert_eq!(registry.snapshot(), before);

    registry.apply(&timing("wait", &[], 1)).unwrap();
    let before = registry.snapshot();
    assert_eq!(registry.apply(&counter("wait", &[], 1)), Err(ApplyError::KindConflict));
    assert_eq!(registry.snapshot(), before);
}

#[test]
fn other_labels_are_a_mismatch() {
    let mut registry = Registry::new();
    registry.apply(&counter("hits", &[("page", "/"), ("lang", "en")], 1)).unwrap();
    let before = registry.snapshot();
    for pairs in [
        &[("page", "/")][..],
        &[][..],
        &[("page", "/"), ("lang", "en"), ("zone", "eu")][..],
        &[("page", "/"), ("zone", "eu")][..],
    ] {
        assert_eq!(
            registry.apply(&counter("hits", pairs, 1)),
            Err(ApplyError::LabelMismatch),
            "{pairs:?}"
        );
        assert_eq!(registry.snapshot(), before);
    }
}

#[test]
fn a_total_that_does_not_fit_is_refused() {
    let mut registry = Registry::new();
    registry.apply(&counter("hits", &[], u64::MAX - 1)).unwrap();
    assert_eq!(registry.apply(&counter("hits", &[], 2)), Err(ApplyError::Overflow));
    assert_eq!(registry.snapshot().families[0].series[0].value, SeriesValue::Counter(u64::MAX - 1));
    assert_eq!(registry.apply(&counter("hits", &[], 1)), Ok(()));
    assert_eq!(registry.snapshot().families[0].series[0].value, SeriesValue::Counter(u64::MAX));
    assert_eq!(registry.apply(&counter("hits", &[], 1)), Err(ApplyError::Overflow));
    assert_eq!(registry.apply(&counter("hits", &[], 0)), Ok(()));

    registry.apply(&timing("wait", &[], u64::MAX)).unwrap();
    let before = registry.snapshot();
    assert_eq!(registry.apply(&timing("wait", &[], 1)), Err(ApplyError::Overflow));
    assert_eq!(registry.snapshot(), before);
    assert_eq!(registry.apply(&timing("wait", &[], 0)), Ok(()));
}

#[test]
fn families_stand_in_the_order_of_their_names() {
    let mut registry = Registry::new();
    for name in ["m", "z", "a", "mm", "b", "", "a_", "B"] {
        registry.apply(&counter(name, &[], 1)).unwrap();
    }
    let found: Vec<Vec<u8>> = registry.snapshot().families.into_iter().map(|f| f.name).collect();
    assert_eq!(found, names(&["", "B", "a", "a_", "b", "m", "mm", "z"]));
}

#[test]
fn a_registered_family_shows_once_it_has_a_series() {
    let mut registry = Registry::new();
    assert_eq!(
        registry.register(b"hits", b"Pages served", MetricKind::Counter, &names(&["page"])),
        Ok(())
    );
    assert_eq!(
        registry.register(b"hits", b"Again", MetricKind::Histogram, &names(&[])),
        Err(RegisterError::NameTaken)
    );
    assert!(registry.snapshot().families.is_empty());
    assert_eq!(
        registry.apply(&counter("hits", &[("lang", "en")], 1)),
        Err(ApplyError::LabelMismatch)
    );
    assert_eq!(registry.apply(&timing("hits", &[("page", "/")], 1)), Err(ApplyError::KindConflict));
    assert!(registry.snapshot().families.is_empty());
    registry.apply(&counter("hits", &[("page", "/")], 1)).unwrap();
    let snapshot = registry.snapshot();
    assert_eq!(snapshot.families.len(), 1);
    assert_eq!(snapshot.families[0].help, b"Pages served");
    assert_eq!(
        registry.register(b"hits", b"Again", MetricKind::Counter, &names(&["page"])),
        Err(RegisterError::NameTaken)
    );
}

#[test]
fn a_snapshot_is_a_copy() {
    let mut registry = Registry::new();
    registry.apply(&counter("hits", &[], 1)).unwrap();
    let early = registry.snapshot();
    registry.apply(&counter("hits", &[], 1)).unwrap();
    let late = registry.snapshot();
    assert_eq!(early.families[0].series[0].value, SeriesValue::Counter(1));
    assert_eq!(late.families[0].series[0].value, SeriesValue::Counter(2));
    assert_eq!(registry.snapshot(), late);
}

#[test]
fn the_bucket_bounds_grow() {
    let bounds: Vec<u64> = (0..BUCKETS).map(bound_of).collect();
    assert_eq!(
        bounds,
        vec![
            5_000_000,
            10_000_000,
            25_000_000,
            50_000_000,
            100_000_000,
            250_000_000,
            500_000_000,
            1_000_000_000,
            2_500_000_000,
            5_000_000_000,
            10_000_000_000
        ]
    );
}

fn state(h: &Histogram) -> (u64, u64, Vec<u64>) {
    (h.sum(), h.count(), h.buckets().clone())
}

#[test]
fn a_histogram_counts_each_value_in_the_buckets_that_hold_it() {
    let mut h = Histogram::new();
    assert_eq!(state(&h), (0, 0, vec![0; 11]));
    assert!(h.observe(12_300_000));
    assert_eq!(state(&h), (12_300_000, 1, vec![0, 0, 1, 1, 1, 1, 1, 1, 1, 1, 1]));
    assert!(h.observe(5_000_000));
    assert!(h.observe(5_000_001));
    assert!(h.observe(0));
    assert!(h.observe(10_000_000_000));
    assert!(h.observe(10_000_000_001));
    assert_eq!(state(&h), (20_022_300_002, 6, vec![2, 3, 4, 4, 4, 4, 4, 4, 4, 4, 5]));
    assert_eq!(h.duplicate(), h);
    assert_eq!(h.clone(), h);
}

#[test]
fn a_value_at_a_bound_is_in_its_bucket_and_one_beyond_is_not() {
    for i in 0..BUCKETS {
        let mut at = Histogram::new();
        assert!(at.observe(bound_of(i)));
        let mut beyond = Histogram::new();
        assert!(beyond.observe(bound_of(i) + 1));
        for k in 0..BUCKETS {
            assert_eq!(at.buckets()[k], if k >= i { 1 } else { 0 });
            assert_eq!(beyond.buckets()[k], if k > i { 1 } else { 0 });
        }
    }
}

#[test]
fn the_buckets_of_a_histogram_are_cumulative() {
    let mut h = Histogram::new();
    let mut seed: u64 = 12345;
    let mut sum = 0;
    for round in 0..500u64 {
        seed = seed.wrapping_mul(6364136223846793005).wrapping_add(1442695040888963407);
        let value = (seed >> 20) % 20_000_000_000;
        assert!(h.observe(value));
        sum += value;
        assert_eq!(h.count(), round + 1);
        assert_eq!(h.sum(), sum);
        for i in 1..BUCKETS {
            assert!(h.buckets()[i - 1] <= h.buckets()[i]);
        }
        assert!(h.buckets()[BUCKETS - 1] <= h.count());
    }
}

#[test]
fn a_histogram_that_is_full_takes_no_more() {
    let mut h = Histogram::new();
    assert!(h.observe(u64::MAX - 5));
    let before = h.clone();
    assert!(!h.observe(6));
    assert_eq!(h, before);
    assert!(h.observe(5));
    assert_eq!(h.sum(), u64::MAX);
    assert_eq!(h.count(), 2);
    assert!(!h.observe(1));
    assert!(h.observe(0));
    assert_eq!(h.count(), 3);
}

#[test]
fn a_family_takes_observations_by_itself() {
    let mut family = Family::new(b"wait", b"Waiting time", MetricKind::Histogram, &names(&["q"]));
    assert_eq!(family.apply(&timing("ignored", &[("q", "a")], 7_000_000)), Ok(()));
    assert_eq!(family.apply(&timing("wait", &[("q", "a")], 1)), Ok(()));
    assert_eq!(family.apply(&counter("wait", &[("q", "a")], 1)), Err(ApplyError::KindConflict));
    assert_eq!(family.apply(&timing("wait", &[("p", "a")], 1)), Err(ApplyError::LabelMismatch));
    assert_eq!(family.series.len(), 1);
    match &family.series[0].value {
        SeriesValue::Histogram(h) => {
            assert_eq!(state(h), (7_000_001, 2, vec![1, 2, 2, 2, 2, 2, 2, 2, 2, 2, 2]));
        }
        SeriesValue::Counter(_) => panic!("a histogram family holds histograms"),
    }
    assert_eq!(family.duplicate(), family);
}

#[test]
fn a_series_is_found_by_its_name_and_labels() {
    let mut registry = Registry::new();
    assert_eq!(registry.series(b"hits", &labels(&[("page", "/")])), None);
    assert_eq!(registry.total(b"hits", &labels(&[("page", "/")])), 0);
    registry.apply(&counter("hits", &[("page", "/"), ("lang", "en")], 5)).unwrap();
    registry.apply(&counter("hits", &[("lang", "de"), ("page", "/")], 7)).unwrap();
    registry.apply(&timing("wait", &[], 250_000_000)).unwrap();
    let en = labels(&[("page", "/"), ("lang", "en")]);
    let de = labels(&[("page", "/"), ("lang", "de")]);
    assert_eq!(registry.series(b"hits", &en), Some(SeriesValue::Counter(5)));
    assert_eq!(registry.total(b"hits", &en), 5);
    assert_eq!(registry.total(b"hits", &labels(&[("lang", "en"), ("page", "/")])), 5);
    assert_eq!(registry.total(b"hits", &de), 7);
    assert_eq!(registry.total(b"hits", &labels(&[("page", "/"), ("lang", "fr")])), 0);
    assert_eq!(registry.total(b"hits", &labels(&[("page", "/")])), 0);
    assert_eq!(registry.total(b"hit", &en), 0);
    assert_eq!(registry.total(b"wait", &vec![]), 0);
    match registry.series(b"wait", &vec![]) {
        Some(SeriesValue::Histogram(h)) => {
            assert_eq!(state(&h), (250_000_000, 1, vec![0, 0, 0, 0, 0, 1, 1, 1, 1, 1, 1]))
        }
        other => panic!("waiting times are a histogram, not {other:?}"),
    }
}

#[test]
fn increments_of_two_writers_add_up_however_they_are_mixed() {
    let left = [1u64, 2, 3, 4];
    let right = [10u64, 20, 30];
    let page = labels(&[("page", "/")]);
    for mix in 0..(1u32 << 7) {
        if mix.count_ones() != 3 {
            continue;
        }
        let mut registry = Registry::new();
        let (mut l, mut r) = (0, 0);
        for bit in 0..7 {
            let amount = if mix & (1 << bit) != 0 {
                r += 1;
                right[r - 1]
            } else {
                l += 1;
                left[l - 1]
            };
            registry.apply(&counter("hits", &[("page", "/")], amount)).unwrap();
        }
        assert_eq!(registry.total(b"hits", &page), 70);
    }
}

#[test]
fn a_counter_never_goes_down() {
    let mut registry = Registry::new();
    let page = labels(&[("page", "/")]);
    let mut last = 0;
    let steps = [
        counter("hits", &[("page", "/")], 4),
        counter("hits", &[("page", "/other")], 9),
        timing("hits", &[("page", "/")], 1),
        counter("hits", &[], 1),
        counter("hits", &[("page", "/")], u64::MAX),
        counter("other", &[("page", "/")], 3),
        counter("hits", &[("page", "/")], 0),
        counter("hits", &[("page", "/")], 2),
    ];
    for step in steps {
        let _ = registry.apply(&step);
        let total = registry.total(b"hits", &page);
        assert!(total >= last);
        last = total;
    }
    assert_eq!(last, 6);
}

#[test]
fn a_label_that_comes_twice_is_refused() {
    let mut registry = Registry::new();
    assert_eq!(
        registry.apply(&counter("hits", &[("page", "/"), ("page", "/x")], 1)),
        Err(ApplyError::DuplicateLabel)
    );
    assert!(registry.snapshot().families.is_empty());
    registry.apply(&counter("hits", &[("page", "/"), ("lang", "en")], 1)).unwrap();
    let before = registry.snapshot();
    for pairs in [
        &[("page", "/"), ("page", "/")][..],
        &[("lang", "en"), ("page", "/"), ("lang", "en")][..],
    ] {
        assert_eq!(registry.apply(&counter("hits", pairs, 1)), Err(ApplyError::DuplicateLabel));
        assert_eq!(registry.snapshot(), before);
    }
    assert_eq!(
        registry.register(b"wait", b"", MetricKind::Histogram, &names(&["q", "r", "q"])),
        Err(RegisterError::DuplicateLabel)
    );
    assert_eq!(
        registry.register(b"hits", b"", MetricKind::Histogram, &names(&["q", "q"])),
        Err(RegisterError::DuplicateLabel)
    );
    assert_eq!(
        registry.register(b"wait", b"", MetricKind::Histogram, &names(&["q", "r"])),
        Ok(())
    );
    assert_eq!(registry.snapshot(), before);
}
