use metrics_procession::event::{Entry, Op};
use metrics_procession::iter::MetricRef;
use metrics_procession::key::MetricKey;
use metrics_procession::procession::Procession;
use metrics_procession::recorder::{
    write_counter, write_counter_at, Counter, Gauge, Histo, ProcessionRecorder,
};
use metrics_procession::timestamp::Timestamp;

#[test]
fn install_and_emit() {
    let recorder = ProcessionRecorder::default();
    let ct = recorder.register_counter(&MetricKey::from_name("one_counter"));
    let ct2 = recorder.register_counter(&MetricKey::from_parts(
        "with_label",
        &[("label", "this-one")],
    ));
    let g = recorder.register_gauge(&MetricKey::from_name("one_gauge"));
    let g2 = recorder.register_gauge(&MetricKey::from_parts(
        "with_labels",
        &[("label1", "value1"), ("label2", "value2")],
    ));
    let h = recorder.register_histogram(&MetricKey::from_name("one_histo"));
    let h2 = recorder.register_histogram(&MetricKey::from_parts(
        "with_label",
        &[("tid", "ThreadId(1)")],
    ));

    for i in 0..1000 {
        ct.increment(1);
        ct2.increment(2);
        g.set((i as f64 as f32).to_bits());
        g2.set(((i / 2) as f64 as f32).to_bits());
        h.record((i as f64 as f32).to_bits());
        h2.record(((i / 2) as f64 as f32).to_bits());
    }
    let procession = recorder.lock();
    assert_eq!(procession.labels.len(), 6);
    assert_eq!(procession.iter().collect().len(), 6000);
}

#[test]
fn counters_with_different_labels_are_told_apart() {
    let recorder = ProcessionRecorder::default();
    let first = recorder.register_counter(&MetricKey::from_parts(
        "http_requests_total",
        &[("method", "GET"), ("status", "200")],
    ));
    for _ in 0..3 {
        assert!(first.increment(1));
    }
    let second = recorder.register_counter(&MetricKey::from_parts(
        "http_requests_total",
        &[("method", "POST"), ("status", "201")],
    ));
    assert!(second.increment(1));

    let procession = recorder.lock();
    let events: Vec<MetricRef> = procession.iter().collect();
    assert_eq!(events.len(), 4);
    assert_eq!(procession.labels.len(), 2);
    assert_eq!(first.label(), 0);
    assert_eq!(second.label(), 1);
    let add_one = Entry::Counter {
        value: 1,
        op: Op::Add,
    };
    let of_first: Vec<&MetricRef> = events
        .iter()
        .filter(|e| {
            e.key
                .labels()
                .contains(&("method".to_string(), "GET".to_string()))
        })
        .collect();
    assert_eq!(of_first.len(), 3);
    for event in of_first {
        assert_eq!(event.event, add_one);
        assert_eq!(event.key.name(), "http_requests_total");
    }
    assert_eq!(events[3].event, add_one);
    assert_eq!(
        events[3].key.labels(),
        &[
            ("method".to_string(), "POST".to_string()),
            ("status".to_string(), "201".to_string())
        ]
    );
}

#[test]
fn gauge_writes_are_recorded_as_given() {
    let recorder = ProcessionRecorder::default();
    let gauge = recorder.register_gauge(&MetricKey::from_name("test_gauge"));
    gauge.set(50.0f32.to_bits());
    gauge.increment(10.0f32.to_bits());
    gauge.decrement(5.0f32.to_bits());
    gauge.set(75.0f32.to_bits());

    let procession = recorder.lock();
    let entries: Vec<Entry> = procession.iter().collect().iter().map(|e| e.event).collect();
    assert_eq!(
        entries,
        vec![
            Entry::Gauge {
                value: 50.0f32.to_bits(),
                op: Op::Overwrite
            },
            Entry::Gauge {
                value: 10.0f32.to_bits(),
                op: Op::Add
            },
            Entry::Gauge {
                value: 5.0f32.to_bits(),
                op: Op::Sub
            },
            Entry::Gauge {
                value: 75.0f32.to_bits(),
                op: Op::Overwrite
            },
        ]
    );
}

#[test]
fn a_counter_value_that_does_not_fit_is_dropped() {
    let recorder = ProcessionRecorder::default();
    let counter = recorder.register_counter(&MetricKey::from_name("large_values"));
    assert!(!counter.increment(u64::MAX));
    assert!(!counter.absolute(u32::MAX as u64 + 1));
    assert!(!counter.insert(1 << 40, Op::Add));
    assert!(recorder.lock().chunks.is_empty());
    assert_eq!(recorder.lock().iter().collect().len(), 0);
    assert_eq!(Counter::entry(u64::MAX, Op::Add), None);

    // the handle is still good
    assert!(counter.increment(1));
    {
        let procession = recorder.lock();
        let events: Vec<MetricRef> = procession.iter().collect();
        assert_eq!(events.len(), 1);
        assert_eq!(
            events[0].event,
            Entry::Counter {
                value: 1,
                op: Op::Add
            }
        );
    }

    // the largest value that fits is kept as it is
    assert!(counter.absolute(u32::MAX as u64));
    assert_eq!(
        recorder.lock().iter().collect()[1].event,
        Entry::Counter {
            value: u32::MAX,
            op: Op::Overwrite
        }
    );
    assert_eq!(
        Counter::entry(7, Op::Overwrite),
        Some(Entry::Counter {
            value: 7,
            op: Op::Overwrite
        })
    );
}

#[test]
fn counter_writes_at_given_instants() {
    let mut series = Procession::default();
    let label = series.ensure_label(&MetricKey::from_name("c"));
    assert!(write_counter_at(&mut series, label, 5, Op::Add, Timestamp { nanos: 0 }));
    assert!(write_counter_at(
        &mut series,
        label,
        6,
        Op::Overwrite,
        Timestamp { nanos: 2_500_000 }
    ));
    assert!(!write_counter_at(
        &mut series,
        label,
        1 << 32,
        Op::Add,
        Timestamp { nanos: 3_000_000 }
    ));
    assert!(!write_counter(&mut series, label, u64::MAX, Op::Overwrite));
    let events: Vec<MetricRef> = series.iter().collect();
    assert_eq!(events.len(), 2);
    assert_eq!(events[1].when, Timestamp { nanos: 2_000_000 });
    assert_eq!(
        events[1].event,
        Entry::Counter {
            value: 6,
            op: Op::Overwrite
        }
    );
    assert_eq!(series.chunks[0].events[1].ms, 2);
    assert!(write_counter(&mut series, label, 9, Op::Add));
    assert_eq!(series.iter().collect().len(), 3);
}

#[test]
fn histograms_record_every_sample() {
    let recorder = ProcessionRecorder::default();
    let histogram = recorder.register_histogram(&MetricKey::from_name("test_histogram"));
    histogram.record(1.5f32.to_bits());
    histogram.record(1.5f32.to_bits());
    histogram.record(f32::NAN.to_bits());
    let procession = recorder.lock();
    let entries: Vec<Entry> = procession.iter().collect().iter().map(|e| e.event).collect();
    assert_eq!(
        entries,
        vec![
            Entry::Histogram {
                value: 1.5f32.to_bits()
            },
            Entry::Histogram {
                value: 1.5f32.to_bits()
            },
            Entry::Histogram {
                value: f32::NAN.to_bits()
            },
        ]
    );
}

#[test]
fn registering_a_key_again_gives_the_same_id() {
    let recorder = ProcessionRecorder::default();
    let a = recorder.register_gauge(&MetricKey::from_parts("g", &[("a", "1"), ("b", "2")]));
    let b = recorder.register_gauge(&MetricKey::from_parts("g", &[("b", "2"), ("a", "1")]));
    let c = recorder.register_histogram(&MetricKey::from_name("h"));
    assert_eq!(a.label(), 0);
    assert_eq!(b.label(), 0);
    assert_eq!(c.label(), 1);
    assert_eq!(recorder.register(&MetricKey::from_name("h")), 1);
    assert_eq!(recorder.lock().labels.len(), 2);
}

#[test]
fn clones_of_a_recorder_share_one_series() {
    let recorder = ProcessionRecorder::default();
    let other = recorder.clone();
    let counter = other.register_counter(&MetricKey::from_name("shared"));
    counter.increment(3);
    recorder.insert_entry(Entry::Histogram { value: 0 }, counter.label());
    assert_eq!(recorder.lock().iter().collect().len(), 2);
    assert_eq!(other.lock().iter().collect().len(), 2);
    assert_eq!(recorder.memory_size(), other.memory_size());
    assert!(recorder.memory_size() > ProcessionRecorder::default().memory_size());
}

#[test]
fn a_handle_writes_to_its_recorder_under_its_id() {
    let recorder = ProcessionRecorder::default();
    let other = ProcessionRecorder::default();
    let id = recorder.register(&MetricKey::from_name("first"));
    let second = recorder.register(&MetricKey::from_name("second"));
    assert_eq!((id, second), (0, 1));

    let counter = Counter::new(second, recorder.clone());
    let gauge = Gauge::new(id, recorder.clone());
    let histogram = Histo::new(7, recorder.clone());
    assert_eq!(counter.label(), 1);
    assert_eq!(gauge.label(), 0);
    assert_eq!(histogram.label(), 7);
    assert!(counter.increment(4));
    gauge.set(2.5f32.to_bits());
    histogram.record(1.0f32.to_bits());

    assert!(other.lock().chunks.is_empty());
    let series = recorder.lock();
    let events: Vec<MetricRef> = series.iter().collect();
    assert_eq!(events.len(), 3);
    assert_eq!(events[0].key.name(), "second");
    assert_eq!(
        events[0].event,
        Entry::Counter {
            value: 4,
            op: Op::Add
        }
    );
    assert_eq!(events[1].key.name(), "first");
    assert_eq!(
        events[1].event,
        Entry::Gauge {
            value: 2.5f32.to_bits(),
            op: Op::Overwrite
        }
    );
    assert_eq!(events[2].key.name(), "");
}

#[test]
fn the_estimate_of_a_recorder_is_that_of_its_series() {
    let recorder = ProcessionRecorder::default();
    assert_eq!(recorder.memory_size(), std::mem::size_of::<Procession>());
    recorder
        .register_counter(&MetricKey::from_parts("requests", &[("env", "prod")]))
        .increment(1);
    let expected = recorder.lock().memory_size();
    assert_eq!(recorder.memory_size(), expected);
    assert!(expected > std::mem::size_of::<Procession>());
}
