use metrics_procession::chunk::Chunk;
use metrics_procession::event::{Entry, Event, Op};
use metrics_procession::iter::{Metric, MetricRef};
use metrics_procession::key::MetricKey;
use metrics_procession::procession::Procession;
use metrics_procession::timestamp::Timestamp;
use time::{Date, Duration, OffsetDateTime, Time};

fn stamp(at: OffsetDateTime) -> Timestamp {
    Timestamp {
        nanos: at.unix_timestamp_nanos(),
    }
}

fn moment(at: Timestamp) -> OffsetDateTime {
    OffsetDateTime::from_unix_timestamp_nanos(at.nanos).unwrap()
}

fn create_test_time() -> OffsetDateTime {
    OffsetDateTime::new_utc(
        Date::from_calendar_date(2025, time::Month::January, 1).unwrap(),
        Time::from_hms(12, 0, 0).unwrap(),
    )
}

#[test]
fn test_procession_creation() {
    let procession = Procession::default();
    assert!(procession.chunks.is_empty());
    assert!(procession.labels.is_empty());
    assert_eq!(procession.memory_size(), std::mem::size_of::<Procession>());
}

#[test]
fn test_ensure_label() {
    let mut procession = Procession::default();
    let key = MetricKey::from_name("test_metric");

    let id = procession.ensure_label(&key);
    assert_eq!(id, 0);
    assert_eq!(procession.labels.len(), 1);

    // Ensure same key returns same ID
    let id2 = procession.ensure_label(&key);
    assert_eq!(id, id2);
    assert_eq!(procession.labels.len(), 1);
}

#[test]
fn test_insert_entry_creates_chunk() {
    let mut procession = Procession::default();
    assert!(procession.chunks.is_empty());

    procession.insert_entry(
        Entry::Counter {
            value: 1,
            op: Op::Add,
        },
        0,
    );

    assert_eq!(procession.chunks.len(), 1);
    assert_eq!(procession.chunks[0].events.len(), 1);
}

#[test]
fn test_last_chunk_and_ms() {
    let mut procession = Procession::default();
    let test_time = stamp(create_test_time());

    // First call should create a chunk
    {
        let (chunk, _ms) = procession.last_chunk_and_ms(test_time);
        // Add an event to the chunk
        chunk.push(Event {
            entry: Entry::Counter {
                value: 1,
                op: Op::Add,
            },
            ms: 0,
            label: 0,
        });
    }

    assert_eq!(procession.chunks.len(), 1);

    // Second call with same time should return same chunk
    {
        let (chunk2, _ms2) = procession.last_chunk_and_ms(test_time);
        assert_eq!(chunk2.events.len(), 1);
    }

    assert_eq!(procession.chunks.len(), 1);
}

#[test]
fn test_chunk_rollover() {
    let mut procession = Procession::default();

    // Create initial chunk - it will use current time
    let (_, _) = procession.last_chunk_and_ms(stamp(OffsetDateTime::now_utc()));
    assert_eq!(procession.chunks.len(), 1);
    let first_chunk_time = moment(procession.chunks[0].reference_time);

    // Time far in the future should create new chunk
    let future_time = first_chunk_time + Duration::milliseconds(i64::from(u16::MAX) + 1);
    procession.last_chunk_and_ms(stamp(future_time));
    assert_eq!(procession.chunks.len(), 2);
}

#[test]
fn procession_test_memory_size_calculation() {
    let mut procession = Procession::default();
    let initial_size = procession.memory_size();

    // Add some labels and events
    let key = MetricKey::from_parts("test", &[("env", "prod")]);
    let label_id = procession.ensure_label(&key);

    procession.insert_entry(
        Entry::Counter {
            value: 1,
            op: Op::Add,
        },
        label_id,
    );
    procession.insert_entry(
        Entry::Gauge {
            value: 100.0f32.to_bits(),
            op: Op::Overwrite,
        },
        label_id,
    );

    let final_size = procession.memory_size();
    assert!(final_size > initial_size);
}

#[test]
fn test_iterator_methods() {
    let mut procession = Procession::default();

    // Add some test data
    let key1 = MetricKey::from_name("counter");
    let key2 = MetricKey::from_name("gauge");
    let id1 = procession.ensure_label(&key1);
    let id2 = procession.ensure_label(&key2);

    procession.insert_entry(
        Entry::Counter {
            value: 5,
            op: Op::Add,
        },
        id1,
    );
    procession.insert_entry(
        Entry::Gauge {
            value: 25.5f32.to_bits(),
            op: Op::Overwrite,
        },
        id2,
    );

    // Test borrowed iterator
    let ref_events: Vec<MetricRef> = procession.iter().collect();
    assert_eq!(ref_events.len(), 2);

    // Test owned iterator
    let owned_events: Vec<Metric> = procession.iter_owned().collect();
    assert_eq!(owned_events.len(), 2);

    // They should have equivalent data
    for (owned, borrowed) in owned_events.iter().zip(ref_events.iter()) {
        assert_eq!(*owned, *borrowed);
    }
}

#[test]
fn test_from_iterator_metric() {
    let base_time = create_test_time();
    let metrics = vec![
        Metric {
            when: stamp(base_time),
            event: Entry::Counter {
                value: 1,
                op: Op::Add,
            },
            key: "test".to_string(),
            labels: vec![("env".to_string(), "prod".to_string())],
        },
        Metric {
            when: stamp(base_time + Duration::milliseconds(100)),
            event: Entry::Gauge {
                value: 50.0f32.to_bits(),
                op: Op::Overwrite,
            },
            key: "test2".to_string(),
            labels: vec![],
        },
    ];

    let procession: Procession = Procession::from_iter(&metrics);

    // Both metrics have close timestamps, so they should be in same chunk
    assert!(!procession.chunks.is_empty());
    assert_eq!(procession.labels.len(), 2);

    let events: Vec<MetricRef> = procession.iter().collect();
    assert_eq!(events.len(), 2);

    // the events are placed by the instants that they carry
    assert_eq!(procession.chunks.len(), 1);
    assert_eq!(procession.chunks[0].reference_time, stamp(base_time));
    assert_eq!(procession.chunks[0].events[0].ms, 0);
    assert_eq!(procession.chunks[0].events[1].ms, 100);
    assert_eq!(events[1].when, stamp(base_time + Duration::milliseconds(100)));
}

#[test]
fn test_from_iterator_metric_ref() {
    let mut source_procession = Procession::default();

    // Add test data to source
    let key = MetricKey::from_name("source_metric");
    let label_id = source_procession.ensure_label(&key);
    source_procession.insert_entry(
        Entry::Histogram {
            value: 123.45f32.to_bits(),
        },
        label_id,
    );

    // Collect refs and build new procession
    let metric_refs: Vec<MetricRef> = source_procession.iter().collect();
    let new_procession: Procession = Procession::from_iter_ref(&metric_refs);
    assert_eq!(new_procession, source_procession);
}

#[test]
fn test_multiple_chunks_over_time() {
    let mut procession = Procession::default();
    let base_time = create_test_time();

    // Insert events at different times to force multiple chunks
    for i in 0..5 {
        let event_time = base_time + Duration::hours(i);
        let (chunk, _) = procession.last_chunk_and_ms(stamp(event_time));
        chunk.push(Event {
            entry: Entry::Counter {
                value: i as u32,
                op: Op::Add,
            },
            ms: 0,
            label: 0,
        });
    }

    // Should have multiple chunks due to time spacing
    assert!(!procession.chunks.is_empty());
    assert_eq!(procession.chunks.len(), 5);

    // Total events should be preserved
    let all_events: Vec<MetricRef> = procession.iter().collect();
    assert_eq!(all_events.len(), 5);
}

#[test]
fn test_edge_case_timing() {
    let mut procession = Procession::default();

    // Create initial chunk
    let base_time = OffsetDateTime::now_utc();
    let (_, _) = procession.last_chunk_and_ms(stamp(base_time));
    let chunk_ref_time = moment(procession.chunks[0].reference_time);

    // Test exactly at u16::MAX milliseconds boundary
    let boundary_time = chunk_ref_time + Duration::milliseconds(u16::MAX as i64);
    let (_, ms1) = procession.last_chunk_and_ms(stamp(boundary_time));
    assert_eq!(ms1, u16::MAX);

    // One millisecond over should create new chunk
    let over_time = chunk_ref_time + Duration::milliseconds(u16::MAX as i64 + 1);
    let chunks_before = procession.chunks.len();
    let (_, ms2) = procession.last_chunk_and_ms(stamp(over_time));
    let chunks_after = procession.chunks.len();

    assert_eq!(ms2, 0); // New chunk, so 0 offset
    assert_eq!(chunks_after, chunks_before + 1);
}

#[test]
fn first_append_makes_a_chunk_that_counts_from_now() {
    let mut procession = Procession::default();
    let now = Timestamp { nanos: 1_000_000_007 };
    let entry = Entry::Counter {
        value: 9,
        op: Op::Add,
    };
    procession.insert_entry_at(entry, 3, now);
    assert_eq!(procession.chunks.len(), 1);
    assert_eq!(procession.chunks[0].reference_time, now);
    assert_eq!(
        procession.chunks[0].events,
        vec![Event {
            entry,
            ms: 0,
            label: 3
        }]
    );
}

#[test]
fn offsets_are_whole_milliseconds_since_the_reference_time() {
    let mut procession = Procession::default();
    let entry = Entry::Counter {
        value: 1,
        op: Op::Add,
    };
    let start: i128 = 5_000_000_000;
    procession.insert_entry_at(entry, 0, Timestamp { nanos: start });
    procession.insert_entry_at(entry, 0, Timestamp { nanos: start + 999_999 });
    procession.insert_entry_at(entry, 0, Timestamp { nanos: start + 1_000_000 });
    procession.insert_entry_at(entry, 0, Timestamp { nanos: start + 1_234_567_890 });
    procession.insert_entry_at(entry, 0, Timestamp { nanos: start + 65_535_000_000 });
    let ms: Vec<u16> = procession.chunks[0].events.iter().map(|e| e.ms).collect();
    assert_eq!(ms, vec![0, 0, 1, 1234, 65535]);
    assert_eq!(procession.chunks.len(), 1);

    // one nanosecond past the window starts the next chunk
    procession.insert_entry_at(entry, 0, Timestamp { nanos: start + 65_535_000_001 });
    assert_eq!(procession.chunks.len(), 2);
    assert_eq!(procession.chunks[1].reference_time.nanos, start + 65_535_000_001);
    assert_eq!(procession.chunks[1].events[0].ms, 0);
}

#[test]
fn a_clock_that_went_back_is_recorded_at_the_end_of_the_window() {
    let mut procession = Procession::default();
    let entry = Entry::Counter {
        value: 1,
        op: Op::Add,
    };
    let start: i128 = 5_000_000_000;
    procession.insert_entry_at(entry, 0, Timestamp { nanos: start });
    // less than a millisecond back counts as no time at all
    procession.insert_entry_at(entry, 0, Timestamp { nanos: start - 999_999 });
    // a millisecond or more back cannot be told in 16 bits
    procession.insert_entry_at(entry, 0, Timestamp { nanos: start - 1_000_000 });
    procession.insert_entry_at(entry, 0, Timestamp { nanos: i128::MIN });
    let ms: Vec<u16> = procession.chunks[0].events.iter().map(|e| e.ms).collect();
    assert_eq!(ms, vec![0, 0, 65535, 65535]);
    assert_eq!(procession.chunks.len(), 1);
}

#[test]
fn instants_at_the_ends_of_the_range_do_not_overflow() {
    let mut procession = Procession::default();
    let entry = Entry::Histogram { value: 0 };
    procession.insert_entry_at(entry, 0, Timestamp { nanos: i128::MIN });
    procession.insert_entry_at(entry, 0, Timestamp { nanos: i128::MAX });
    assert_eq!(procession.chunks.len(), 2);
    procession.insert_entry_at(entry, 0, Timestamp { nanos: i128::MAX - 1 });
    assert_eq!(procession.chunks.len(), 2);
    assert_eq!(procession.chunks[1].events[1].ms, 0);
    let first = Timestamp { nanos: i128::MAX - 5 };
    assert_eq!(first.plus_millis(1), Timestamp { nanos: i128::MAX });
    assert_eq!(first.plus_millis(0), first);
    assert!(Timestamp { nanos: i128::MAX }.beyond_window(Timestamp { nanos: -1 }));
    assert!(!Timestamp { nanos: i128::MIN }.beyond_window(Timestamp { nanos: i128::MAX }));
    assert_eq!(
        Timestamp { nanos: i128::MAX }.offset_since(Timestamp { nanos: i128::MIN }),
        65535
    );
    assert_eq!(
        Timestamp { nanos: i128::MIN }.offset_since(Timestamp { nanos: i128::MAX }),
        65535
    );
    assert_eq!(
        Timestamp { nanos: i128::MIN }.offset_since(Timestamp { nanos: i128::MIN + 999_999 }),
        0
    );
    assert_eq!(
        Timestamp { nanos: 12_000_000 }.plus_millis(65535),
        Timestamp {
            nanos: 65_547_000_000
        }
    );
}

#[test]
fn rebuilding_from_a_walk_gives_the_series_back() {
    let mut source = Procession::default();
    let a = source.ensure_label(&MetricKey::from_parts("a", &[("x", "1")]));
    let b = source.ensure_label(&MetricKey::from_name("b"));
    let start: i128 = 1_700_000_000_000_000_000;
    let counter = Entry::Counter {
        value: 2,
        op: Op::Add,
    };
    let gauge = Entry::Gauge {
        value: 0.5f32.to_bits(),
        op: Op::Sub,
    };
    source.insert_entry_at(counter, a, Timestamp { nanos: start });
    source.insert_entry_at(gauge, b, Timestamp { nanos: start + 3_000_000 });
    source.insert_entry_at(counter, a, Timestamp { nanos: start + 70_000_000_000 });
    source.insert_entry_at(gauge, a, Timestamp { nanos: start + 70_250_000_000 });
    assert_eq!(source.chunks.len(), 2);

    let owned: Vec<Metric> = source.iter_owned().collect();
    let rebuilt = Procession::from_iter(&owned);
    assert_eq!(rebuilt, source);
    assert_eq!(rebuilt.clone(), source);

    let borrowed: Vec<MetricRef> = source.iter().collect();
    assert_eq!(Procession::from_iter_ref(&borrowed), source);
    assert_eq!(Procession::from_iter(&[]), Procession::default());
}

#[test]
fn series_differ_by_chunks_and_by_labels() {
    let mut one = Procession::default();
    let mut two = Procession::default();
    one.chunks.push(Chunk::new(Timestamp { nanos: 1 }));
    assert_ne!(one, two);
    two.chunks.push(Chunk::new(Timestamp { nanos: 2 }));
    assert_ne!(one, two);
    two.chunks[0].reference_time = Timestamp { nanos: 1 };
    assert_eq!(one, two);
    one.ensure_label(&MetricKey::from_name("a"));
    assert_ne!(one, two);
    two.ensure_label(&MetricKey::from_name("a"));
    assert_eq!(one, two);
}
