use metrics_procession::chunk::Chunk;
use metrics_procession::event::{Entry, Event, Op};
use metrics_procession::timestamp::Timestamp;
use time::{Date, Duration, OffsetDateTime, Time};

fn stamp(at: OffsetDateTime) -> Timestamp {
    Timestamp {
        nanos: at.unix_timestamp_nanos(),
    }
}

fn moment(at: Timestamp) -> OffsetDateTime {
    OffsetDateTime::from_unix_timestamp_nanos(at.nanos).unwrap()
}

#[test]
fn test_chunk_creation() {
    let reference_time = stamp(OffsetDateTime::new_utc(
        Date::from_calendar_date(2025, time::Month::January, 1).unwrap(),
        Time::from_hms(12, 0, 0).unwrap(),
    ));

    let chunk = Chunk::new(reference_time);
    assert_eq!(chunk.reference_time, reference_time);
    assert!(chunk.events.is_empty());
}

#[test]
fn test_chunk_default() {
    let chunk = Chunk::default();
    assert!(chunk.events.is_empty());
    // Reference time should be close to now (within 1 second)
    let now = OffsetDateTime::now_utc();
    let diff = (now - moment(chunk.reference_time)).abs();
    assert!(diff < Duration::seconds(1));
}

#[test]
fn test_push_events() {
    let mut chunk = Chunk::default();

    let event1 = Event {
        entry: Entry::Counter {
            value: 1,
            op: Op::Add,
        },
        ms: 100,
        label: 1,
    };

    let event2 = Event {
        entry: Entry::Gauge {
            value: 42.5f32.to_bits(),
            op: Op::Overwrite,
        },
        ms: 200,
        label: 2,
    };

    chunk.push(event1);
    chunk.push(event2);

    assert_eq!(chunk.events.len(), 2);
    assert_eq!(chunk.events[0], event1);
    assert_eq!(chunk.events[1], event2);
}

#[test]
fn chunk_test_memory_size_calculation() {
    let mut chunk = Chunk::default();
    let initial_size = chunk.memory_size();

    for i in 0..100 {
        chunk.push(Event {
            entry: Entry::Counter {
                value: i,
                op: Op::Add,
            },
            ms: i as u16,
            label: i as u16,
        });
    }

    let final_size = chunk.memory_size();
    assert!(final_size > initial_size);

    let expected_size = std::mem::size_of::<Chunk>() + (100 * std::mem::size_of::<Event>());
    assert_eq!(final_size, expected_size);
}

#[test]
fn chunk_clone_and_equality() {
    let mut chunk = Chunk::new(Timestamp { nanos: 7 });
    chunk.push(Event {
        entry: Entry::Histogram {
            value: 1.5f32.to_bits(),
        },
        ms: 3,
        label: 4,
    });
    let copy = chunk.clone();
    assert_eq!(chunk, copy);

    let mut longer = chunk.clone();
    longer.push(Event {
        entry: Entry::Histogram {
            value: 1.5f32.to_bits(),
        },
        ms: 3,
        label: 4,
    });
    assert_ne!(chunk, longer);

    let mut other_time = chunk.clone();
    other_time.reference_time = Timestamp { nanos: 8 };
    assert_ne!(chunk, other_time);

    let mut other_event = Chunk::new(Timestamp { nanos: 7 });
    other_event.push(Event {
        entry: Entry::Histogram {
            value: 1.5f32.to_bits(),
        },
        ms: 3,
        label: 5,
    });
    assert_ne!(chunk, other_event);
}
