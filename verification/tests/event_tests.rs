use metrics_procession::event::{Entry, Event, Op};

#[test]
fn test_event_creation() {
    let event = Event {
        entry: Entry::Counter {
            value: 42,
            op: Op::Add,
        },
        ms: 1500,
        label: 123,
    };

    assert_eq!(event.ms, 1500);
    assert_eq!(event.label, 123);
    let Entry::Counter { value, op } = event.entry else {
        panic!("Expected counter entry")
    };
    assert_eq!(value, 42);
    assert_eq!(op, Op::Add);
}

#[test]
fn test_entry_types() {
    let counter_entry = Entry::Counter {
        value: 100,
        op: Op::Overwrite,
    };
    assert!(matches!(counter_entry, Entry::Counter { .. }));

    let gauge_entry = Entry::Gauge {
        value: 25.5f32.to_bits(),
        op: Op::Sub,
    };
    assert!(matches!(gauge_entry, Entry::Gauge { .. }));

    let histogram_entry = Entry::Histogram {
        value: 99.9f32.to_bits(),
    };
    assert!(matches!(histogram_entry, Entry::Histogram { .. }));
}

#[test]
fn test_op_types() {
    assert_eq!(Op::Add, Op::Add);
    assert_eq!(Op::Sub, Op::Sub);
    assert_eq!(Op::Overwrite, Op::Overwrite);

    assert_ne!(Op::Add, Op::Sub);
    assert_ne!(Op::Sub, Op::Overwrite);
    assert_ne!(Op::Overwrite, Op::Add);
}

#[test]
fn test_event_copy_trait() {
    let event = Event {
        entry: Entry::Histogram {
            value: 42.0f32.to_bits(),
        },
        ms: 1000,
        label: 1,
    };

    let copied_event = event;
    assert_eq!(event, copied_event);

    assert_eq!(event.ms, 1000);
}
