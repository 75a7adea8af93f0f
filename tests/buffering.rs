use ping_monitor::buffer::{SampleBuffer, DEFAULT_CAPACITY};
use ping_monitor::measurement::{Latency, Measurement, Timestamp};

fn m(units: u64) -> Measurement {
    Measurement::new(Latency::new(units, 0), Timestamp { millis: units as i64 })
}

#[test]
fn buffer_keeps_last_three_of_four() {
    let mut b = SampleBuffer::new(3);
    for v in [1, 2, 3, 4] {
        b.push(m(v));
    }
    assert_eq!(b.values(), vec![Latency::new(2, 0), Latency::new(3, 0), Latency::new(4, 0)]);
    assert_eq!(b.len(), 3);
}

#[test]
fn buffer_under_capacity_keeps_all() {
    let mut b = SampleBuffer::new(5);
    b.push(m(1));
    b.push(m(2));
    assert_eq!(b.values(), vec![Latency::new(1, 0), Latency::new(2, 0)]);
}

#[test]
fn buffer_starts_empty_with_default_capacity() {
    let b = SampleBuffer::with_default_capacity();
    assert_eq!(b.len(), 0);
    assert_eq!(b.max_capacity(), DEFAULT_CAPACITY);
    assert_eq!(DEFAULT_CAPACITY, 1000);
    assert!(b.values().is_empty());
}

#[test]
fn buffer_absorb_batch_keeps_window() {
    let mut b = SampleBuffer::new(3);
    b.push(m(1));
    b.absorb(vec![m(2), m(3), m(4), m(5)]);
    assert_eq!(b.values(), vec![Latency::new(3, 0), Latency::new(4, 0), Latency::new(5, 0)]);
    b.absorb(vec![]);
    assert_eq!(b.len(), 3);
}

#[test]
fn buffer_capacity_one_keeps_newest() {
    let mut b = SampleBuffer::new(1);
    for v in 0..10 {
        b.push(m(v));
    }
    assert_eq!(b.values(), vec![Latency::new(9, 0)]);
}

#[test]
fn buffer_default_capacity_bounds_length() {
    let mut b = SampleBuffer::with_default_capacity();
    for v in 0..1005 {
        b.push(m(v));
    }
    let vs = b.values();
    assert_eq!(vs.len(), 1000);
    assert_eq!(vs[0], Latency::new(5, 0));
    assert_eq!(vs[999], Latency::new(1004, 0));
}
