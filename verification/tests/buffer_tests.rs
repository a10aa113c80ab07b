use plottypus::buffer::{Sample, WindowBuffer, RETAIN_FLOOR, WINDOW_MAX_MS, WINDOW_MIN_MS};

fn sample(elapsed_ms: u64, value: f64) -> Sample {
    Sample { elapsed_ms, value_bits: value.to_bits() }
}

fn times(buf: &WindowBuffer) -> Vec<u64> {
    buf.snapshot().iter().map(|s| s.elapsed_ms).collect()
}

#[test]
fn new_buffer_is_empty_with_default_window() {
    let buf = WindowBuffer::new();
    assert_eq!(buf.len(), 0);
    assert_eq!(buf.window_ms(), 10_000);
    assert!(buf.snapshot().is_empty());
}

#[test]
fn window_scenario_evicts_old_samples() {
    // window of 10 s, samples at 0,1,...,15 s: after the append at 15 s
    // only the samples in [5 s, 15 s] remain.
    let mut buf = WindowBuffer::new();
    for t in 0..=15u64 {
        buf.append(sample(t * 1000, t as f64));
    }
    let expect: Vec<u64> = (5..=15u64).map(|t| t * 1000).collect();
    assert_eq!(times(&buf), expect);
}

#[test]
fn window_invariant_after_each_append() {
    let mut buf = WindowBuffer::new();
    buf.set_window_length_ms(4_000);
    let steps: [u64; 7] = [0, 100, 4_200, 4_300, 9_000, 9_001, 50_000];
    for (i, t) in steps.iter().enumerate() {
        buf.append(sample(*t, i as f64));
        let snap = buf.snapshot();
        let latest = snap.last().unwrap().elapsed_ms;
        assert!(
            snap.len() <= RETAIN_FLOOR
                || snap.iter().all(|s| latest - s.elapsed_ms <= buf.window_ms())
        );
    }
}

#[test]
fn eviction_never_goes_below_floor() {
    let mut buf = WindowBuffer::new();
    buf.set_window_length_ms(WINDOW_MIN_MS);
    buf.append(sample(0, 1.0));
    buf.append(sample(100_000, 2.0));
    buf.append(sample(200_000, 3.0));
    // both early samples fall far outside the window, yet the floor of two
    // most recent points is kept
    assert_eq!(times(&buf), vec![100_000, 200_000]);
}

#[test]
fn values_round_trip_through_the_buffer() {
    let mut buf = WindowBuffer::new();
    buf.append(sample(0, -2.75));
    buf.append(sample(1, f64::INFINITY));
    let snap = buf.snapshot();
    assert_eq!(f64::from_bits(snap[0].value_bits), -2.75);
    assert_eq!(f64::from_bits(snap[1].value_bits), f64::INFINITY);
}

#[test]
fn window_length_is_clamped() {
    let mut buf = WindowBuffer::new();
    buf.set_window_length_ms(1_000);
    assert_eq!(buf.window_ms(), WINDOW_MIN_MS);
    buf.set_window_length_ms(999_999);
    assert_eq!(buf.window_ms(), WINDOW_MAX_MS);
    buf.set_window_length_ms(50_000);
    assert_eq!(buf.window_ms(), 50_000);
}

#[test]
fn shrinking_the_window_takes_effect_on_next_append() {
    let mut buf = WindowBuffer::new();
    for t in 0..=8u64 {
        buf.append(sample(t * 1000, 0.0));
    }
    assert_eq!(times(&buf).len(), 9);
    buf.set_window_length_ms(4_000);
    // no retroactive trim
    assert_eq!(times(&buf).len(), 9);
    buf.append(sample(9_000, 0.0));
    let expect: Vec<u64> = (5..=9u64).map(|t| t * 1000).collect();
    assert_eq!(times(&buf), expect);
}

#[test]
fn clear_keeps_window_length() {
    let mut buf = WindowBuffer::new();
    buf.set_window_length_ms(42_000);
    buf.append(sample(0, 1.0));
    buf.clear();
    assert_eq!(buf.len(), 0);
    assert_eq!(buf.window_ms(), 42_000);
}
