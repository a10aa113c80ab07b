use plottypus::session::Session;

#[test]
fn fresh_session_is_idle_and_empty() {
    let mut session = Session::new();
    assert!(!session.is_running());
    assert_eq!(session.window_length_ms(), 10_000);
    assert!(session.poll().is_empty());
}

#[test]
fn start_twice_observes_the_same_as_once() {
    let mut session = Session::new();
    let first = session.start(true);
    assert!(first.is_some());
    assert!(session.is_running());
    let second = session.start(true);
    assert!(second.is_none());
    assert!(session.is_running());
    assert!(session.poll().is_empty());
    assert!(session.stop());
}

#[test]
fn stop_twice_is_safe_and_second_is_noop() {
    let mut session = Session::new();
    assert!(session.start(true).is_some());
    assert!(session.stop());
    assert!(!session.is_running());
    assert!(!session.stop());
    assert!(!session.is_running());
}

#[test]
fn start_without_target_stays_idle() {
    let mut session = Session::new();
    assert!(session.start(false).is_none());
    assert!(!session.is_running());
    assert!(!session.stop());
}

#[test]
fn polled_values_arrive_in_send_order() {
    let mut session = Session::new();
    let tx = session.start(true).unwrap();
    for v in [1.5f64, -2.0, 300.25] {
        tx.send(v.to_bits()).unwrap();
    }
    let snap = session.poll();
    let values: Vec<f64> = snap.iter().map(|s| f64::from_bits(s.value_bits)).collect();
    assert_eq!(values, vec![1.5, -2.0, 300.25]);
    for pair in snap.windows(2) {
        assert!(pair[0].elapsed_ms <= pair[1].elapsed_ms);
    }
    assert!(session.stop());
}

#[test]
fn dead_producer_yields_no_samples_and_stop_completes() {
    // the producer end goes away without ever sending (as when opening the
    // connection target fails): polling stays empty, nothing hangs, and
    // stop still works
    let mut session = Session::new();
    let tx = session.start(true).unwrap();
    drop(tx);
    assert!(session.poll().is_empty());
    assert!(session.poll().is_empty());
    assert!(session.is_running());
    assert!(session.stop());
    assert!(!session.is_running());
}

#[test]
fn starting_a_new_cycle_clears_old_samples() {
    let mut session = Session::new();
    let tx = session.start(true).unwrap();
    tx.send(7.0f64.to_bits()).unwrap();
    assert_eq!(session.poll().len(), 1);
    assert!(session.stop());
    // samples stay readable after stop
    assert_eq!(session.poll().len(), 1);
    let tx2 = session.start(true).unwrap();
    assert!(session.poll().is_empty());
    drop(tx2);
    assert!(session.stop());
}

#[test]
fn ingest_stamps_monotonically() {
    let mut session = Session::new();
    let _tx = session.start(true).unwrap();
    session.ingest(5, 1.0f64.to_bits());
    // a clock reading that went backwards is clamped forward
    session.ingest(3, 2.0f64.to_bits());
    session.ingest(9, 3.0f64.to_bits());
    let snap = session.poll();
    let times: Vec<u64> = snap.iter().map(|s| s.elapsed_ms).collect();
    assert_eq!(times, vec![5, 5, 9]);
    assert!(session.stop());
}

#[test]
fn ingest_while_idle_is_a_noop() {
    let mut session = Session::new();
    session.ingest(5, 1.0f64.to_bits());
    assert!(session.poll().is_empty());
}

#[test]
fn session_window_is_clamped_and_enforced() {
    let mut session = Session::new();
    session.set_window_length_ms(1);
    assert_eq!(session.window_length_ms(), 4_000);
    let _tx = session.start(true).unwrap();
    for t in 0..=10u64 {
        session.ingest(t * 1000, (t as f64).to_bits());
    }
    let times: Vec<u64> = session.poll().iter().map(|s| s.elapsed_ms).collect();
    let expect: Vec<u64> = (6..=10u64).map(|t| t * 1000).collect();
    assert_eq!(times, expect);
    assert!(session.stop());
}
