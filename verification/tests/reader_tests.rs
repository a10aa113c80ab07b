use plottypus::reader::{producer_step, ProducerAction, ReadEvent};

#[test]
fn fresh_data_is_decoded_and_forwarded() {
    let action = producer_step(ReadEvent::Data(b"abc\n12.5\n-3.0e2\n".to_vec()));
    match action {
        ProducerAction::Forward(lines) => {
            assert_eq!(lines, vec![b"12.5".to_vec(), b"-3.0e2".to_vec()]);
        }
        _ => panic!("fresh data must be forwarded"),
    }
}

#[test]
fn a_timeout_pauses_and_retries() {
    assert!(matches!(producer_step(ReadEvent::TimedOut), ProducerAction::Pause));
}

#[test]
fn a_read_failure_stops_the_producer() {
    assert!(matches!(producer_step(ReadEvent::Failed), ProducerAction::Stop));
}

#[test]
fn unusable_data_forwards_nothing() {
    let action = producer_step(ReadEvent::Data(b"\xff\xfe\n".to_vec()));
    match action {
        ProducerAction::Forward(lines) => assert!(lines.is_empty()),
        _ => panic!("data must be forwarded, even when nothing decodes"),
    }
}
