use pixelsort::pipeline::use_image_encoder;
use pixelsort::pipeline::worker_count;
use pixelsort::pipeline::worker_gate_step;
use pixelsort::pipeline::ExtractAction;
use pixelsort::pipeline::Extractor;
use pixelsort::pipeline::ReadEvent;
use pixelsort::pipeline::Sink;
use pixelsort::pipeline::WorkerAction;
use pixelsort::pipeline::PRODUCER_CHANNEL_CAPACITY;

#[test]
fn extraction_numbers_frames_from_zero() {
    let mut e = Extractor::new();
    assert_eq!(e.on_event(true, &ReadEvent::Frame), ExtractAction::Publish(0));
    assert_eq!(e.on_event(true, &ReadEvent::Frame), ExtractAction::Publish(1));
    assert_eq!(e.on_event(true, &ReadEvent::Frame), ExtractAction::Publish(2));
    assert_eq!(e.next_seq, 3);
}

#[test]
fn extraction_stops_on_end_of_stream() {
    let mut e = Extractor::new();
    assert_eq!(e.on_event(true, &ReadEvent::Frame), ExtractAction::Publish(0));
    assert_eq!(e.on_event(true, &ReadEvent::Eof), ExtractAction::Stop);
    assert_eq!(e.next_seq, 1);
}

#[test]
fn extraction_reports_read_failures() {
    let mut e = Extractor::new();
    assert_eq!(e.on_event(true, &ReadEvent::Failed), ExtractAction::Fail);
}

#[test]
fn cancelled_extraction_stops_whatever_arrives() {
    let mut e = Extractor::new();
    assert_eq!(e.on_event(false, &ReadEvent::Frame), ExtractAction::Stop);
    assert_eq!(e.on_event(false, &ReadEvent::Eof), ExtractAction::Stop);
    assert_eq!(e.on_event(false, &ReadEvent::Failed), ExtractAction::Stop);
    // The cancelled stage assigned no sequence number.
    assert_eq!(e.next_seq, 0);
}

#[test]
fn gate_admits_only_the_due_sequence_number() {
    assert_eq!(worker_gate_step(true, 4, 4), WorkerAction::Publish);
    assert_eq!(worker_gate_step(true, 4, 5), WorkerAction::Wait);
    assert_eq!(worker_gate_step(true, 4, 3), WorkerAction::Wait);
}

#[test]
fn cancelled_worker_aborts_instead_of_spinning() {
    assert_eq!(worker_gate_step(false, 0, 5), WorkerAction::Abort);
    assert_eq!(worker_gate_step(false, 5, 5), WorkerAction::Abort);
}

#[test]
fn sink_consumes_in_strict_sequence_order() {
    let mut s = Sink::new(3);
    assert!(s.wants_more(true));
    assert!(!s.accept(1));
    assert!(!s.accept(2));
    assert!(s.accept(0));
    assert_eq!(s.gate, 1);
    assert!(!s.accept(0));
    assert!(s.accept(1));
    assert!(s.accept(2));
    assert_eq!(s.gate, 3);
    assert!(s.is_complete());
    assert!(!s.wants_more(true));
    // Nothing beyond the expected count is consumed.
    assert!(!s.accept(3));
}

#[test]
fn cancelled_sink_wants_no_more_frames() {
    let s = Sink::new(10);
    assert!(!s.wants_more(false));
}

#[test]
fn sink_with_nothing_expected_is_complete_at_once() {
    let s = Sink::new(0);
    assert!(s.is_complete());
    assert!(!s.wants_more(true));
}

#[test]
fn worker_pool_reserves_two_threads_and_keeps_one_worker() {
    assert_eq!(worker_count(0), 1);
    assert_eq!(worker_count(1), 1);
    assert_eq!(worker_count(2), 1);
    assert_eq!(worker_count(3), 1);
    assert_eq!(worker_count(4), 2);
    assert_eq!(worker_count(8), 6);
}

#[test]
fn still_image_path_for_single_frame_or_gif() {
    assert!(use_image_encoder(1, &b"out.mp4".to_vec()));
    assert!(use_image_encoder(5, &b"loop.gif".to_vec()));
    assert!(!use_image_encoder(5, &b"out.mp4".to_vec()));
    assert!(!use_image_encoder(5, &b"gif".to_vec()));
    assert!(use_image_encoder(2, &b".gif".to_vec()));
}

#[test]
fn producer_channel_is_a_tight_backpressure_point() {
    assert_eq!(PRODUCER_CHANNEL_CAPACITY, 1);
}
