use relay::registry::Registry;
use relay::session::{
    handle_frame, handle_frame_enriched, writer_step, Inbound, Outcome, WriterAction,
    WriterEvent, WriterState,
};

#[test]
fn verbatim_text_is_rebroadcast_unchanged() {
    let mut reg = Registry::new();
    let a = reg.connect();
    let b = reg.connect();
    let r = handle_frame(&mut reg, a, Inbound::Text(b"hello".to_vec()));
    assert_eq!(r, Outcome::Broadcast);
    assert_eq!(reg.pop_next(a), Some(b"hello".to_vec()));
    assert_eq!(reg.pop_next(b), Some(b"hello".to_vec()));
}

#[test]
fn binary_frames_are_ignored() {
    let mut reg = Registry::new();
    let a = reg.connect();
    let r = handle_frame(&mut reg, a, Inbound::Binary(vec![1, 2, 3]));
    assert_eq!(r, Outcome::Ignored);
    assert_eq!(reg.pop_next(a), None);
}

#[test]
fn closed_stream_deregisters_exactly_once() {
    let mut reg = Registry::new();
    let a = reg.connect();
    let r = handle_frame(&mut reg, a, Inbound::Closed);
    assert_eq!(r, Outcome::Disconnected);
    assert!(!reg.contains(a));
    // The racing teardown path may run the same step again: still fine.
    let r2 = handle_frame(&mut reg, a, Inbound::Closed);
    assert_eq!(r2, Outcome::Disconnected);
}

#[test]
fn enriched_step_stamps_sender_uid() {
    let mut reg = Registry::new();
    let sender = reg.connect();
    let other = reg.connect();
    assert_eq!(sender, 1);
    let frame = b"{\"name\":\"x\",\"message\":\"hi\",\"uid\":999}".to_vec();
    let r = handle_frame_enriched(&mut reg, sender, Inbound::Text(frame));
    assert_eq!(r, Outcome::Broadcast);
    let delivered = reg.pop_next(other).unwrap();
    assert_eq!(delivered, b"{\"name\":\"x\",\"message\":\"hi\",\"uid\":1}".to_vec());
    // The sender hears its own message back, with the same stamped uid.
    let echoed = reg.pop_next(sender).unwrap();
    assert_eq!(echoed, b"{\"name\":\"x\",\"message\":\"hi\",\"uid\":1}".to_vec());
}

#[test]
fn malformed_frame_is_dropped_and_sender_stays_usable() {
    let mut reg = Registry::new();
    let sender = reg.connect();
    let other = reg.connect();
    let r = handle_frame_enriched(&mut reg, sender, Inbound::Text(b"not json".to_vec()));
    assert_eq!(r, Outcome::DroppedMalformed);
    assert_eq!(reg.pop_next(other), None);
    assert!(reg.contains(sender));
    let r2 = handle_frame_enriched(
        &mut reg,
        sender,
        Inbound::Text(b"{\"message\": 5}".to_vec()),
    );
    assert_eq!(r2, Outcome::DroppedMalformed);
    assert_eq!(reg.pop_next(other), None);
    // A valid frame right after still goes through.
    let r3 = handle_frame_enriched(
        &mut reg,
        sender,
        Inbound::Text(b"{\"name\":\"x\",\"message\":\"ok\"}".to_vec()),
    );
    assert_eq!(r3, Outcome::Broadcast);
    assert_eq!(
        reg.pop_next(other),
        Some(b"{\"name\":\"x\",\"message\":\"ok\",\"uid\":1}".to_vec())
    );
}

#[test]
fn enriched_step_ignores_binary_and_handles_close() {
    let mut reg = Registry::new();
    let a = reg.connect();
    let b = reg.connect();
    let r = handle_frame_enriched(&mut reg, a, Inbound::Binary(vec![0, 159]));
    assert_eq!(r, Outcome::Ignored);
    assert_eq!(reg.pop_next(b), None);
    let r2 = handle_frame_enriched(&mut reg, a, Inbound::Closed);
    assert_eq!(r2, Outcome::Disconnected);
    assert!(!reg.contains(a));
    assert!(reg.contains(b));
}

#[test]
fn writer_follows_drain_close_done() {
    let (s1, a1) = writer_step(WriterState::Draining, WriterEvent::PopReady);
    assert_eq!(s1, WriterState::Draining);
    assert_eq!(a1, WriterAction::Write);
    let (s2, a2) = writer_step(s1, WriterEvent::WriteDone);
    assert_eq!(s2, WriterState::Draining);
    assert_eq!(a2, WriterAction::Pop);
    let (s3, a3) = writer_step(s2, WriterEvent::PopClosed);
    assert_eq!(s3, WriterState::Closing);
    assert_eq!(a3, WriterAction::Close);
    let (s4, a4) = writer_step(s3, WriterEvent::CloseFinished);
    assert_eq!(s4, WriterState::Done);
    assert_eq!(a4, WriterAction::Idle);
}

#[test]
fn writer_abandons_broken_socket_without_retry() {
    let (s, a) = writer_step(WriterState::Draining, WriterEvent::WriteFailed);
    assert_eq!(s, WriterState::Done);
    assert_eq!(a, WriterAction::Idle);
    // Done is final, whatever arrives afterwards.
    let (s2, _) = writer_step(s, WriterEvent::PopReady);
    assert_eq!(s2, WriterState::Done);
    let (s3, _) = writer_step(s2, WriterEvent::WriteDone);
    assert_eq!(s3, WriterState::Done);
}
