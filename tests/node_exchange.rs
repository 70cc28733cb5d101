use quorum_proxy::exchange::{decode_response, Action, Event, Exchange, FailureKind, NodeOutcome, Phase};

fn connected(request_len: usize) -> Exchange {
    let (mut ex, first) = Exchange::new(request_len);
    assert_eq!(first, Action::Connect);
    assert_eq!(ex.phase, Phase::Connecting);
    let _ = ex.step(Event::Connected);
    ex
}

#[test]
fn full_exchange_with_chunked_request() {
    let (mut ex, first) = Exchange::new(2500);
    assert_eq!(first, Action::Connect);
    assert_eq!(ex.step(Event::Connected), Action::Write { start: 0, end: 1024 });
    assert_eq!(ex.step(Event::ChunkWritten), Action::Write { start: 1024, end: 2048 });
    assert_eq!(ex.step(Event::ChunkWritten), Action::Write { start: 2048, end: 2500 });
    assert_eq!(ex.step(Event::ChunkWritten), Action::Read);
    assert_eq!(
        ex.step(Event::Received(b"{\"v\":1}".to_vec())),
        Action::Finish(NodeOutcome::Response("{\"v\":1}".to_string()))
    );
    assert!(ex.is_finished());
}

#[test]
fn empty_request_goes_straight_to_reading() {
    let (mut ex, _) = Exchange::new(0);
    assert_eq!(ex.step(Event::Connected), Action::Read);
    assert_eq!(
        ex.step(Event::Received(Vec::new())),
        Action::Finish(NodeOutcome::Response(String::new()))
    );
}

#[test]
fn exact_chunk_request_writes_one_block() {
    let mut ex = connected(1024);
    assert_eq!(ex.phase, Phase::Sending { sent: 0 });
    assert_eq!(ex.step(Event::ChunkWritten), Action::Read);
}

#[test]
fn response_over_several_reads() {
    let mut ex = connected(0);
    let full = vec![b'a'; 1024];
    assert_eq!(ex.step(Event::Received(full)), Action::Read);
    assert_eq!(ex.received.len(), 1024);
    let expected = format!("{}xyz", "a".repeat(1024));
    assert_eq!(
        ex.step(Event::Received(b"xyz".to_vec())),
        Action::Finish(NodeOutcome::Response(expected))
    );
}

#[test]
fn full_block_then_close_ends_response() {
    let mut ex = connected(5);
    assert_eq!(ex.step(Event::ChunkWritten), Action::Read);
    assert_eq!(ex.step(Event::Received(vec![b'b'; 1024])), Action::Read);
    assert_eq!(
        ex.step(Event::Received(Vec::new())),
        Action::Finish(NodeOutcome::Response("b".repeat(1024)))
    );
}

#[test]
fn invalid_address_fails() {
    let (mut ex, _) = Exchange::new(3);
    assert_eq!(
        ex.step(Event::InvalidAddress),
        Action::Finish(NodeOutcome::Failure(FailureKind::InvalidAddress))
    );
    assert!(ex.is_finished());
}

#[test]
fn connect_timeout_fails() {
    let (mut ex, _) = Exchange::new(3);
    assert_eq!(
        ex.step(Event::ConnectTimedOut),
        Action::Finish(NodeOutcome::Failure(FailureKind::ConnectTimeout))
    );
}

#[test]
fn connect_refused_fails() {
    let (mut ex, _) = Exchange::new(3);
    assert_eq!(
        ex.step(Event::ConnectFailed),
        Action::Finish(NodeOutcome::Failure(FailureKind::ConnectFailed))
    );
}

#[test]
fn write_error_fails() {
    let mut ex = connected(3000);
    assert_eq!(ex.step(Event::ChunkWritten), Action::Write { start: 1024, end: 2048 });
    assert_eq!(
        ex.step(Event::WriteFailed),
        Action::Finish(NodeOutcome::Failure(FailureKind::SendFailed))
    );
}

#[test]
fn read_error_fails() {
    let mut ex = connected(0);
    assert_eq!(ex.step(Event::Received(vec![0u8; 1024])), Action::Read);
    assert_eq!(
        ex.step(Event::ReceiveFailed),
        Action::Finish(NodeOutcome::Failure(FailureKind::ReceiveFailed))
    );
}

#[test]
fn invalid_utf8_fails() {
    let mut ex = connected(0);
    assert_eq!(
        ex.step(Event::Received(vec![0xff, 0xfe, b'a'])),
        Action::Finish(NodeOutcome::Failure(FailureKind::EncodingFailed))
    );
}

#[test]
fn decode_keeps_multibyte_text() {
    assert_eq!(
        decode_response("h\u{e9}llo \u{1f600}".as_bytes().to_vec()),
        NodeOutcome::Response("h\u{e9}llo \u{1f600}".to_string())
    );
    assert_eq!(
        decode_response(vec![0xc3]),
        NodeOutcome::Failure(FailureKind::EncodingFailed)
    );
}

#[test]
fn accepts_only_events_of_the_phase() {
    let (mut ex, _) = Exchange::new(10);
    assert!(ex.accepts(&Event::Connected));
    assert!(!ex.accepts(&Event::ChunkWritten));
    assert!(!ex.accepts(&Event::Received(Vec::new())));
    let _ = ex.step(Event::Connected);
    assert!(ex.accepts(&Event::ChunkWritten));
    assert!(ex.accepts(&Event::WriteFailed));
    assert!(!ex.accepts(&Event::Connected));
    let _ = ex.step(Event::ChunkWritten);
    assert!(ex.accepts(&Event::Received(vec![0u8; 1024])));
    assert!(!ex.accepts(&Event::Received(vec![0u8; 1025])));
    assert!(ex.accepts(&Event::ReceiveFailed));
    let _ = ex.step(Event::ReceiveFailed);
    assert!(!ex.accepts(&Event::ReceiveFailed));
}
