use serial_bridge::writer::{writer_next, WriterEvent, WriterState};

#[test]
fn written_chunk_streams() {
    assert_eq!(writer_next(WriterState::Connected, WriterEvent::Written), WriterState::Streaming);
    assert_eq!(writer_next(WriterState::Streaming, WriterEvent::Written), WriterState::Streaming);
}

#[test]
fn write_failure_closes() {
    assert_eq!(writer_next(WriterState::Streaming, WriterEvent::WriteFailed), WriterState::Closed);
    assert_eq!(writer_next(WriterState::Connected, WriterEvent::WriteFailed), WriterState::Closed);
}

#[test]
fn channel_close_closes() {
    assert_eq!(writer_next(WriterState::Streaming, WriterEvent::ChannelClosed), WriterState::Closed);
    assert!(writer_next(WriterState::Connected, WriterEvent::ChannelClosed).is_closed());
}

#[test]
fn closed_never_reopens() {
    for e in [WriterEvent::Written, WriterEvent::WriteFailed, WriterEvent::ChannelClosed] {
        assert_eq!(writer_next(WriterState::Closed, e), WriterState::Closed);
    }
    assert!(!WriterState::Streaming.is_closed());
}

#[test]
fn writer_run_ends_at_first_failure() {
    let events = [
        WriterEvent::Written,
        WriterEvent::Written,
        WriterEvent::WriteFailed,
        WriterEvent::Written,
    ];
    let mut state = WriterState::Connected;
    let mut states = Vec::new();
    for e in events {
        state = writer_next(state, e);
        states.push(state);
    }
    assert_eq!(
        states,
        vec![WriterState::Streaming, WriterState::Streaming, WriterState::Closed, WriterState::Closed]
    );
}
