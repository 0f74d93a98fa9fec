use serial_bridge::reader::{on_publish, on_read, ReadOutcome, ReaderStep, READ_BUFFER_SIZE};

#[test]
fn bytes_are_published_exactly() {
    let mut buf = [0u8; READ_BUFFER_SIZE];
    buf[..4].copy_from_slice(b"abcd");
    match on_read(&buf, ReadOutcome::Bytes(3)) {
        ReaderStep::Publish(c) => assert_eq!(c, b"abc".to_vec()),
        other => panic!("unexpected step {other:?}"),
    }
}

#[test]
fn full_buffer_is_published_whole() {
    let buf = [7u8; READ_BUFFER_SIZE];
    match on_read(&buf, ReadOutcome::Bytes(READ_BUFFER_SIZE)) {
        ReaderStep::Publish(c) => assert_eq!(c, vec![7u8; READ_BUFFER_SIZE]),
        other => panic!("unexpected step {other:?}"),
    }
}

#[test]
fn timeout_produces_no_chunk_and_goes_on() {
    let buf = [1u8; READ_BUFFER_SIZE];
    assert!(matches!(on_read(&buf, ReadOutcome::TimedOut), ReaderStep::Retry));
}

#[test]
fn empty_read_produces_no_chunk() {
    let buf = [1u8; READ_BUFFER_SIZE];
    assert!(matches!(on_read(&buf, ReadOutcome::Bytes(0)), ReaderStep::Retry));
}

#[test]
fn failed_read_stops_the_reader() {
    let buf = [1u8; READ_BUFFER_SIZE];
    assert!(matches!(on_read(&buf, ReadOutcome::Failed), ReaderStep::Stop));
}

#[test]
fn refused_publish_stops_the_reader() {
    assert!(on_publish(true));
    assert!(!on_publish(false));
}

#[test]
fn run_of_reads_publishes_payloads_in_order() {
    let reads: Vec<(&[u8], ReadOutcome)> = vec![
        (b"ab", ReadOutcome::Bytes(2)),
        (b"zz", ReadOutcome::TimedOut),
        (b"cde", ReadOutcome::Bytes(1)),
        (b"q", ReadOutcome::Bytes(0)),
        (b"fg", ReadOutcome::Bytes(2)),
        (b"hh", ReadOutcome::Failed),
        (b"ii", ReadOutcome::Bytes(2)),
    ];
    let mut published = Vec::new();
    for (buf, outcome) in reads {
        match on_read(buf, outcome) {
            ReaderStep::Publish(c) => published.push(c),
            ReaderStep::Retry => {}
            ReaderStep::Stop => break,
        }
    }
    assert_eq!(published, vec![b"ab".to_vec(), b"c".to_vec(), b"fg".to_vec()]);
}
