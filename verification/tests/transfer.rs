use waterci_core::net::{ExecutorMessage, ExecutorStatus};
use waterci_core::transfer::{
    executor_from_received, incoming_from_received,
    write_result, ReadOutcome, ReadStep, ReceiveBuffer, WriteError, WriteOutcome, RECEIVE_BUFFER_SIZE,
};

#[test]
fn reads_accumulate() {
    let mut b = ReceiveBuffer::new();
    assert_eq!(b.capacity(), RECEIVE_BUFFER_SIZE);
    assert_eq!(b.spare(), 4096);
    assert_eq!(b.take_outcome(ReadOutcome::Bytes(3), b"abcdef"), ReadStep::Continue);
    assert_eq!(b.take_outcome(ReadOutcome::Interrupted, b""), ReadStep::Continue);
    assert_eq!(b.take_outcome(ReadOutcome::Bytes(2), b"xy"), ReadStep::Continue);
    assert_eq!(b.received_len(), 5);
    assert_eq!(b.spare(), 4091);
    assert_eq!(b.take_outcome(ReadOutcome::WouldBlock, b""), ReadStep::Finished);
    assert_eq!(b.into_bytes(), b"abcxy".to_vec());
}

#[test]
fn end_of_stream_and_failure() {
    let mut b = ReceiveBuffer::new();
    assert_eq!(b.take_outcome(ReadOutcome::Bytes(0), b"zz"), ReadStep::Finished);
    assert_eq!(b.take_outcome(ReadOutcome::Failed, b""), ReadStep::Failed);
    assert_eq!(b.received_len(), 0);
    assert!(b.into_bytes().is_empty());
}

#[test]
fn full_buffer_doubles() {
    let mut b = ReceiveBuffer::new();
    let chunk = vec![7u8; 4096];
    assert_eq!(b.take_outcome(ReadOutcome::Bytes(4000), &chunk), ReadStep::Continue);
    assert_eq!(b.capacity(), 4096);
    assert_eq!(b.spare(), 96);
    assert_eq!(b.take_outcome(ReadOutcome::Bytes(96), &chunk), ReadStep::Continue);
    assert_eq!(b.capacity(), 8192);
    assert_eq!(b.spare(), 4096);
    let bytes = b.into_bytes();
    assert_eq!(bytes.len(), 4096);
    assert!(bytes.iter().all(|x| *x == 7));
}

#[test]
fn write_results() {
    assert_eq!(write_result(10, WriteOutcome::Written(10)), Ok(()));
    assert_eq!(write_result(10, WriteOutcome::Written(4)), Err(WriteError::WriteZero));
    assert_eq!(write_result(0, WriteOutcome::Written(0)), Ok(()));
    assert_eq!(write_result(10, WriteOutcome::WouldBlock), Ok(()));
    assert_eq!(write_result(10, WriteOutcome::Failed), Err(WriteError::Failed));
}

#[test]
fn received_bytes_meaning() {
    assert_eq!(incoming_from_received(b"", None), None);
    assert_eq!(executor_from_received::<String>(b"", Err("bad".to_string())), Ok(None));
    assert_eq!(
        executor_from_received::<String>(b"x", Ok(ExecutorMessage::ExecutorRegister)),
        Ok(Some(ExecutorMessage::ExecutorRegister))
    );
    assert_eq!(executor_from_received::<String>(b"x", Err("bad".to_string())), Err("bad".to_string()));
    assert_eq!(
        executor_from_received::<String>(b"", Ok(ExecutorMessage::ExecutorStatusResponse(ExecutorStatus::Busy))),
        Ok(None)
    );
    assert_eq!(incoming_from_received(b"junk", None), None);
}

#[test]
fn split_reads_give_the_same_bytes() {
    let data: Vec<u8> = (0..10000u32).map(|i| (i % 251) as u8).collect();
    let mut one = ReceiveBuffer::new();
    let mut pos = 0;
    while pos < data.len() {
        let n = one.spare().min(data.len() - pos);
        assert_eq!(one.take_outcome(ReadOutcome::Bytes(n), &data[pos..pos + n]), ReadStep::Continue);
        pos += n;
    }
    let mut two = ReceiveBuffer::new();
    let mut pos = 0;
    while pos < data.len() {
        let n = 7.min(two.spare()).min(data.len() - pos);
        assert_eq!(two.take_outcome(ReadOutcome::Interrupted, b""), ReadStep::Continue);
        assert_eq!(two.take_outcome(ReadOutcome::Bytes(n), &data[pos..pos + n]), ReadStep::Continue);
        pos += n;
    }
    assert_eq!(one.take_outcome(ReadOutcome::Bytes(0), b""), ReadStep::Finished);
    assert_eq!(two.take_outcome(ReadOutcome::WouldBlock, b""), ReadStep::Finished);
    assert_eq!(one.into_bytes(), data);
    assert_eq!(two.into_bytes(), data);
}
