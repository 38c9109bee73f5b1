//! Reading a message off a non-blocking connection, and judging a write to one.
//!
//! The socket calls stay with the event loop; it reports each outcome here and
//! does what the answer says.
use vstd::prelude::*;
use crate::net::{ExecutorMessage, IncomingMessage};

verus! {

/// The size a receive buffer starts with.
pub const RECEIVE_BUFFER_SIZE: usize = 4096;

/// What one `read` on a non-blocking connection gave.
#[derive(Debug, Clone, Copy, PartialEq, Eq, Structural)]
pub enum ReadOutcome {
    /// `n` bytes were read (0: the other side closed or is done writing)
    Bytes(usize),
    /// nothing more to read for now
    WouldBlock,
    /// the call was interrupted before it read anything
    Interrupted,
    /// any other error
    Failed,
}

/// What the event loop does next while reading.
#[derive(Debug, Clone, Copy, PartialEq, Eq, Structural)]
pub enum ReadStep {
    /// read again
    Continue,
    /// stop: what was received is complete
    Finished,
    /// stop: the read failed, and its error is the outcome
    Failed,
}

/// The abstract state of a receive buffer.
pub struct ReceiveBufferView {
    /// the bytes received so far
    pub received: Seq<u8>,
    /// the room the buffer has in all
    pub capacity: nat,
}

impl ReceiveBufferView {
    /// What one read outcome does: `Bytes(n)` appends the first `n` bytes of
    /// `chunk` and continues, doubling a buffer it fills (0 bytes: the reading is
    /// finished); a read that would block finishes; an interrupted one is retried;
    /// a failure stops the reading.
    pub open spec fn after(self, outcome: ReadOutcome, chunk: Seq<u8>) -> (ReceiveBufferView, ReadStep) {
        match outcome {
            ReadOutcome::Bytes(n) => if n == 0 {
                (self, ReadStep::Finished)
            } else {
                (
                    ReceiveBufferView {
                        received: self.received + chunk.take(n as int),
                        capacity: if self.received.len() + n == self.capacity {
                            self.capacity * 2
                        } else {
                            self.capacity
                        },
                    },
                    ReadStep::Continue,
                )
            },
            ReadOutcome::WouldBlock => (self, ReadStep::Finished),
            ReadOutcome::Interrupted => (self, ReadStep::Continue),
            ReadOutcome::Failed => (self, ReadStep::Failed),
        }
    }
}

/// The bytes one read outcome brings.
pub open spec fn bytes_of(outcome: ReadOutcome, chunk: Seq<u8>) -> Seq<u8> {
    match outcome {
        ReadOutcome::Bytes(n) => chunk.take(n as int),
        _ => Seq::empty(),
    }
}

/// The read outcomes, each with the buffer it read into, applied in turn.
pub open spec fn read_all(v: ReceiveBufferView, reads: Seq<(ReadOutcome, Seq<u8>)>) -> ReceiveBufferView
    decreases reads.len(),
{
    if reads.len() == 0 {
        v
    } else {
        read_all(v, reads.drop_last()).after(reads.last().0, reads.last().1).0
    }
}

/// All the bytes the reads brought, in order.
pub open spec fn data_of(reads: Seq<(ReadOutcome, Seq<u8>)>) -> Seq<u8>
    decreases reads.len(),
{
    if reads.len() == 0 {
        Seq::empty()
    } else {
        data_of(reads.drop_last()) + bytes_of(reads.last().0, reads.last().1)
    }
}

/// Each read brought no more bytes than its buffer holds.
pub open spec fn well_sized(reads: Seq<(ReadOutcome, Seq<u8>)>) -> bool {
    forall|k: int| 0 <= k < reads.len() ==> ((#[trigger] reads[k]).0 matches ReadOutcome::Bytes(n) ==> n <= reads[k].1.len())
}

/// Whatever the reads and however the bytes are split among them, with any
/// interrupted or blocking reads between: the buffer receives exactly the bytes
/// the reads brought, in order.
pub proof fn lemma_read_all_received(v: ReceiveBufferView, reads: Seq<(ReadOutcome, Seq<u8>)>)
    requires
        well_sized(reads),
    ensures
        read_all(v, reads).received == v.received + data_of(reads),
    decreases reads.len(),
{
    if reads.len() > 0 {
        let init = reads.drop_last();
        assert forall|k: int| 0 <= k < init.len() implies ((#[trigger] init[k]).0 matches ReadOutcome::Bytes(n) ==> n <= init[k].1.len()) by {
            assert(init[k] == reads[k]);
        }
        lemma_read_all_received(v, init);
        let (o, c) = reads.last();
        assert(reads.last() == reads[reads.len() - 1]);
        let r = read_all(v, init);
        match o {
            ReadOutcome::Bytes(n) => {
                if n == 0 {
                    assert(c.take(0) =~= Seq::<u8>::empty());
                    assert(v.received + data_of(init) + c.take(0) =~= v.received + data_of(init));
                }
            },
            _ => {
                assert(v.received + data_of(init) + Seq::<u8>::empty() =~= v.received + data_of(init));
            },
        }
        assert(read_all(v, reads).received =~= v.received + data_of(reads));
    }
}

/// The received bytes depend on the bytes the connection delivered alone, not on
/// how the reads split them: two runs of reads that bring the same bytes leave the
/// same bytes in fresh buffers.
pub proof fn lemma_read_split_independent(
    v: ReceiveBufferView,
    reads1: Seq<(ReadOutcome, Seq<u8>)>,
    reads2: Seq<(ReadOutcome, Seq<u8>)>,
)
    requires
        well_sized(reads1),
        well_sized(reads2),
        data_of(reads1) == data_of(reads2),
    ensures
        read_all(v, reads1).received == read_all(v, reads2).received,
{
    lemma_read_all_received(v, reads1);
    lemma_read_all_received(v, reads2);
}

/// The bytes received from a connection, in a buffer that doubles whenever it
/// fills up, so that a read always has room.
pub struct ReceiveBuffer {
    data: Vec<u8>,
    bytes_read: usize,
}

impl View for ReceiveBuffer {
    type V = ReceiveBufferView;

    closed spec fn view(&self) -> ReceiveBufferView {
        ReceiveBufferView { received: self.data@.take(self.bytes_read as int), capacity: self.data@.len() }
    }
}

impl ReceiveBuffer {
    /// There is always room for one more byte.
    pub closed spec fn wf(&self) -> bool {
        self.bytes_read < self.data@.len()
    }

    /// An empty buffer of `RECEIVE_BUFFER_SIZE` bytes.
    pub fn new() -> (b: ReceiveBuffer)
        ensures
            b.wf(),
            b@.received == Seq::<u8>::empty(),
            b@.capacity == RECEIVE_BUFFER_SIZE,
    {
        let b = ReceiveBuffer { data: vec![0u8; RECEIVE_BUFFER_SIZE], bytes_read: 0 };
        assert(b@.received =~= Seq::<u8>::empty());
        b
    }

    /// How many bytes the next read may bring at most.
    pub fn spare(&self) -> (n: usize)
        requires
            self.wf(),
        ensures
            n == self@.capacity - self@.received.len(),
            n > 0,
    {
        self.data.len() - self.bytes_read
    }

    /// The room the buffer has in all.
    pub fn capacity(&self) -> (n: usize)
        ensures
            n == self@.capacity,
    {
        self.data.len()
    }

    /// How many bytes were received so far.
    pub fn received_len(&self) -> (n: usize)
        requires
            self.wf(),
        ensures
            n == self@.received.len(),
    {
        self.bytes_read
    }

    /// Takes in the outcome of one read, whose bytes (for `Bytes(n)`) are the first
    /// `n` of `chunk`. A read of 0 bytes or one that would block ends the reading,
    /// an interrupted one is retried, a failure ends it with the error. Read bytes
    /// are appended, and a buffer that became full doubles.
    pub fn take_outcome(&mut self, outcome: ReadOutcome, chunk: &[u8]) -> (step: ReadStep)
        requires
            old(self).wf(),
            old(self)@.capacity * 2 <= usize::MAX,
            outcome matches ReadOutcome::Bytes(n) ==> n <= chunk@.len() && n <= old(self)@.capacity
                - old(self)@.received.len(),
        ensures
            final(self).wf(),
            (final(self)@, step) == old(self)@.after(outcome, chunk@),
    {
        match outcome {
            ReadOutcome::Bytes(n) => {
                if n == 0 {
                    return ReadStep::Finished;
                }
                let start = self.bytes_read;
                let mut k: usize = 0;
                while k < n
                    invariant
                        k <= n,
                        n <= chunk@.len(),
                        start + n <= self.data@.len(),
                        self.bytes_read == start,
                        self.data.len() == old(self).data.len(),
                        start + n <= self.data.len(),
                        forall|j: int| 0 <= j < start ==> self.data@[j] == old(self).data@[j],
                        forall|j: int| 0 <= j < k ==> self.data@[start + j] == chunk@[j],
                    decreases n - k,
                {
                    self.data[start + k] = chunk[k];
                    k = k + 1;
                }
                self.bytes_read = start + n;
                proof {
                    assert(self@.received =~= old(self)@.received + chunk@.take(n as int));
                }
                if self.bytes_read == self.data.len() {
                    let ghost before = self.data@;
                    let len = self.data.len();
                    self.data.resize(len * 2, 0);
                    proof {
                        assert(self.data@.subrange(0, len as int) == before);
                        assert(self.data@.take(self.bytes_read as int) =~= before.take(self.bytes_read as int));
                    }
                }
                ReadStep::Continue
            },
            ReadOutcome::WouldBlock => ReadStep::Finished,
            ReadOutcome::Interrupted => ReadStep::Continue,
            ReadOutcome::Failed => ReadStep::Failed,
        }
    }

    /// The bytes received.
    pub fn into_bytes(self) -> (bytes: Vec<u8>)
        requires
            self.wf(),
        ensures
            bytes@ == self@.received,
    {
        let mut data = self.data;
        data.truncate(self.bytes_read);
        data
    }
}

/// What one `write` of a whole message on a non-blocking connection gave.
#[derive(Debug, Clone, Copy, PartialEq, Eq, Structural)]
pub enum WriteOutcome {
    /// `n` bytes were written
    Written(usize),
    /// the connection is not ready for writing
    WouldBlock,
    /// the call was interrupted before it wrote anything
    Interrupted,
    /// any other error
    Failed,
}

/// Why writing a message failed.
#[derive(Debug, Clone, Copy, PartialEq, Eq, Structural)]
pub enum WriteError {
    /// fewer bytes than the message has were written
    WriteZero,
    /// the write itself failed, and its error is the outcome
    Failed,
}

/// Judges the write of a message of `message_len` bytes: a short write is an
/// error, as is a failure; a connection that is not ready leaves the message
/// unwritten without error.
pub fn write_result(message_len: usize, outcome: WriteOutcome) -> (r: Result<(), WriteError>)
    requires
        !(outcome is Interrupted),
    ensures
        match outcome {
            WriteOutcome::Written(n) => if n < message_len {
                r == Err::<(), WriteError>(WriteError::WriteZero)
            } else {
                r is Ok
            },
            WriteOutcome::WouldBlock => r is Ok,
            WriteOutcome::Failed => r == Err::<(), WriteError>(WriteError::Failed),
            WriteOutcome::Interrupted => false,
        },
{
    match outcome {
        WriteOutcome::Written(n) => if n < message_len {
            Err(WriteError::WriteZero)
        } else {
            Ok(())
        },
        WriteOutcome::WouldBlock => Ok(()),
        WriteOutcome::Failed => Err(WriteError::Failed),
        WriteOutcome::Interrupted => Ok(()),
    }
}

/// What the bytes read from a source of build requests mean, given what parsing
/// them gave: no bytes, or bytes that are no message, mean that the connection is
/// over (`None`).
pub fn incoming_from_received(received: &[u8], parsed: Option<IncomingMessage>) -> (r: Option<IncomingMessage>)
    ensures
        r == if received@.len() == 0 {
            None
        } else {
            parsed
        },
{
    if received.len() == 0 {
        None
    } else {
        parsed
    }
}

/// What the bytes read from an executor mean, given what parsing them gave: no
/// bytes mean that the connection is over (`Ok(None)`); bytes that are no message
/// are an error.
pub fn executor_from_received<E>(received: &[u8], parsed: Result<ExecutorMessage, E>) -> (r: Result<
    Option<ExecutorMessage>,
    E,
>)
    ensures
        received@.len() == 0 ==> r == Ok::<Option<ExecutorMessage>, E>(None),
        received@.len() > 0 ==> match parsed {
            Ok(m) => r == Ok::<Option<ExecutorMessage>, E>(Some(m)),
            Err(e) => r == Err::<Option<ExecutorMessage>, E>(e),
        },
{
    if received.len() == 0 {
        Ok(None)
    } else {
        match parsed {
            Ok(m) => Ok(Some(m)),
            Err(e) => Err(e),
        }
    }
}

} // verus!
