//! The scheduler: it receives build requests, keeps them in a queue and hands them
//! out to the executors that report themselves available.
//!
//! The scheduler does no I/O. The event loop that owns the sockets tells it what
//! happened (a connection was accepted, a message was read, a message was written)
//! and does what the answer asks (watch a connection for reading or for writing,
//! write a message, drop a connection).
use vstd::prelude::*;
use std::collections::VecDeque;
use crate::net::{BuildRequestFromRepo, ExecutorMessage, ExecutorStatus, IncomingMessage};

verus! {

/// Token of the listener on which sources of build requests connect.
pub const INCOMING_SERVER: usize = 0;

/// Token of the listener on which executors connect.
pub const EXECUTOR_SERVER: usize = 1;

/// What a connection is watched for.
#[derive(Debug, Clone, Copy, PartialEq, Eq, Structural)]
pub enum Interest {
    Readable,
    Writable,
}

/// A request to the poller: watch the connection of `token` for `interest`.
#[derive(Debug, Clone, Copy, PartialEq, Eq, Structural)]
pub struct Registration {
    pub token: usize,
    pub interest: Interest,
}

/// What the event loop does after the scheduler handled an event of a connection.
#[derive(Debug, Clone, Copy, PartialEq, Eq, Structural)]
pub enum Reaction {
    /// nothing more
    Nothing,
    /// watch the connection for the given interest from now on
    Reregister(Interest),
    /// the connection is over: call `Core::close` once the event is handled
    Close,
}

/// Whom an event's token belongs to.
#[derive(Debug, Clone, Copy, PartialEq, Eq, Structural)]
pub enum Route {
    IncomingListener,
    ExecutorListener,
    IncomingConnection,
    ExecutorConnection,
    Unknown,
}

/// What to do when an executor's connection can be written to.
#[derive(Debug, Clone, PartialEq, Eq)]
pub enum WriteStep {
    /// nothing is pending for this executor
    Idle,
    /// the pending job went back to the front of the queue: the executor is not
    /// available; nothing more is done for this event
    Requeued,
    /// write this message to the executor, then call `Core::finish_write`
    Send(ExecutorMessage),
}

/// One hand-out of a token from the counter `current`: the token handed out, and
/// the counter after.
pub open spec fn next_step(current: nat) -> (nat, nat) {
    (current, current + 1)
}

/// The tokens that `k` successive hand-outs give from the counter `current`, in
/// order, and the counter after them.
pub open spec fn next_calls(current: nat, k: nat) -> (Seq<nat>, nat)
    decreases k,
{
    if k == 0 {
        (Seq::empty(), current)
    } else {
        let (tokens, c) = next_calls(current, (k - 1) as nat);
        (tokens.push(next_step(c).0), next_step(c).1)
    }
}

/// Successive hand-outs from a counter: the `j`-th gives `current + j`, so they
/// strictly increase and no two are equal; the counter ends at `current + k`.
/// Started as the core starts it, at `EXECUTOR_SERVER + 1`, they give 2, 3, ...,
/// `k + 1`, never the token of a listener.
pub proof fn lemma_successive_tokens(current: nat, k: nat)
    ensures
        next_calls(current, k).0.len() == k,
        next_calls(current, k).1 == current + k,
        forall|j: int| 0 <= j < k ==> #[trigger] next_calls(current, k).0[j] == current + j,
        forall|i: int, j: int| 0 <= i < j < k ==> #[trigger] next_calls(current, k).0[i] < #[trigger] next_calls(current, k).0[j],
        current == EXECUTOR_SERVER + 1 ==> forall|j: int| 0 <= j < k ==> {
            &&& #[trigger] next_calls(current, k).0[j] == j + 2
            &&& next_calls(current, k).0[j] != INCOMING_SERVER
            &&& next_calls(current, k).0[j] != EXECUTOR_SERVER
        },
    decreases k,
{
    if k > 0 {
        lemma_successive_tokens(current, (k - 1) as nat);
        let prev = next_calls(current, (k - 1) as nat).0;
        let now = next_calls(current, k).0;
        assert forall|j: int| 0 <= j < k implies #[trigger] now[j] == current + j by {
            if j < k - 1 {
                assert(now[j] == prev[j]);
            }
        }
    }
}

/// Hands out the current token and moves the counter on.
pub fn next(current: &mut usize) -> (token: usize)
    requires
        *old(current) < usize::MAX,
    ensures
        (token as nat, *final(current) as nat) == next_step(*old(current) as nat),
{
    let next = *current;
    *current = *current + 1;
    next
}

/// The abstract state of an executor.
pub struct ExecutorView {
    pub id: Option<String>,
    pub status: ExecutorStatus,
    pub token: usize,
    pub pending: Seq<ExecutorMessage>,
}

/// An executor connected to the core, with the messages waiting to be written to it.
pub struct Executor {
    pub id: Option<String>,
    pub status: ExecutorStatus,
    pub token: usize,
    pub pending_msgs: VecDeque<ExecutorMessage>,
}

impl View for Executor {
    type V = ExecutorView;

    open spec fn view(&self) -> ExecutorView {
        ExecutorView {
            id: self.id,
            status: self.status,
            token: self.token,
            pending: self.pending_msgs@,
        }
    }
}

/// The pending messages after `message` is queued: a job is always preceded by a
/// status query, so that the executor's status is fresh when the job is written.
pub open spec fn queued(pending: Seq<ExecutorMessage>, message: ExecutorMessage) -> Seq<ExecutorMessage> {
    if message is BuildRequest {
        pending.push(ExecutorMessage::ExecutorStatusQuery).push(message)
    } else {
        pending.push(message)
    }
}

impl Executor {
    /// A freshly connected executor: not registered, nothing pending.
    pub fn new(token: usize) -> (e: Executor)
        ensures
            e@ == (ExecutorView {
                id: None,
                status: ExecutorStatus::YetToRegister,
                token,
                pending: Seq::empty(),
            }),
    {
        Executor { id: None, status: ExecutorStatus::YetToRegister, token, pending_msgs: VecDeque::new() }
    }

    /// Queues a message for the executor and asks for its connection to be watched
    /// for writing.
    pub fn queue_message(&mut self, message: ExecutorMessage) -> (r: Registration)
        ensures
            final(self)@ == (ExecutorView { pending: queued(old(self)@.pending, message), ..old(self)@ }),
            r == (Registration { token: old(self).token, interest: Interest::Writable }),
    {
        if let ExecutorMessage::BuildRequest(_) = message {
            self.pending_msgs.push_back(ExecutorMessage::ExecutorStatusQuery);
        }
        self.pending_msgs.push_back(message);
        Registration { token: self.token, interest: Interest::Writable }
    }

    /// Takes the oldest pending message, the one to write next.
    pub fn send_pending_message(&mut self) -> (m: Option<ExecutorMessage>)
        ensures
            old(self)@.pending.len() == 0 ==> m is None && final(self)@ == old(self)@,
            old(self)@.pending.len() > 0 ==> m == Some(old(self)@.pending[0]) && final(self)@ == (
            ExecutorView { pending: old(self)@.pending.drop_first(), ..old(self)@ }),
    {
        self.pending_msgs.pop_front()
    }

    /// Asks for the executor's connection to be watched for `interests`.
    pub fn reregister(&self, interests: Interest) -> (r: Registration)
        ensures
            r == (Registration { token: self.token, interest: interests }),
    {
        Registration { token: self.token, interest: interests }
    }
}

/// Hands the first job of `queue` to the executor `e` when it is available. The
/// tokens to watch for writing: the executor's if it had messages pending, and once
/// more if it got a job.
pub open spec fn dispatch_step(queue: Seq<BuildRequestFromRepo>, e: ExecutorView) -> (
    Seq<BuildRequestFromRepo>,
    ExecutorView,
    Seq<usize>,
) {
    let woken = if e.pending.len() > 0 { seq![e.token] } else { Seq::empty() };
    if queue.len() > 0 && e.status == ExecutorStatus::Available {
        (
            queue.drop_first(),
            ExecutorView { pending: queued(e.pending, ExecutorMessage::BuildRequest(queue[0])), ..e },
            woken.push(e.token),
        )
    } else {
        (queue, e, woken)
    }
}

/// `dispatch_step` for each executor in turn, in the order they connected.
pub open spec fn dispatch_all(queue: Seq<BuildRequestFromRepo>, executors: Seq<ExecutorView>) -> (
    Seq<BuildRequestFromRepo>,
    Seq<ExecutorView>,
    Seq<usize>,
)
    decreases executors.len(),
{
    if executors.len() == 0 {
        (queue, Seq::empty(), Seq::empty())
    } else {
        let (q, es, w) = dispatch_all(queue, executors.drop_last());
        let (q2, e2, w2) = dispatch_step(q, executors.last());
        (q2, es.push(e2), w + w2)
    }
}

/// The abstract state of the core.
pub struct CoreView {
    /// the jobs waiting for an executor, oldest first
    pub queue: Seq<BuildRequestFromRepo>,
    /// the tokens of the connections of sources of build requests
    pub incoming: Seq<usize>,
    /// the executors, in the order they connected
    pub executors: Seq<ExecutorView>,
    /// the token the next accepted connection gets
    pub next_token: usize,
}

/// Every pending message of the executor is one that the core sends.
pub open spec fn pending_ok(e: ExecutorView) -> bool {
    forall|k: int| 0 <= k < e.pending.len() ==> (#[trigger] e.pending[k]).is_sent_by_core()
}

impl CoreView {
    pub open spec fn tokens(self) -> Seq<usize> {
        self.executors.map_values(|e: ExecutorView| e.token)
    }

    pub open spec fn has_executor(self, token: usize) -> bool {
        self.tokens().contains(token)
    }

    pub open spec fn executor_index(self, token: usize) -> int {
        self.tokens().index_of(token)
    }

    /// The invariant of the core: tokens are those of no listener, already handed
    /// out, and each belongs to one connection only; an executor only ever has
    /// messages pending that the core itself sends.
    pub open spec fn wf(self) -> bool {
        &&& self.next_token >= 2
        &&& forall|i: int| 0 <= i < self.incoming.len() ==> 2 <= #[trigger] self.incoming[i] < self.next_token
        &&& forall|i: int|
            0 <= i < self.executors.len() ==> 2 <= #[trigger] self.executors[i].token < self.next_token
        &&& forall|i: int, j: int|
            0 <= i < j < self.incoming.len() ==> #[trigger] self.incoming[i] != #[trigger] self.incoming[j]
        &&& forall|i: int, j: int|
            0 <= i < j < self.executors.len() ==> #[trigger] self.executors[i].token
                != #[trigger] self.executors[j].token
        &&& forall|i: int, j: int|
            0 <= i < self.incoming.len() && 0 <= j < self.executors.len() ==> #[trigger] self.incoming[i]
                != #[trigger] self.executors[j].token
        &&& forall|i: int| 0 <= i < self.executors.len() ==> pending_ok(#[trigger] self.executors[i])
    }

    pub open spec fn route(self, token: usize) -> Route {
        if token == INCOMING_SERVER {
            Route::IncomingListener
        } else if token == EXECUTOR_SERVER {
            Route::ExecutorListener
        } else if self.incoming.contains(token) {
            Route::IncomingConnection
        } else if self.has_executor(token) {
            Route::ExecutorConnection
        } else {
            Route::Unknown
        }
    }

    pub open spec fn with_executor(self, i: int, e: ExecutorView) -> CoreView {
        CoreView { executors: self.executors.update(i, e), ..self }
    }

    pub open spec fn accept_incoming(self) -> CoreView {
        CoreView {
            incoming: self.incoming.push(self.next_token),
            next_token: (self.next_token + 1) as usize,
            ..self
        }
    }

    pub open spec fn accept_executor(self) -> CoreView {
        CoreView {
            executors: self.executors.push(
                ExecutorView {
                    id: None,
                    status: ExecutorStatus::YetToRegister,
                    token: self.next_token,
                    pending: Seq::empty(),
                },
            ),
            next_token: (self.next_token + 1) as usize,
            ..self
        }
    }

    /// A source of build requests sent a message (`Some`), or closed its connection
    /// or sent something unreadable (`None`).
    pub open spec fn receive_incoming(self, message: Option<IncomingMessage>) -> (CoreView, Reaction) {
        match message {
            Some(IncomingMessage::BuildRequestFromRepo(b)) => (
                CoreView { queue: self.queue.push(b), ..self },
                Reaction::Nothing,
            ),
            None => (self, Reaction::Close),
        }
    }

    /// The executor's connection can be written to.
    pub open spec fn begin_write(self, token: usize) -> (CoreView, WriteStep) {
        let i = self.executor_index(token);
        let e = self.executors[i];
        if e.pending.len() == 0 {
            (self, WriteStep::Idle)
        } else {
            let rest = self.with_executor(i, ExecutorView { pending: e.pending.drop_first(), ..e });
            match e.pending[0] {
                ExecutorMessage::BuildRequest(b) => if e.status != ExecutorStatus::Available {
                    (CoreView { queue: seq![b] + self.queue, ..rest }, WriteStep::Requeued)
                } else {
                    (rest, WriteStep::Send(e.pending[0]))
                },
                _ => (rest, WriteStep::Send(e.pending[0])),
            }
        }
    }

    /// `sent` was written to the executor.
    pub open spec fn finish_write(self, token: usize, sent: ExecutorMessage) -> (CoreView, Reaction) {
        let i = self.executor_index(token);
        let e = self.executors[i];
        match sent {
            ExecutorMessage::BuildRequest(_) => (
                self.with_executor(
                    i,
                    ExecutorView { pending: e.pending.push(ExecutorMessage::ExecutorStatusQuery), ..e },
                ),
                Reaction::Reregister(Interest::Writable),
            ),
            ExecutorMessage::ExecutorStatusQuery => (self, Reaction::Reregister(Interest::Readable)),
            ExecutorMessage::CloseConnection(_) => (self, Reaction::Close),
            _ => (self, Reaction::Nothing),
        }
    }

    /// The executor sent `message` (`Some`), or closed its connection (`None`);
    /// `fresh_id` is the id the executor gets if this registers it.
    pub open spec fn receive_from_executor(
        self,
        token: usize,
        message: Option<ExecutorMessage>,
        fresh_id: String,
    ) -> (CoreView, Reaction) {
        let i = self.executor_index(token);
        let e = self.executors[i];
        match message {
            None => (self, Reaction::Close),
            Some(ExecutorMessage::JobResult(_)) => (self, Reaction::Reregister(Interest::Readable)),
            Some(ExecutorMessage::ExecutorRegister) => if e.status == ExecutorStatus::YetToRegister {
                (
                    self.with_executor(
                        i,
                        ExecutorView {
                            id: Some(fresh_id),
                            status: ExecutorStatus::Available,
                            pending: e.pending.push(
                                ExecutorMessage::ExecutorRegisterResponse { id: fresh_id },
                            ),
                            ..e
                        },
                    ),
                    Reaction::Reregister(Interest::Writable),
                )
            } else {
                (self, Reaction::Nothing)
            },
            Some(ExecutorMessage::ExecutorStatusResponse(s)) => (
                self.with_executor(i, ExecutorView { status: s, ..e }),
                Reaction::Reregister(Interest::Readable),
            ),
            Some(ExecutorMessage::CloseConnection(_)) => (self, Reaction::Close),
            Some(_) => (self, Reaction::Nothing),
        }
    }

    /// The round of dispatch that follows each batch of events.
    pub open spec fn dispatch(self) -> (CoreView, Seq<usize>) {
        let (q, es, w) = dispatch_all(self.queue, self.executors);
        (CoreView { queue: q, executors: es, ..self }, w)
    }

    /// The connection of `token` is dropped; `true` when it was one of the core's.
    pub open spec fn close(self, token: usize) -> (CoreView, bool) {
        if self.incoming.contains(token) {
            (CoreView { incoming: self.incoming.remove(self.incoming.index_of(token)), ..self }, true)
        } else if self.has_executor(token) {
            (
                CoreView { executors: self.executors.remove(self.executor_index(token)), ..self },
                true,
            )
        } else {
            (self, false)
        }
    }
}

/// The core's state: the job queue and the connections.
pub struct Core {
    queue: VecDeque<BuildRequestFromRepo>,
    incoming: Vec<usize>,
    executors: Vec<Executor>,
    next_token: usize,
}

impl View for Core {
    type V = CoreView;

    closed spec fn view(&self) -> CoreView {
        CoreView {
            queue: self.queue@,
            incoming: self.incoming@,
            executors: self.executors@.map_values(|e: Executor| e@),
            next_token: self.next_token,
        }
    }
}

/// A connection never gets a token that a connection of the core already has.
pub proof fn lemma_next_token_is_fresh(v: CoreView)
    requires
        v.wf(),
    ensures
        !v.incoming.contains(v.next_token),
        !v.has_executor(v.next_token),
        v.next_token != INCOMING_SERVER,
        v.next_token != EXECUTOR_SERVER,
{
    if v.has_executor(v.next_token) {
        let i = v.tokens().index_of(v.next_token);
        assert(v.executors[i].token == v.tokens()[i]);
    }
}

/// Accepting a source of build requests keeps the invariant.
pub proof fn lemma_accept_incoming_wf(v: CoreView)
    requires
        v.wf(),
        v.next_token < usize::MAX,
    ensures
        v.accept_incoming().wf(),
{
    let w = v.accept_incoming();
    let n = v.incoming.len();
    assert forall|i: int| 0 <= i < w.incoming.len() implies 2 <= #[trigger] w.incoming[i] < w.next_token by {
        if i < n {
            assert(w.incoming[i] == v.incoming[i]);
        }
    }
    assert forall|i: int, j: int| 0 <= i < j < w.incoming.len() implies #[trigger] w.incoming[i]
        != #[trigger] w.incoming[j] by {
        assert(w.incoming[i] == v.incoming[i]);
        assert(v.incoming[i] < v.next_token);
        if j < n {
            assert(w.incoming[j] == v.incoming[j]);
        }
    }
    assert forall|i: int, j: int| 0 <= i < w.incoming.len() && 0 <= j < w.executors.len() implies #[trigger] w.incoming[i]
        != #[trigger] w.executors[j].token by {
        assert(v.executors[j].token < v.next_token);
        if i < n {
            assert(w.incoming[i] == v.incoming[i]);
        }
    }
}

/// Accepting an executor keeps the invariant: its token is new, and it has nothing
/// pending.
pub proof fn lemma_accept_executor_wf(v: CoreView)
    requires
        v.wf(),
        v.next_token < usize::MAX,
    ensures
        v.accept_executor().wf(),
{
    let w = v.accept_executor();
    let n = v.executors.len();
    assert(pending_ok(w.executors[n as int]));
    assert forall|i: int| 0 <= i < w.executors.len() implies pending_ok(#[trigger] w.executors[i]) by {
        if i < n {
            assert(w.executors[i] == v.executors[i]);
        }
    }
    assert forall|i: int| 0 <= i < w.executors.len() implies 2 <= #[trigger] w.executors[i].token < w.next_token by {
        if i < n {
            assert(w.executors[i] == v.executors[i]);
        }
    }
    assert forall|i: int, j: int| 0 <= i < j < w.executors.len() implies #[trigger] w.executors[i].token
        != #[trigger] w.executors[j].token by {
        assert(w.executors[i] == v.executors[i]);
        assert(v.executors[i].token < v.next_token);
        if j < n {
            assert(w.executors[j] == v.executors[j]);
        }
    }
    assert forall|i: int, j: int| 0 <= i < w.incoming.len() && 0 <= j < w.executors.len() implies #[trigger] w.incoming[i]
        != #[trigger] w.executors[j].token by {
        assert(v.incoming[i] < v.next_token);
        if j < n {
            assert(w.executors[j] == v.executors[j]);
        }
    }
}

/// Closing keeps the invariant; once its connection is closed, the events of a
/// token are ignored; every other connection stays.
pub proof fn lemma_close_forgets_token(v: CoreView, token: usize)
    requires
        v.wf(),
    ensures
        token != INCOMING_SERVER && token != EXECUTOR_SERVER ==> v.close(token).0.route(token) == Route::Unknown,
        v.close(token).0.wf(),
        forall|t: usize| t != token && #[trigger] v.route(t) != Route::Unknown ==> v.close(token).0.route(t) == v.route(t),
{
    let w = v.close(token).0;
    let toks = v.tokens();
    assert(toks.len() == v.executors.len());
    if v.incoming.contains(token) {
        let i = v.incoming.index_of(token);
        assert(w.incoming == v.incoming.remove(i));
        assert(w.executors == v.executors);
        if w.incoming.contains(token) {
            let j = w.incoming.index_of(token);
            let j0 = if j < i { j } else { j + 1 };
            assert(v.incoming[j0] == token);
        }
        if w.has_executor(token) {
            let j = toks.index_of(token);
            assert(v.executors[j].token == token);
        }
        assert forall|t: usize| t != token && #[trigger] v.route(t) != Route::Unknown implies w.route(t) == v.route(t) by {
            if v.incoming.contains(t) {
                let k = v.incoming.index_of(t);
                let k1 = if k < i { k } else { k - 1 };
                assert(w.incoming[k1] == t);
            }
            if w.incoming.contains(t) {
                let k = w.incoming.index_of(t);
                let k0 = if k < i { k } else { k + 1 };
                assert(v.incoming[k0] == t);
            }
        }
        assert forall|a: int, b: int| 0 <= a < b < w.incoming.len() implies #[trigger] w.incoming[a] != #[trigger] w.incoming[b] by {
            let a0 = if a < i { a } else { a + 1 };
            let b0 = if b < i { b } else { b + 1 };
            assert(v.incoming[a0] != v.incoming[b0]);
        }
        assert forall|a: int, j: int| 0 <= a < w.incoming.len() && 0 <= j < w.executors.len() implies #[trigger] w.incoming[a] != #[trigger] w.executors[j].token by {
            let a0 = if a < i { a } else { a + 1 };
            assert(v.incoming[a0] != v.executors[j].token);
        }
        assert forall|a: int| 0 <= a < w.incoming.len() implies 2 <= #[trigger] w.incoming[a] < w.next_token by {
            let a0 = if a < i { a } else { a + 1 };
            assert(2 <= v.incoming[a0] < v.next_token);
        }
    } else if v.has_executor(token) {
        let i = v.executor_index(token);
        assert(w.executors == v.executors.remove(i));
        assert(w.incoming == v.incoming);
        let wt = w.tokens();
        assert(wt =~= toks.remove(i));
        if w.has_executor(token) {
            let j = wt.index_of(token);
            let j0 = if j < i { j } else { j + 1 };
            assert(toks[j0] == token);
            assert(toks[i] == token);
            assert(v.executors[j0].token != v.executors[i].token);
        }
        assert forall|t: usize| t != token && #[trigger] v.route(t) != Route::Unknown implies w.route(t) == v.route(t) by {
            if v.has_executor(t) {
                let k = toks.index_of(t);
                let k1 = if k < i { k } else { k - 1 };
                assert(toks[i] == token);
                assert(wt[k1] == t);
            }
            if w.has_executor(t) {
                let k = wt.index_of(t);
                let k0 = if k < i { k } else { k + 1 };
                assert(toks[k0] == t);
            }
        }
        assert forall|a: int, b: int| 0 <= a < b < w.executors.len() implies #[trigger] w.executors[a].token != #[trigger] w.executors[b].token by {
            let a0 = if a < i { a } else { a + 1 };
            let b0 = if b < i { b } else { b + 1 };
            assert(v.executors[a0].token != v.executors[b0].token);
        }
        assert forall|a: int, j: int| 0 <= a < w.incoming.len() && 0 <= j < w.executors.len() implies #[trigger] w.incoming[a] != #[trigger] w.executors[j].token by {
            let j0 = if j < i { j } else { j + 1 };
            assert(v.incoming[a] != v.executors[j0].token);
        }
        assert forall|a: int| 0 <= a < w.executors.len() implies 2 <= #[trigger] w.executors[a].token < w.next_token by {
            let a0 = if a < i { a } else { a + 1 };
            assert(2 <= v.executors[a0].token < v.next_token);
        }
        assert forall|a: int| 0 <= a < w.executors.len() implies pending_ok(#[trigger] w.executors[a]) by {
            let a0 = if a < i { a } else { a + 1 };
            assert(pending_ok(v.executors[a0]));
        }
    }
}

/// The index that `index_of` picks is the only one that holds the token.
proof fn lemma_index_of_unique(s: Seq<usize>, i: int)
    requires
        0 <= i < s.len(),
        forall|a: int, b: int| 0 <= a < b < s.len() ==> #[trigger] s[a] != #[trigger] s[b],
    ensures
        s.index_of(s[i]) == i,
{
    assert(s.contains(s[i]));
    let j = s.index_of(s[i]);
    if j < i {
        assert(s[j] != s[i]);
    } else if j > i {
        assert(s[i] != s[j]);
    }
}

/// Replacing an executor by one with the same token whose pending messages are
/// all the core's keeps the invariant, whatever happens to the queue.
pub proof fn lemma_with_executor_wf(v: CoreView, i: int, e: ExecutorView, q: Seq<BuildRequestFromRepo>)
    requires
        v.wf(),
        0 <= i < v.executors.len(),
        e.token == v.executors[i].token,
        pending_ok(e),
    ensures
        (CoreView { queue: q, ..v.with_executor(i, e) }).wf(),
{
    let w = CoreView { queue: q, ..v.with_executor(i, e) };
    assert forall|a: int| 0 <= a < w.executors.len() implies pending_ok(#[trigger] w.executors[a]) by {
        if a != i {
            assert(w.executors[a] == v.executors[a]);
        }
    }
    assert forall|a: int| 0 <= a < w.executors.len() implies 2 <= #[trigger] w.executors[a].token < w.next_token by {
        assert(w.executors[a].token == v.executors[a].token);
    }
    assert forall|a: int, b: int| 0 <= a < b < w.executors.len() implies #[trigger] w.executors[a].token
        != #[trigger] w.executors[b].token by {
        assert(w.executors[a].token == v.executors[a].token);
        assert(w.executors[b].token == v.executors[b].token);
    }
    assert forall|a: int, j: int| 0 <= a < w.incoming.len() && 0 <= j < w.executors.len() implies #[trigger] w.incoming[a]
        != #[trigger] w.executors[j].token by {
        assert(w.executors[j].token == v.executors[j].token);
    }
}

impl Core {
    pub open spec fn wf(&self) -> bool {
        self@.wf()
    }

    /// An empty queue, no connection; the first connection gets token 2.
    pub fn new() -> (core: Core)
        ensures
            core.wf(),
            core@ == (CoreView {
                queue: Seq::empty(),
                incoming: Seq::empty(),
                executors: Seq::empty(),
                next_token: 2,
            }),
    {
        let core = Core {
            queue: VecDeque::with_capacity(128),
            incoming: Vec::new(),
            executors: Vec::new(),
            next_token: EXECUTOR_SERVER + 1,
        };
        assert(core@.executors =~= Seq::<ExecutorView>::empty());
        core
    }

    fn find_incoming(&self, token: usize) -> (r: Option<usize>)
        requires
            self.wf(),
        ensures
            r is None <==> !self@.incoming.contains(token),
            r is Some ==> r->0 == self@.incoming.index_of(token) && r->0 < self@.incoming.len(),
    {
        let mut i: usize = 0;
        while i < self.incoming.len()
            invariant
                self.wf(),
                i <= self.incoming.len(),
                forall|j: int| 0 <= j < i ==> self.incoming@[j] != token,
            decreases self.incoming.len() - i,
        {
            if self.incoming[i] == token {
                proof {
                    assert(self@.incoming == self.incoming@);
                    lemma_index_of_unique(self.incoming@, i as int);
                }
                return Some(i);
            }
            i = i + 1;
        }
        None
    }

    fn find_executor(&self, token: usize) -> (r: Option<usize>)
        requires
            self.wf(),
        ensures
            r is None <==> !self@.has_executor(token),
            r is Some ==> r->0 == self@.executor_index(token) && r->0 < self@.executors.len(),
    {
        let ghost toks = self@.tokens();
        let mut i: usize = 0;
        while i < self.executors.len()
            invariant
                self.wf(),
                i <= self.executors.len(),
                toks == self@.tokens(),
                toks.len() == self.executors.len(),
                forall|j: int| 0 <= j < i ==> toks[j] != token,
            decreases self.executors.len() - i,
        {
            assert(toks[i as int] == self.executors@[i as int].token);
            if self.executors[i].token == token {
                proof {
                    assert forall|a: int, b: int| 0 <= a < b < toks.len() implies #[trigger] toks[a]
                        != #[trigger] toks[b] by {
                        assert(toks[a] == self@.executors[a].token);
                        assert(toks[b] == self@.executors[b].token);
                        assert(self@.executors[a].token != self@.executors[b].token);
                    }
                    lemma_index_of_unique(toks, i as int);
                }
                return Some(i);
            }
            i = i + 1;
        }
        None
    }

    /// Whom the token of an event belongs to.
    pub fn route(&self, token: usize) -> (r: Route)
        requires
            self.wf(),
        ensures
            r == self@.route(token),
    {
        if token == INCOMING_SERVER {
            Route::IncomingListener
        } else if token == EXECUTOR_SERVER {
            Route::ExecutorListener
        } else if self.find_incoming(token).is_some() {
            Route::IncomingConnection
        } else if self.find_executor(token).is_some() {
            Route::ExecutorConnection
        } else {
            Route::Unknown
        }
    }
    /// A source of build requests connected: it gets the next token and is watched
    /// for reading.
    pub fn accept_incoming(&mut self) -> (r: Registration)
        requires
            old(self).wf(),
            old(self)@.next_token < usize::MAX,
        ensures
            final(self).wf(),
            final(self)@ == old(self)@.accept_incoming(),
            r == (Registration { token: old(self)@.next_token, interest: Interest::Readable }),
    {
        let token = next(&mut self.next_token);
        self.incoming.push(token);
        proof {
            assert(self@.incoming == old(self)@.incoming.push(token));
            assert(self@.executors == old(self)@.executors);
            assert(self@ == old(self)@.accept_incoming());
            lemma_accept_incoming_wf(old(self)@);
        }
        Registration { token, interest: Interest::Readable }
    }

    /// An executor connected: it gets the next token, is not registered yet, and is
    /// watched for reading.
    pub fn accept_executor(&mut self) -> (r: Registration)
        requires
            old(self).wf(),
            old(self)@.next_token < usize::MAX,
        ensures
            final(self).wf(),
            final(self)@ == old(self)@.accept_executor(),
            r == (Registration { token: old(self)@.next_token, interest: Interest::Readable }),
    {
        let token = next(&mut self.next_token);
        self.executors.push(Executor::new(token));
        proof {
            assert(self@.executors =~= old(self)@.accept_executor().executors);
            assert(self@ == old(self)@.accept_executor());
            lemma_accept_executor_wf(old(self)@);
        }
        Registration { token, interest: Interest::Readable }
    }

    /// Handles what a source of build requests sent: a request joins the back of the
    /// queue; `None` (the connection closed, or sent something unreadable) closes it.
    pub fn receive_incoming(&mut self, token: usize, message: Option<IncomingMessage>) -> (r: Reaction)
        requires
            old(self).wf(),
            old(self)@.incoming.contains(token),
        ensures
            final(self).wf(),
            (final(self)@, r) == old(self)@.receive_incoming(message),
    {
        match message {
            Some(IncomingMessage::BuildRequestFromRepo(build_request)) => {
                self.queue.push_back(build_request);
                proof {
                    assert(self@.executors == old(self)@.executors);
                }
                Reaction::Nothing
            },
            None => Reaction::Close,
        }
    }

    /// Drops the connection of `token` from the core; `true` when it was one of the
    /// core's, and its socket is to be deregistered.
    pub fn close(&mut self, token: usize) -> (closed: bool)
        requires
            old(self).wf(),
        ensures
            final(self).wf(),
            (final(self)@, closed) == old(self)@.close(token),
    {
        proof {
            lemma_close_forgets_token(old(self)@, token);
        }
        if let Some(i) = self.find_incoming(token) {
            self.incoming.remove(i);
            proof {
                assert(self@.incoming == old(self)@.incoming.remove(i as int));
                assert(self@.executors == old(self)@.executors);
                assert(self@ == old(self)@.close(token).0);
            }
            true
        } else if let Some(i) = self.find_executor(token) {
            self.executors.remove(i);
            proof {
                assert(self@.executors =~= old(self)@.executors.remove(i as int));
                assert(self@.incoming == old(self)@.incoming);
                assert(self@ == old(self)@.close(token).0);
            }
            true
        } else {
            false
        }
    }
    /// The executor's connection can be written to: takes its oldest pending message.
    /// A job for an executor that is not available goes back to the front of the
    /// queue; any other message is to be written.
    pub fn begin_write(&mut self, token: usize) -> (step: WriteStep)
        requires
            old(self).wf(),
            old(self)@.has_executor(token),
        ensures
            final(self).wf(),
            (final(self)@, step) == old(self)@.begin_write(token),
            step matches WriteStep::Send(m) ==> m.is_sent_by_core(),
    {
        let i = match self.find_executor(token) {
            Some(i) => i,
            None => return WriteStep::Idle,
        };
        let ghost e = old(self)@.executors[i as int];
        let ghost rest = ExecutorView { pending: e.pending.drop_first(), ..e };
        proof {
            assert(self.executors@[i as int]@ == e);
        }
        let msg = match self.executors[i].send_pending_message() {
            Some(msg) => msg,
            None => {
                proof {
                    assert(self@.executors =~= old(self)@.executors);
                }
                return WriteStep::Idle;
            },
        };
        proof {
            assert(msg.is_sent_by_core());
            assert(self@.executors =~= old(self)@.executors.update(i as int, rest));
            assert(pending_ok(rest)) by {
                assert forall|k: int| 0 <= k < rest.pending.len() implies (#[trigger] rest.pending[k]).is_sent_by_core() by {
                    assert(rest.pending[k] == e.pending[k + 1]);
                }
            }
            lemma_with_executor_wf(old(self)@, i as int, rest, old(self)@.queue);
        }
        let available = match self.executors[i].status {
            ExecutorStatus::Available => true,
            _ => false,
        };
        match msg {
            ExecutorMessage::BuildRequest(build_request) => {
                if !available {
                    self.queue.push_front(build_request);
                    proof {
                        assert(self@.queue =~= seq![build_request] + old(self)@.queue);
                        lemma_with_executor_wf(old(self)@, i as int, rest, self@.queue);
                    }
                    WriteStep::Requeued
                } else {
                    WriteStep::Send(ExecutorMessage::BuildRequest(build_request))
                }
            },
            other => WriteStep::Send(other),
        }
    }

    /// `sent` was written to the executor. After a job, a status query follows; after
    /// a status query, the executor is read; after a closing message, the connection
    /// is closed.
    pub fn finish_write(&mut self, token: usize, sent: &ExecutorMessage) -> (r: Reaction)
        requires
            old(self).wf(),
            old(self)@.has_executor(token),
            sent.is_sent_by_core() || sent is CloseConnection,
        ensures
            final(self).wf(),
            (final(self)@, r) == old(self)@.finish_write(token, *sent),
    {
        let i = match self.find_executor(token) {
            Some(i) => i,
            None => return Reaction::Nothing,
        };
        match sent {
            ExecutorMessage::BuildRequest(_) => {
                let ghost e = old(self)@.executors[i as int];
                let ghost e2 = ExecutorView { pending: e.pending.push(ExecutorMessage::ExecutorStatusQuery), ..e };
                self.executors[i].queue_message(ExecutorMessage::ExecutorStatusQuery);
                proof {
                    assert(self@.executors =~= old(self)@.executors.update(i as int, e2));
                    assert(pending_ok(e2)) by {
                        assert forall|k: int| 0 <= k < e2.pending.len() implies (#[trigger] e2.pending[k]).is_sent_by_core() by {
                            if k < e.pending.len() {
                                assert(e2.pending[k] == e.pending[k]);
                            }
                        }
                    }
                    lemma_with_executor_wf(old(self)@, i as int, e2, old(self)@.queue);
                }
                Reaction::Reregister(Interest::Writable)
            },
            ExecutorMessage::ExecutorStatusQuery => Reaction::Reregister(Interest::Readable),
            ExecutorMessage::CloseConnection(_) => Reaction::Close,
            _ => Reaction::Nothing,
        }
    }

    /// Handles what an executor sent (`None`: it closed its connection). A first
    /// registration gives the executor `fresh_id`, makes it available and queues the
    /// answer; a status answer updates its status; a job result is read and dropped.
    pub fn receive_from_executor(
        &mut self,
        token: usize,
        message: Option<ExecutorMessage>,
        fresh_id: String,
    ) -> (r: Reaction)
        requires
            old(self).wf(),
            old(self)@.has_executor(token),
            message is Some ==> message->0.is_sent_by_executor(),
        ensures
            final(self).wf(),
            (final(self)@, r) == old(self)@.receive_from_executor(token, message, fresh_id),
    {
        let i = match self.find_executor(token) {
            Some(i) => i,
            None => return Reaction::Nothing,
        };
        let ghost e = old(self)@.executors[i as int];
        proof {
            assert(self.executors@[i as int]@ == e);
        }
        match message {
            None => Reaction::Close,
            Some(ExecutorMessage::JobResult(_)) => Reaction::Reregister(Interest::Readable),
            Some(ExecutorMessage::ExecutorRegister) => {
                let unregistered = match self.executors[i].status {
                    ExecutorStatus::YetToRegister => true,
                    _ => false,
                };
                if unregistered {
                    let ghost e2 = ExecutorView {
                        id: Some(fresh_id),
                        status: ExecutorStatus::Available,
                        pending: e.pending.push(ExecutorMessage::ExecutorRegisterResponse { id: fresh_id }),
                        ..e
                    };
                    let id = fresh_id.clone();
                    self.executors[i].queue_message(ExecutorMessage::ExecutorRegisterResponse { id });
                    self.executors[i].id = Some(fresh_id);
                    self.executors[i].status = ExecutorStatus::Available;
                    proof {
                        assert(self@.executors =~= old(self)@.executors.update(i as int, e2));
                        assert(pending_ok(e2)) by {
                            assert forall|k: int| 0 <= k < e2.pending.len() implies (#[trigger] e2.pending[k]).is_sent_by_core() by {
                                if k < e.pending.len() {
                                    assert(e2.pending[k] == e.pending[k]);
                                }
                            }
                        }
                        lemma_with_executor_wf(old(self)@, i as int, e2, old(self)@.queue);
                    }
                    Reaction::Reregister(Interest::Writable)
                } else {
                    Reaction::Nothing
                }
            },
            Some(ExecutorMessage::ExecutorStatusResponse(status)) => {
                let ghost e2 = ExecutorView { status, ..e };
                self.executors[i].status = status;
                proof {
                    assert(self@.executors =~= old(self)@.executors.update(i as int, e2));
                    lemma_with_executor_wf(old(self)@, i as int, e2, old(self)@.queue);
                }
                Reaction::Reregister(Interest::Readable)
            },
            Some(ExecutorMessage::CloseConnection(_)) => Reaction::Close,
            Some(_) => Reaction::Nothing,
        }
    }
    /// After each batch of events: every executor with messages pending is watched
    /// for writing, and every available executor, in the order they connected, gets
    /// the job at the front of the queue (behind a status query) while jobs remain.
    /// Returns the tokens to watch for writing, in order.
    pub fn dispatch(&mut self) -> (woken: Vec<usize>)
        requires
            old(self).wf(),
        ensures
            final(self).wf(),
            (final(self)@, woken@) == old(self)@.dispatch(),
    {
        let ghost old_execs = old(self)@.executors;
        let ghost old_queue = old(self)@.queue;
        let mut woken: Vec<usize> = Vec::new();
        let mut i: usize = 0;
        while i < self.executors.len()
            invariant
                self.wf(),
                self.executors.len() == old_execs.len(),
                self@.incoming == old(self)@.incoming,
                self@.next_token == old(self)@.next_token,
                i <= self.executors.len(),
                dispatch_all(old_queue, old_execs.take(i as int)).0 == self@.queue,
                dispatch_all(old_queue, old_execs.take(i as int)).1 == self@.executors.take(i as int),
                dispatch_all(old_queue, old_execs.take(i as int)).2 == woken@,
                forall|j: int| i <= j < old_execs.len() ==> #[trigger] self@.executors[j] == old_execs[j],
            decreases old_execs.len() - i,
        {
            let ghost before = self@;
            let ghost e0 = self@.executors[i as int];
            let ghost w0 = woken@;
            proof {
                assert(self.executors@[i as int]@ == e0);
                assert(old_execs.take(i + 1).drop_last() =~= old_execs.take(i as int));
                assert(old_execs.take(i + 1).last() == e0);
            }
            if self.executors[i].pending_msgs.len() > 0 {
                woken.push(self.executors[i].token);
            }
            let available = match self.executors[i].status {
                ExecutorStatus::Available => true,
                _ => false,
            };
            if self.queue.len() > 0 && available {
                let ghost job = before.queue[0];
                let job_opt = self.queue.pop_front();
                if let Some(build_request) = job_opt {
                    let ghost e2 = ExecutorView {
                        pending: queued(e0.pending, ExecutorMessage::BuildRequest(job)),
                        ..e0
                    };
                    let r = self.executors[i].queue_message(ExecutorMessage::BuildRequest(build_request));
                    woken.push(r.token);
                    proof {
                        assert(self@.executors =~= before.executors.update(i as int, e2));
                        assert(pending_ok(e2)) by {
                            assert forall|k: int| 0 <= k < e2.pending.len() implies (#[trigger] e2.pending[k]).is_sent_by_core() by {
                                if k < e0.pending.len() {
                                    assert(e2.pending[k] == e0.pending[k]);
                                }
                            }
                        }
                        lemma_with_executor_wf(before, i as int, e2, self@.queue);
                        assert(self@.executors.take(i + 1) =~= before.executors.take(i as int).push(e2));
                    }
                }
            } else {
                proof {
                    assert(self@.executors.take(i + 1) =~= before.executors.take(i as int).push(e0));
                }
            }
            proof {
                let (q, es, w) = dispatch_all(old_queue, old_execs.take(i as int));
                let (q2, e2, w2) = dispatch_step(q, e0);
                assert(w + w2 =~= woken@);
                assert(dispatch_all(old_queue, old_execs.take(i + 1)) == (q2, es.push(e2), w + w2));
            }
            i = i + 1;
        }
        proof {
            assert(old_execs.take(old_execs.len() as int) =~= old_execs);
            assert(self@.executors.take(old_execs.len() as int) =~= self@.executors);
        }
        woken
    }
    /// How many jobs wait in the queue.
    pub fn queue_len(&self) -> (n: usize)
        ensures
            n == self@.queue.len(),
    {
        self.queue.len()
    }

    /// The token the next accepted connection gets.
    pub fn next_token(&self) -> (t: usize)
        ensures
            t == self@.next_token,
    {
        self.next_token
    }

    /// How many sources of build requests are connected.
    pub fn incoming_count(&self) -> (n: usize)
        ensures
            n == self@.incoming.len(),
    {
        self.incoming.len()
    }

    /// How many executors are connected.
    pub fn executor_count(&self) -> (n: usize)
        ensures
            n == self@.executors.len(),
    {
        self.executors.len()
    }

    /// The executor whose connection has `token`, if there is one.
    pub fn executor(&self, token: usize) -> (r: Option<&Executor>)
        requires
            self.wf(),
        ensures
            r is None <==> !self@.has_executor(token),
            r matches Some(e) ==> e@ == self@.executors[self@.executor_index(token)],
    {
        match self.find_executor(token) {
            Some(i) => Some(&self.executors[i]),
            None => None,
        }
    }
}

} // verus!
