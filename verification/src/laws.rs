//! What each operation of the core is for, stated over its inputs and results:
//! which connection an event belongs to, where a received request goes, what a
//! write and a received message change, whom a dispatch wakes, and that a bind
//! address carries its port in plain decimal.
use vstd::prelude::*;
use crate::net::{BuildRequestFromRepo, ExecutorMessage, ExecutorStatus, IncomingMessage, JobResult};
use crate::scheduler::{
    dispatch_all, dispatch_step, CoreView, ExecutorView, Interest, Reaction, Route, WriteStep,
    EXECUTOR_SERVER, INCOMING_SERVER,
};
use crate::jobs::{available_count, dispatched, lemma_dispatch_order, lemma_index_in_range, min};
use crate::{decimal, default_executor_port, default_host, default_incoming_port, digit_char, socket_address};
use crate::scheduler::queued;
use crate::transfer::{ReadOutcome, ReadStep, ReceiveBufferView};

verus! {

// ---------------------------------------------------------------- messages

/// The core accepts from an executor every message of the executor-to-core
/// direction, and none of the messages it sends itself.
pub proof fn lemma_executor_messages_accepted(r: JobResult, s: ExecutorStatus, id: String, b: BuildRequestFromRepo)
    ensures
        ExecutorMessage::ExecutorRegister.is_sent_by_executor(),
        ExecutorMessage::ExecutorStatusResponse(s).is_sent_by_executor(),
        ExecutorMessage::JobResult(r).is_sent_by_executor(),
        ExecutorMessage::CloseConnection(id).is_sent_by_executor(),
        !(ExecutorMessage::ExecutorRegisterResponse { id }).is_sent_by_executor(),
        !ExecutorMessage::ExecutorStatusQuery.is_sent_by_executor(),
        !ExecutorMessage::BuildRequest(b).is_sent_by_executor(),
        (ExecutorMessage::ExecutorRegisterResponse { id }).is_sent_by_core(),
        ExecutorMessage::ExecutorStatusQuery.is_sent_by_core(),
        ExecutorMessage::BuildRequest(b).is_sent_by_core(),
        !ExecutorMessage::ExecutorRegister.is_sent_by_core(),
        !ExecutorMessage::ExecutorStatusResponse(s).is_sent_by_core(),
        !ExecutorMessage::JobResult(r).is_sent_by_core(),
        !ExecutorMessage::CloseConnection(id).is_sent_by_core(),
{
}

// ---------------------------------------------------------------- routing

/// Every token is routed to what it belongs to: 0 and 1 to the listeners, a
/// connected source's token to that source, a connected executor's token to that
/// executor, whatever the token's size; any other token is unknown.
pub proof fn lemma_route(v: CoreView, t: usize)
    requires
        v.wf(),
    ensures
        t == INCOMING_SERVER ==> v.route(t) == Route::IncomingListener,
        t == EXECUTOR_SERVER ==> v.route(t) == Route::ExecutorListener,
        t != INCOMING_SERVER && t != EXECUTOR_SERVER && v.incoming.contains(t) ==> v.route(t)
            == Route::IncomingConnection,
        t != INCOMING_SERVER && t != EXECUTOR_SERVER && v.has_executor(t) ==> v.route(t)
            == Route::ExecutorConnection,
        !v.incoming.contains(t) && !v.has_executor(t) && t != INCOMING_SERVER && t != EXECUTOR_SERVER
            ==> v.route(t) == Route::Unknown,
{
    if v.incoming.contains(t) && v.has_executor(t) {
        let i = v.incoming.index_of(t);
        lemma_index_in_range(v, t);
        let j = v.executor_index(t);
        assert(v.incoming[i] != v.executors[j].token);
    }
}

/// A newly accepted connection is routed to itself: the token it gets is the
/// counter, no connection had it, and the counter moves on.
pub proof fn lemma_accept(v: CoreView)
    requires
        v.wf(),
        v.next_token < usize::MAX,
    ensures
        v.accept_incoming().incoming == v.incoming.push(v.next_token),
        v.accept_incoming().executors == v.executors,
        v.accept_incoming().queue == v.queue,
        v.accept_incoming().next_token == v.next_token + 1,
        v.accept_incoming().route(v.next_token) == Route::IncomingConnection,
        v.accept_executor().incoming == v.incoming,
        v.accept_executor().queue == v.queue,
        v.accept_executor().next_token == v.next_token + 1,
        v.accept_executor().executors.len() == v.executors.len() + 1,
        forall|i: int| 0 <= i < v.executors.len() ==> #[trigger] v.accept_executor().executors[i] == v.executors[i],
        v.accept_executor().executors.last().token == v.next_token,
        v.accept_executor().executors.last().id is None,
        v.accept_executor().executors.last().status == ExecutorStatus::YetToRegister,
        v.accept_executor().executors.last().pending.len() == 0,
        v.accept_executor().route(v.next_token) == Route::ExecutorConnection,
{
    crate::scheduler::lemma_accept_incoming_wf(v);
    crate::scheduler::lemma_accept_executor_wf(v);
    crate::scheduler::lemma_next_token_is_fresh(v);
    let a = v.accept_incoming();
    assert(a.incoming[v.incoming.len() as int] == v.next_token);
    lemma_route(a, v.next_token);
    let b = v.accept_executor();
    let n = v.executors.len();
    assert(b.tokens()[n as int] == v.next_token);
    lemma_route(b, v.next_token);
}

// ---------------------------------------------------------------- sources of jobs

/// A received build request goes to the back of the queue, so that requests are
/// handed out in the order they arrived; nothing else changes. A source that sent
/// nothing readable is to be closed, and nothing changes.
pub proof fn lemma_receive_incoming(v: CoreView, b: BuildRequestFromRepo)
    ensures
        v.receive_incoming(Some(IncomingMessage::BuildRequestFromRepo(b))).0.queue == v.queue.push(b),
        v.receive_incoming(Some(IncomingMessage::BuildRequestFromRepo(b))).0.queue.last() == b,
        v.receive_incoming(Some(IncomingMessage::BuildRequestFromRepo(b))).0.queue.len() == v.queue.len() + 1,
        forall|k: int| 0 <= k < v.queue.len() ==> #[trigger] v.receive_incoming(Some(IncomingMessage::BuildRequestFromRepo(b))).0.queue[k] == v.queue[k],
        v.receive_incoming(Some(IncomingMessage::BuildRequestFromRepo(b))).0.executors == v.executors,
        v.receive_incoming(Some(IncomingMessage::BuildRequestFromRepo(b))).0.incoming == v.incoming,
        v.receive_incoming(Some(IncomingMessage::BuildRequestFromRepo(b))).0.next_token == v.next_token,
        v.receive_incoming(Some(IncomingMessage::BuildRequestFromRepo(b))).1 == Reaction::Nothing,
        v.receive_incoming(None).0 == v,
        v.receive_incoming(None).1 == Reaction::Close,
{
}

// ---------------------------------------------------------------- writes

/// A write takes the executor's oldest pending message: a job whose executor is
/// not available goes back to the front of the queue, anything else is handed out
/// to be written; an executor with nothing pending is left alone.
pub proof fn lemma_begin_write(v: CoreView, t: usize)
    requires
        v.wf(),
        v.has_executor(t),
    ensures
        ({
            let i = v.executor_index(t);
            let e = v.executors[i];
            let (w, s) = v.begin_write(t);
            &&& w.incoming == v.incoming
            &&& w.next_token == v.next_token
            &&& w.executors.len() == v.executors.len()
            &&& forall|j: int| 0 <= j < v.executors.len() && j != i ==> #[trigger] w.executors[j] == v.executors[j]
            &&& e.pending.len() == 0 ==> s == WriteStep::Idle && w == v
            &&& e.pending.len() > 0 ==> {
                &&& w.executors[i].pending == e.pending.subrange(1, e.pending.len() as int)
                &&& w.executors[i].status == e.status
                &&& w.executors[i].id == e.id
                &&& w.executors[i].token == t
                &&& (e.pending[0] is BuildRequest && e.status != ExecutorStatus::Available) ==> {
                    &&& s == WriteStep::Requeued
                    &&& w.queue.len() == v.queue.len() + 1
                    &&& w.queue[0] == e.pending[0]->BuildRequest_0
                    &&& w.queue.subrange(1, w.queue.len() as int) == v.queue
                }
                &&& !(e.pending[0] is BuildRequest && e.status != ExecutorStatus::Available) ==> {
                    &&& s == WriteStep::Send(e.pending[0])
                    &&& w.queue == v.queue
                }
            }
        }),
{
    lemma_index_in_range(v, t);
    let i = v.executor_index(t);
    let e = v.executors[i];
    if e.pending.len() > 0 {
        assert(e.pending.drop_first() =~= e.pending.subrange(1, e.pending.len() as int));
        let (w, s) = v.begin_write(t);
        if e.pending[0] is BuildRequest && e.status != ExecutorStatus::Available {
            assert(w.queue.subrange(1, w.queue.len() as int) =~= v.queue);
        }
    }
}

/// After a written job a status query is queued and the connection is watched for
/// writing; after a written status query it is watched for reading; after a
/// written closing message it is closed; after a registration answer nothing
/// more. Only the written-to executor's pending messages change.
pub proof fn lemma_finish_write(v: CoreView, t: usize, sent: ExecutorMessage)
    requires
        v.wf(),
        v.has_executor(t),
    ensures
        ({
            let i = v.executor_index(t);
            let e = v.executors[i];
            let (w, r) = v.finish_write(t, sent);
            &&& w.queue == v.queue
            &&& w.incoming == v.incoming
            &&& w.next_token == v.next_token
            &&& w.executors.len() == v.executors.len()
            &&& forall|j: int| 0 <= j < v.executors.len() && j != i ==> #[trigger] w.executors[j] == v.executors[j]
            &&& w.executors[i].status == e.status
            &&& w.executors[i].id == e.id
            &&& sent is BuildRequest ==> r == Reaction::Reregister(Interest::Writable)
                && w.executors[i].pending == e.pending.push(ExecutorMessage::ExecutorStatusQuery)
            &&& sent is ExecutorStatusQuery ==> r == Reaction::Reregister(Interest::Readable) && w == v
            &&& sent is CloseConnection ==> r == Reaction::Close && w == v
            &&& sent is ExecutorRegisterResponse ==> r == Reaction::Nothing && w == v
        }),
{
    lemma_index_in_range(v, t);
}

// ---------------------------------------------------------------- executors' messages

/// What an executor sends: a first registration gives it the fresh id, makes it
/// available and queues the answer carrying that id, to be written; a later one is
/// ignored. A status answer sets its status, a job result changes nothing; both
/// leave the connection watched for reading. A closing message, or nothing
/// readable, closes the connection. Only that executor changes.
pub proof fn lemma_receive_from_executor(v: CoreView, t: usize, m: Option<ExecutorMessage>, fresh_id: String)
    requires
        v.wf(),
        v.has_executor(t),
    ensures
        ({
            let i = v.executor_index(t);
            let e = v.executors[i];
            let (w, r) = v.receive_from_executor(t, m, fresh_id);
            &&& w.queue == v.queue
            &&& w.incoming == v.incoming
            &&& w.next_token == v.next_token
            &&& w.executors.len() == v.executors.len()
            &&& forall|j: int| 0 <= j < v.executors.len() && j != i ==> #[trigger] w.executors[j] == v.executors[j]
            &&& w.executors[i].token == t
            &&& m is None ==> r == Reaction::Close && w == v
            &&& (m matches Some(ExecutorMessage::CloseConnection(_))) ==> r == Reaction::Close && w == v
            &&& (m matches Some(ExecutorMessage::JobResult(_))) ==> r == Reaction::Reregister(Interest::Readable) && w == v
            &&& m matches Some(ExecutorMessage::ExecutorStatusResponse(s)) ==> {
                &&& r == Reaction::Reregister(Interest::Readable)
                &&& w.executors[i].status == s
                &&& w.executors[i].id == e.id
                &&& w.executors[i].pending == e.pending
            }
            &&& (m matches Some(ExecutorMessage::ExecutorRegister)) && e.status == ExecutorStatus::YetToRegister ==> {
                &&& r == Reaction::Reregister(Interest::Writable)
                &&& w.executors[i].id == Some(fresh_id)
                &&& w.executors[i].status == ExecutorStatus::Available
                &&& w.executors[i].pending == e.pending.push((ExecutorMessage::ExecutorRegisterResponse { id: fresh_id }))
            }
            &&& (m matches Some(ExecutorMessage::ExecutorRegister)) && e.status != ExecutorStatus::YetToRegister ==> {
                &&& r == Reaction::Nothing
                &&& w == v
            }
        }),
{
    lemma_index_in_range(v, t);
}

// ---------------------------------------------------------------- dispatch

proof fn lemma_dispatch_all_wakes(q: Seq<BuildRequestFromRepo>, es: Seq<ExecutorView>)
    ensures
        forall|i: int| 0 <= i < es.len() && es[i].pending.len() > 0 ==> dispatch_all(q, es).2.contains(#[trigger] es[i].token),
        forall|i: int|
            0 <= i < es.len() && (#[trigger] dispatch_all(q, es).1[i]).pending.len() > es[i].pending.len() ==> dispatch_all(q, es).2.contains(es[i].token),
        forall|k: int| 0 <= k < dispatch_all(q, es).2.len() ==> exists|i: int| 0 <= i < es.len() && #[trigger] dispatch_all(q, es).2[k] == es[i].token,
        dispatch_all(q, es).1.len() == es.len(),
    decreases es.len(),
{
    if es.len() > 0 {
        let es0 = es.drop_last();
        lemma_dispatch_all_wakes(q, es0);
        let (q1, es1, w1) = dispatch_all(q, es0);
        let last = es.last();
        let (q2, e2, w2) = dispatch_step(q1, last);
        let w = w1 + w2;
        assert(dispatch_all(q, es) == (q2, es1.push(e2), w));
        let n = es.len() - 1;
        assert forall|i: int| 0 <= i < es.len() && es[i].pending.len() > 0 implies w.contains(#[trigger] es[i].token) by {
            if i < n {
                assert(es[i] == es0[i]);
                let k = choose|k: int| 0 <= k < w1.len() && w1[k] == es0[i].token;
                assert(w[k] == w1[k]);
            } else {
                assert(w2[0] == last.token);
                assert(w[w1.len() as int] == w2[0]);
            }
        }
        assert forall|i: int| 0 <= i < es.len() && (#[trigger] dispatch_all(q, es).1[i]).pending.len() > es[i].pending.len() implies
            w.contains(es[i].token) by {
            if i < n {
                assert(es[i] == es0[i]);
                assert(dispatch_all(q, es).1[i] == es1[i]);
                let k = choose|k: int| 0 <= k < w1.len() && w1[k] == es0[i].token;
                assert(w[k] == w1[k]);
            } else {
                assert(dispatch_all(q, es).1[i] == e2);
                assert(w2.last() == last.token);
                assert(w[w.len() - 1] == w2.last());
            }
        }
        assert forall|k: int| 0 <= k < w.len() implies exists|i: int| 0 <= i < es.len() && #[trigger] w[k] == es[i].token by {
            if k < w1.len() {
                assert(w[k] == w1[k]);
                let i = choose|i: int| 0 <= i < es0.len() && w1[k] == es0[i].token;
                assert(es[i] == es0[i]);
            } else {
                assert(w[k] == w2[k - w1.len()]);
                assert(w2[k - w1.len()] == last.token);
                assert(es[n] == last);
            }
        }
    }
}

/// Whom a dispatch wakes: every executor with messages pending before the round,
/// whatever its status, and every executor that got a job, is among the tokens to
/// watch for writing; and every token it names is a connected executor's.
pub proof fn lemma_dispatch_wakes(v: CoreView)
    requires
        v.wf(),
    ensures
        forall|i: int|
            0 <= i < v.executors.len() && v.executors[i].pending.len() > 0 ==> v.dispatch().1.contains(
                #[trigger] v.executors[i].token,
            ),
        forall|i: int|
            0 <= i < v.executors.len() && (#[trigger] v.dispatch().0.executors[i]).pending.len() > v.executors[i].pending.len()
                ==> v.dispatch().1.contains(v.executors[i].token),
        forall|k: int| 0 <= k < v.dispatch().1.len() ==> v.has_executor(#[trigger] v.dispatch().1[k]),
{
    lemma_dispatch_all_wakes(v.queue, v.executors);
    assert forall|k: int| 0 <= k < v.dispatch().1.len() implies v.has_executor(#[trigger] v.dispatch().1[k]) by {
        let i = choose|i: int| 0 <= i < v.executors.len() && v.dispatch().1[k] == v.executors[i].token;
        assert(v.tokens()[i] == v.executors[i].token);
    }
}

// ---------------------------------------------------------------- addresses

/// The value of a character as a decimal digit.
pub open spec fn digit_value(c: char) -> int {
    (c as int) - ('0' as int)
}

pub open spec fn is_digit(c: char) -> bool {
    0 <= digit_value(c) < 10
}

/// The number a string of decimal digits reads as.
pub open spec fn decimal_value(s: Seq<char>) -> int
    decreases s.len(),
{
    if s.len() == 0 {
        0
    } else {
        decimal_value(s.drop_last()) * 10 + digit_value(s.last())
    }
}

/// Each digit is written as its own character: the `d`-th after '0'.
pub proof fn lemma_digit_char(d: nat)
    requires
        d < 10,
    ensures
        digit_value(digit_char(d)) == d,
        is_digit(digit_char(d)),
{
}

/// The decimal writing of `n` is the usual one: digits only, reading back as `n`,
/// with no leading zero.
pub proof fn lemma_decimal(n: nat)
    ensures
        decimal(n).len() > 0,
        forall|k: int| 0 <= k < decimal(n).len() ==> is_digit(#[trigger] decimal(n)[k]),
        decimal_value(decimal(n)) == n,
        n > 0 ==> decimal(n)[0] != '0',
    decreases n,
{
    if n < 10 {
        lemma_digit_char(n);
        assert(decimal(n).drop_last() =~= Seq::<char>::empty());
        assert(decimal(n).last() == digit_char(n));
        assert(decimal_value(decimal(n)) == decimal_value(Seq::<char>::empty()) * 10 + digit_value(digit_char(n)));
    } else {
        lemma_decimal(n / 10);
        lemma_digit_char(n % 10);
        let s = decimal(n);
        let p = decimal(n / 10);
        assert(s == p.push(digit_char(n % 10)));
        assert(s.drop_last() =~= p);
        assert forall|k: int| 0 <= k < s.len() implies is_digit(#[trigger] s[k]) by {
            if k < p.len() {
                assert(s[k] == p[k]);
            }
        }
        assert(s[0] == p[0]);
        assert(s.last() == digit_char(n % 10));
        assert(decimal_value(s) == decimal_value(p) * 10 + digit_value(s.last()));
        assert((n / 10) * 10 + n % 10 == n) by (nonlinear_arith);
    }
}

/// A bind address is the host, a colon, and the port in decimal: the part after
/// the colon reads back as the port.
pub proof fn lemma_socket_address(host: Seq<char>, port: nat)
    ensures
        socket_address(host, port).subrange(0, host.len() as int) == host,
        socket_address(host, port)[host.len() as int] == ':',
        decimal_value(socket_address(host, port).subrange((host.len() + 1) as int, socket_address(host, port).len() as int))
            == port,
        forall|k: int|
            host.len() < k < socket_address(host, port).len() ==> is_digit(#[trigger] socket_address(host, port)[k]),
{
    lemma_decimal(port);
    let a = socket_address(host, port);
    assert(a.subrange(0, host.len() as int) =~= host);
    assert(a.subrange((host.len() + 1) as int, a.len() as int) =~= decimal(port));
    assert forall|k: int| host.len() < k < a.len() implies is_digit(#[trigger] a[k]) by {
        assert(a[k] == decimal(port)[k - host.len() - 1]);
    }
}

// ---------------------------------------------------------------- closing

/// Closing answers whether the token was a connection of the core, and changes
/// neither the queue nor the token counter.
pub proof fn lemma_close(v: CoreView, t: usize)
    requires
        v.wf(),
    ensures
        v.close(t).1 == (v.incoming.contains(t) || v.has_executor(t)),
        v.close(t).0.queue == v.queue,
        v.close(t).0.next_token == v.next_token,
        !v.close(t).1 ==> v.close(t).0 == v,
        v.close(t).0.incoming.len() + v.close(t).0.executors.len() + (if v.close(t).1 { 1int } else { 0int })
            == v.incoming.len() + v.executors.len(),
{
}

// ---------------------------------------------------------------- queuing

/// A message queued for an executor goes after everything already pending; a job
/// goes directly behind a status query of its own.
pub proof fn lemma_queued(p: Seq<ExecutorMessage>, m: ExecutorMessage)
    ensures
        queued(p, m).subrange(0, p.len() as int) == p,
        queued(p, m).last() == m,
        m is BuildRequest ==> queued(p, m).len() == p.len() + 2 && queued(p, m)[p.len() as int]
            == ExecutorMessage::ExecutorStatusQuery,
        !(m is BuildRequest) ==> queued(p, m).len() == p.len() + 1,
{
    assert(queued(p, m).subrange(0, p.len() as int) =~= p);
}

// ---------------------------------------------------------------- configuration

/// Unless configured otherwise, both listeners bind to every interface, the
/// sources of jobs on port 5632 and the executors on port 5633.
pub proof fn lemma_defaults()
    ensures
        default_host() == "0.0.0.0"@,
        default_incoming_port() == 5632,
        default_executor_port() == 5633,
{
    reveal_strlit("0.0.0.0");
    assert(default_host() =~= "0.0.0.0"@);
}

// ---------------------------------------------------------------- reading

/// When reading stops: at the end of the stream (a read of 0 bytes), when a read
/// would block, or when it fails; an interrupted read is retried. None of these
/// changes what was received.
pub proof fn lemma_read_steps(v: ReceiveBufferView, chunk: Seq<u8>)
    ensures
        v.after(ReadOutcome::Bytes(0), chunk) == (v, ReadStep::Finished),
        v.after(ReadOutcome::WouldBlock, chunk) == (v, ReadStep::Finished),
        v.after(ReadOutcome::Interrupted, chunk) == (v, ReadStep::Continue),
        v.after(ReadOutcome::Failed, chunk) == (v, ReadStep::Failed),
{
}

/// A read of some bytes goes on, and what was received grows by exactly those
/// bytes, after what was there; the buffer never shrinks.
pub proof fn lemma_read_bytes(v: ReceiveBufferView, n: usize, chunk: Seq<u8>)
    requires
        0 < n <= chunk.len(),
    ensures
        v.after(ReadOutcome::Bytes(n), chunk).1 == ReadStep::Continue,
        v.after(ReadOutcome::Bytes(n), chunk).0.received.len() == v.received.len() + n,
        v.after(ReadOutcome::Bytes(n), chunk).0.received.subrange(0, v.received.len() as int) == v.received,
        v.after(ReadOutcome::Bytes(n), chunk).0.received.subrange(v.received.len() as int, v.received.len() + n)
            == chunk.subrange(0, n as int),
        v.after(ReadOutcome::Bytes(n), chunk).0.capacity >= v.capacity,
        v.received.len() + n == v.capacity ==> v.after(ReadOutcome::Bytes(n), chunk).0.capacity == 2 * v.capacity,
{
    let r = v.after(ReadOutcome::Bytes(n), chunk).0.received;
    assert(r.subrange(0, v.received.len() as int) =~= v.received);
    assert(r.subrange(v.received.len() as int, v.received.len() + n) =~= chunk.subrange(0, n as int));
}

proof fn lemma_available_count_take(es: Seq<ExecutorView>, i: int)
    requires
        0 <= i <= es.len(),
    ensures
        available_count(es.take(i)) <= available_count(es),
    decreases es.len(),
{
    if i < es.len() {
        assert(es.drop_last().take(i) =~= es.take(i));
        lemma_available_count_take(es.drop_last(), i);
    } else {
        assert(es.take(i) =~= es);
    }
}

/// Whom a dispatch gives jobs to: only available executors, one job each, behind
/// a status query of its own, taken from the queue; an available executor goes
/// without only when the queue runs out. No executor's token, status or id
/// changes, and the queue keeps its newest jobs.
pub proof fn lemma_dispatch_targets(v: CoreView)
    requires
        v.wf(),
    ensures
        v.dispatch().0.executors.len() == v.executors.len(),
        v.dispatch().0.incoming == v.incoming,
        v.dispatch().0.next_token == v.next_token,
        forall|i: int|
            0 <= i < v.executors.len() ==> {
                &&& (#[trigger] v.dispatch().0.executors[i]).token == v.executors[i].token
                &&& v.dispatch().0.executors[i].status == v.executors[i].status
                &&& v.dispatch().0.executors[i].id == v.executors[i].id
            },
        forall|i: int|
            0 <= i < v.executors.len() && (#[trigger] v.dispatch().0.executors[i]).pending != v.executors[i].pending
                ==> v.executors[i].status == ExecutorStatus::Available && exists|k: int|
                0 <= k < v.queue.len() && v.dispatch().0.executors[i].pending == v.executors[i].pending.push(
                    ExecutorMessage::ExecutorStatusQuery,
                ).push(ExecutorMessage::BuildRequest(#[trigger] v.queue[k])),
        forall|i: int|
            0 <= i < v.executors.len() && v.executors[i].status == ExecutorStatus::Available && (
            #[trigger] v.dispatch().0.executors[i]).pending == v.executors[i].pending ==> v.dispatch().0.queue.len() == 0,
        v.dispatch().0.queue == v.queue.subrange(v.queue.len() - v.dispatch().0.queue.len(), v.queue.len() as int),
{
    lemma_dispatch_order(v);
    let w = v.dispatch().0;
    let m = min(v.queue.len(), available_count(v.executors));
    assert(w.queue == v.queue.skip(m as int));
    assert(w.queue =~= v.queue.subrange(v.queue.len() - w.queue.len(), v.queue.len() as int));
    assert forall|i: int|
        0 <= i < v.executors.len() && (#[trigger] w.executors[i]).pending != v.executors[i].pending implies
        v.executors[i].status == ExecutorStatus::Available && exists|k: int|
            0 <= k < v.queue.len() && w.executors[i].pending == v.executors[i].pending.push(
                ExecutorMessage::ExecutorStatusQuery,
            ).push(ExecutorMessage::BuildRequest(#[trigger] v.queue[k])) by {
        assert(w.executors[i] == dispatched(v.queue, v.executors, i));
        let k = available_count(v.executors.take(i)) as int;
        assert(w.executors[i].pending == v.executors[i].pending.push(ExecutorMessage::ExecutorStatusQuery).push(
            ExecutorMessage::BuildRequest(v.queue[k])));
    }
    assert forall|i: int|
        0 <= i < v.executors.len() && v.executors[i].status == ExecutorStatus::Available && (
        #[trigger] w.executors[i]).pending == v.executors[i].pending implies w.queue.len() == 0 by {
        assert(w.executors[i] == dispatched(v.queue, v.executors, i));
        let k = available_count(v.executors.take(i));
        if k < v.queue.len() {
            let p = v.executors[i].pending;
            assert(w.executors[i].pending.len() == p.len() + 2);
        }
        lemma_available_count_take(v.executors, i);
    }
    assert forall|i: int| 0 <= i < v.executors.len() implies {
        &&& (#[trigger] w.executors[i]).token == v.executors[i].token
        &&& w.executors[i].status == v.executors[i].status
        &&& w.executors[i].id == v.executors[i].id
    } by {
        assert(w.executors[i] == dispatched(v.queue, v.executors, i));
    }
}

} // verus!
