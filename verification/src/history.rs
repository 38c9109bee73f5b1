//! Laws over whole runs of the core: any sequence of events, applied from the
//! state the core starts in, each event taken where the core accepts it.
//!
//! A run records every message written to an executor, with the executor's token,
//! and every build request received. A write is taken to complete in full: the
//! message `begin_write` hands out is written and `finish_write` follows.
use vstd::prelude::*;
use vstd::multiset::Multiset;
use crate::net::{BuildRequestFromRepo, ExecutorMessage, IncomingMessage};
use crate::scheduler::{lemma_accept_executor_wf, lemma_accept_incoming_wf, lemma_close_forgets_token,
    lemma_with_executor_wf, pending_ok, queued, CoreView, ExecutorView, WriteStep};
use crate::jobs::{dispatched, job_of, jobs, lemma_accept_jobs, lemma_begin_write_jobs, lemma_close_jobs,
    lemma_dispatch_keeps_jobs, lemma_dispatch_order, lemma_index_in_range, lemma_finish_write_jobs, lemma_receive_from_executor_jobs,
    lemma_receive_incoming_jobs};

verus! {

/// One event the event loop hands to the core.
pub enum Event {
    /// a source of build requests connected
    AcceptIncoming,
    /// an executor connected
    AcceptExecutor,
    /// a source of build requests sent a message, or closed (`None`)
    Incoming(usize, Option<IncomingMessage>),
    /// an executor's connection can be written to; the message handed out, if
    /// any, is written in full
    Writable(usize),
    /// an executor sent a message, or closed (`None`); the id it gets if this
    /// registers it
    FromExecutor(usize, Option<ExecutorMessage>, String),
    /// the connection of the token is dropped
    Close(usize),
    /// the round of dispatch after a batch of events
    Dispatch,
}

/// The state of the core, with what the run did so far.
pub struct History {
    pub core: CoreView,
    /// every message written to an executor, in order, with the executor's token
    pub written: Seq<(usize, ExecutorMessage)>,
    /// every build request received
    pub received: Multiset<BuildRequestFromRepo>,
}

/// The messages written to the executor of token `t`, in order.
pub open spec fn written_to(written: Seq<(usize, ExecutorMessage)>, t: usize) -> Seq<ExecutorMessage>
    decreases written.len(),
{
    if written.len() == 0 {
        Seq::empty()
    } else if written.last().0 == t {
        written_to(written.drop_last(), t).push(written.last().1)
    } else {
        written_to(written.drop_last(), t)
    }
}

/// The jobs written to executors.
pub open spec fn written_jobs(written: Seq<(usize, ExecutorMessage)>) -> Multiset<BuildRequestFromRepo>
    decreases written.len(),
{
    if written.len() == 0 {
        Multiset::empty()
    } else {
        written_jobs(written.drop_last()).add(job_of(written.last().1))
    }
}

/// The core as it starts: no job, no connection.
pub open spec fn start() -> History {
    History {
        core: CoreView {
            queue: Seq::empty(),
            incoming: Seq::empty(),
            executors: Seq::empty(),
            next_token: 2,
        },
        written: Seq::empty(),
        received: Multiset::empty(),
    }
}

/// Whether the core accepts the event: the `requires` of the function that
/// handles it.
pub open spec fn allowed(h: History, e: Event) -> bool {
    match e {
        Event::AcceptIncoming => h.core.next_token < usize::MAX,
        Event::AcceptExecutor => h.core.next_token < usize::MAX,
        Event::Incoming(t, _) => h.core.incoming.contains(t),
        Event::Writable(t) => h.core.has_executor(t),
        Event::FromExecutor(t, m, _) => h.core.has_executor(t) && (m is Some ==> m->0.is_sent_by_executor()),
        Event::Close(_) => true,
        Event::Dispatch => true,
    }
}

/// What one event does.
pub open spec fn step(h: History, e: Event) -> History {
    match e {
        Event::AcceptIncoming => History { core: h.core.accept_incoming(), ..h },
        Event::AcceptExecutor => History { core: h.core.accept_executor(), ..h },
        Event::Incoming(_, m) => History {
            core: h.core.receive_incoming(m).0,
            received: match m {
                Some(IncomingMessage::BuildRequestFromRepo(b)) => h.received.insert(b),
                None => h.received,
            },
            ..h
        },
        Event::Writable(t) => {
            let (c1, s) = h.core.begin_write(t);
            match s {
                WriteStep::Send(m) => History {
                    core: c1.finish_write(t, m).0,
                    written: h.written.push((t, m)),
                    ..h
                },
                _ => History { core: c1, ..h },
            }
        },
        Event::FromExecutor(t, m, id) => History { core: h.core.receive_from_executor(t, m, id).0, ..h },
        Event::Close(t) => History { core: h.core.close(t).0, ..h },
        Event::Dispatch => History { core: h.core.dispatch().0, ..h },
    }
}

/// The events applied in turn.
pub open spec fn run(h: History, events: Seq<Event>) -> History
    decreases events.len(),
{
    if events.len() == 0 {
        h
    } else {
        step(run(h, events.drop_last()), events.last())
    }
}

/// Every event of the run is accepted where it comes.
pub open spec fn allowed_run(h: History, events: Seq<Event>) -> bool
    decreases events.len(),
{
    if events.len() == 0 {
        true
    } else {
        allowed_run(h, events.drop_last()) && allowed(run(h, events.drop_last()), events.last())
    }
}

/// Each job written to an executor comes directly after a status query.
pub open spec fn job_follows_query(w: Seq<ExecutorMessage>) -> bool {
    forall|k: int| 0 <= k < w.len() && (#[trigger] w[k]) is BuildRequest ==> k > 0 && w[k - 1] is ExecutorStatusQuery
}

/// After the last job written to an executor, a status query is pending for it.
pub open spec fn query_after_job(e: ExecutorView, w: Seq<ExecutorMessage>) -> bool {
    w.len() > 0 && w.last() is BuildRequest ==> e.pending.contains(ExecutorMessage::ExecutorStatusQuery)
}

/// How the pending messages of an executor stand with what was written to it: a
/// job is pending directly behind a status query, or, at the front, directly after
/// a status query that was written.
pub open spec fn ordered(e: ExecutorView, w: Seq<ExecutorMessage>) -> bool {
    &&& forall|k: int|
        0 < k < e.pending.len() && (#[trigger] e.pending[k]) is BuildRequest ==> e.pending[k - 1] is ExecutorStatusQuery
    &&& e.pending.len() > 0 && e.pending[0] is BuildRequest ==> w.len() > 0 && w.last() is ExecutorStatusQuery
    &&& query_after_job(e, w)
}

/// The invariant of a run.
pub open spec fn inv(h: History) -> bool {
    &&& h.core.wf()
    &&& forall|j: int| 0 <= j < h.written.len() ==> (#[trigger] h.written[j]).0 < h.core.next_token
    &&& forall|t: usize| job_follows_query(#[trigger] written_to(h.written, t))
    &&& forall|i: int|
        0 <= i < h.core.executors.len() ==> ordered(
            #[trigger] h.core.executors[i],
            written_to(h.written, h.core.executors[i].token),
        )
    &&& jobs(h.core).add(written_jobs(h.written)).subset_of(h.received)
}

proof fn lemma_written_to_push(written: Seq<(usize, ExecutorMessage)>, t: usize, m: ExecutorMessage, u: usize)
    ensures
        written_to(written.push((t, m)), u) == if t == u {
            written_to(written, u).push(m)
        } else {
            written_to(written, u)
        },
        written_jobs(written.push((t, m))) == written_jobs(written).add(job_of(m)),
{
    assert(written.push((t, m)).drop_last() =~= written);
}

proof fn lemma_written_to_absent(written: Seq<(usize, ExecutorMessage)>, t: usize)
    requires
        forall|j: int| 0 <= j < written.len() ==> (#[trigger] written[j]).0 != t,
    ensures
        written_to(written, t) == Seq::<ExecutorMessage>::empty(),
    decreases written.len(),
{
    if written.len() > 0 {
        assert(written.last() == written[written.len() - 1]);
        assert forall|j: int| 0 <= j < written.drop_last().len() implies (#[trigger] written.drop_last()[j]).0 != t by {
            assert(written.drop_last()[j] == written[j]);
        }
        lemma_written_to_absent(written.drop_last(), t);
    }
}

/// Replacing executor `i` by one with the same token keeps the token lookup.
proof fn lemma_same_tokens(v: CoreView, i: int, e: ExecutorView, q: Seq<BuildRequestFromRepo>)
    requires
        0 <= i < v.executors.len(),
        e.token == v.executors[i].token,
    ensures
        (CoreView { queue: q, ..v.with_executor(i, e) }).tokens() == v.tokens(),
{
    assert((CoreView { queue: q, ..v.with_executor(i, e) }).tokens() =~= v.tokens());
}

/// The executor of a token is the only one with that token.
proof fn lemma_token_unique(v: CoreView, i: int, j: int)
    requires
        v.wf(),
        0 <= i < v.executors.len(),
        0 <= j < v.executors.len(),
        v.executors[i].token == v.executors[j].token,
    ensures
        i == j,
{
    if i < j {
        assert(v.executors[i].token != v.executors[j].token);
    } else if j < i {
        assert(v.executors[j].token != v.executors[i].token);
    }
}

proof fn lemma_subset_step(
    a: Multiset<BuildRequestFromRepo>,
    b: Multiset<BuildRequestFromRepo>,
    r: Multiset<BuildRequestFromRepo>,
)
    requires
        a.subset_of(b),
        b.subset_of(r),
    ensures
        a.subset_of(r),
{
}

proof fn lemma_step_accept_incoming(h: History, e: Event)
    requires
        inv(h),
        allowed(h, e),
        e is AcceptIncoming,
    ensures
        inv(step(h, e)),
{
    let v = h.core;
    let w = step(h, e);
    let wj = written_jobs(h.written);
    match e {
        Event::AcceptIncoming => {
            lemma_accept_incoming_wf(v);
            lemma_accept_jobs(v);
            assert(w.core.executors == v.executors);
        },
        _ => {},
    }
}

proof fn lemma_step_accept_executor(h: History, e: Event)
    requires
        inv(h),
        allowed(h, e),
        e is AcceptExecutor,
    ensures
        inv(step(h, e)),
{
    let v = h.core;
    let w = step(h, e);
    let wj = written_jobs(h.written);
    match e {
        Event::AcceptExecutor => {
            lemma_accept_executor_wf(v);
            lemma_accept_jobs(v);
            let n = v.executors.len();
            assert forall|i: int| 0 <= i < w.core.executors.len() implies ordered(
                #[trigger] w.core.executors[i],
                written_to(w.written, w.core.executors[i].token),
            ) by {
                if i < n {
                    assert(w.core.executors[i] == v.executors[i]);
                } else {
                    assert forall|j: int| 0 <= j < h.written.len() implies (#[trigger] h.written[j]).0 != v.next_token by {
                    }
                    lemma_written_to_absent(h.written, v.next_token);
                }
            }
        },
        _ => {},
    }
}

proof fn lemma_step_incoming(h: History, e: Event)
    requires
        inv(h),
        allowed(h, e),
        e is Incoming,
    ensures
        inv(step(h, e)),
{
    let v = h.core;
    let w = step(h, e);
    let wj = written_jobs(h.written);
    match e {
        Event::Incoming(t, m) => {
            match m {
                Some(IncomingMessage::BuildRequestFromRepo(b)) => {
                    lemma_receive_incoming_jobs(v, b);
                    assert forall|x: BuildRequestFromRepo| #[trigger] jobs(w.core).add(wj).count(x) <= w.received.count(x) by {
                        assert(jobs(v).add(wj).count(x) <= h.received.count(x));
                    }
                    assert(jobs(w.core).add(wj).subset_of(w.received));
                },
                None => {},
            }
            assert(w.core.executors == v.executors);
        },
        _ => {},
    }
}

/// The executor after its first pending message is taken.
pub open spec fn popped(e: ExecutorView) -> ExecutorView {
    ExecutorView { pending: e.pending.drop_first(), ..e }
}

/// The executor after the message `m`, its first pending one, was written.
pub open spec fn after_send(e: ExecutorView, m: ExecutorMessage) -> ExecutorView {
    if m is BuildRequest {
        ExecutorView { pending: popped(e).pending.push(ExecutorMessage::ExecutorStatusQuery), ..e }
    } else {
        popped(e)
    }
}

proof fn lemma_pop_facts(ex: ExecutorView, wt: Seq<ExecutorMessage>)
    requires
        ordered(ex, wt),
        pending_ok(ex),
        ex.pending.len() > 0,
    ensures
        pending_ok(popped(ex)),
        forall|k: int|
            0 < k < popped(ex).pending.len() && (#[trigger] popped(ex).pending[k]) is BuildRequest
                ==> popped(ex).pending[k - 1] is ExecutorStatusQuery,
        ex.pending[0] is BuildRequest ==> wt.len() > 0 && wt.last() is ExecutorStatusQuery,
        popped(ex).pending.len() > 0 && popped(ex).pending[0] is BuildRequest ==> ex.pending[0] is ExecutorStatusQuery,
{
    let rest = popped(ex);
    assert forall|k: int| 0 < k < rest.pending.len() && (#[trigger] rest.pending[k]) is BuildRequest implies
        rest.pending[k - 1] is ExecutorStatusQuery by {
        assert(rest.pending[k] == ex.pending[k + 1]);
        assert(rest.pending[k - 1] == ex.pending[k]);
    }
    assert forall|k: int| 0 <= k < rest.pending.len() implies (#[trigger] rest.pending[k]).is_sent_by_core() by {
        assert(rest.pending[k] == ex.pending[k + 1]);
    }
    if rest.pending.len() > 0 && rest.pending[0] is BuildRequest {
        assert(rest.pending[0] == ex.pending[1]);
    }
}

proof fn lemma_send_facts(ex: ExecutorView, wt: Seq<ExecutorMessage>)
    requires
        ordered(ex, wt),
        pending_ok(ex),
        ex.pending.len() > 0,
        job_follows_query(wt),
    ensures
        ordered(after_send(ex, ex.pending[0]), wt.push(ex.pending[0])),
        pending_ok(after_send(ex, ex.pending[0])),
        job_follows_query(wt.push(ex.pending[0])),
        after_send(ex, ex.pending[0]).token == ex.token,
{
    lemma_pop_facts(ex, wt);
    let m = ex.pending[0];
    let rest = popped(ex);
    let nw = wt.push(m);
    assert forall|k: int| 0 <= k < nw.len() && (#[trigger] nw[k]) is BuildRequest implies k > 0
        && nw[k - 1] is ExecutorStatusQuery by {
        if k < wt.len() {
            assert(nw[k] == wt[k]);
            assert(nw[k - 1] == wt[k - 1]);
        }
    }
    let e2 = after_send(ex, m);
    if m is BuildRequest {
        let n = rest.pending.len();
        assert(e2.pending[n as int] == ExecutorMessage::ExecutorStatusQuery);
        assert forall|k: int| 0 <= k < e2.pending.len() implies (#[trigger] e2.pending[k]).is_sent_by_core() by {
            if k < n {
                assert(e2.pending[k] == rest.pending[k]);
            }
        }
        assert forall|k: int| 0 < k < e2.pending.len() && (#[trigger] e2.pending[k]) is BuildRequest implies
            e2.pending[k - 1] is ExecutorStatusQuery by {
            assert(e2.pending[k] == rest.pending[k]);
            assert(e2.pending[k - 1] == rest.pending[k - 1]);
        }
        if n > 0 {
            assert(e2.pending[0] == rest.pending[0]);
        }
    }
}

proof fn lemma_requeue_facts(ex: ExecutorView, wt: Seq<ExecutorMessage>)
    requires
        ordered(ex, wt),
        pending_ok(ex),
        ex.pending.len() > 0,
        ex.pending[0] is BuildRequest,
    ensures
        ordered(popped(ex), wt),
        pending_ok(popped(ex)),
{
    lemma_pop_facts(ex, wt);
}

proof fn lemma_step_writable(h: History, e: Event)
    requires
        inv(h),
        allowed(h, e),
        e is Writable,
    ensures
        inv(step(h, e)),
{
    let v = h.core;
    let w = step(h, e);
    let wj = written_jobs(h.written);
    let t = e->Writable_0;
    lemma_index_in_range(v, t);
    let i = v.executor_index(t);
    let ex = v.executors[i];
    let (c1, s) = v.begin_write(t);
    lemma_begin_write_jobs(v, t);
    let wt = written_to(h.written, t);
    assert(ordered(ex, wt));
    assert(pending_ok(ex));
    if ex.pending.len() > 0 {
        let rest = popped(ex);
        lemma_pop_facts(ex, wt);
        lemma_same_tokens(v, i, rest, c1.queue);
        assert(c1 == (CoreView { queue: c1.queue, ..v.with_executor(i, rest) }));
        lemma_with_executor_wf(v, i, rest, c1.queue);
        assert(c1.executor_index(t) == i);
        assert(c1.has_executor(t));
        match s {
            WriteStep::Send(m) => {
                assert(m == ex.pending[0]);
                lemma_send_facts(ex, wt);
                lemma_writable_send(h, t, c1, m);
            },
            _ => {
                assert(ex.pending[0] is BuildRequest);
                lemma_requeue_facts(ex, wt);
                assert(w.core == c1);
                assert(c1.executors == v.executors.update(i, rest));
                lemma_with_executor_keeps(h, i, rest, c1, h.written);
            },
        }
    }
}

proof fn lemma_writable_send(h: History, t: usize, c1: CoreView, m: ExecutorMessage)
    requires
        inv(h),
        h.core.has_executor(t),
        h.core.begin_write(t) == (c1, WriteStep::Send(m)),
        c1.wf(),
        c1.has_executor(t),
        c1.executor_index(t) == h.core.executor_index(t),
        0 <= h.core.executor_index(t) < h.core.executors.len(),
        c1.executors == h.core.executors.update(h.core.executor_index(t), popped(h.core.executors[h.core.executor_index(t)])),
        h.core.executors[h.core.executor_index(t)].token == t,
        h.core.executors[h.core.executor_index(t)].pending.len() > 0,
        m == h.core.executors[h.core.executor_index(t)].pending[0],
        ordered(after_send(h.core.executors[h.core.executor_index(t)], m), written_to(h.written, t).push(m)),
        pending_ok(after_send(h.core.executors[h.core.executor_index(t)], m)),
        job_follows_query(written_to(h.written, t).push(m)),
        match m {
            ExecutorMessage::BuildRequest(b) => jobs(h.core) == jobs(c1).insert(b),
            _ => jobs(c1) == jobs(h.core),
        },
    ensures
        inv(History { core: c1.finish_write(t, m).0, written: h.written.push((t, m)), ..h }),
{
    let v = h.core;
    let i = v.executor_index(t);
    let ex = v.executors[i];
    let rest = popped(ex);
    let c2 = c1.finish_write(t, m).0;
    let w = History { core: c2, written: h.written.push((t, m)), ..h };
    let wj = written_jobs(h.written);
    let e2 = after_send(ex, m);
    lemma_finish_write_jobs(c1, t, m);
    lemma_written_to_push(h.written, t, m, t);
    assert forall|u: usize| job_follows_query(#[trigger] written_to(w.written, u)) by {
        lemma_written_to_push(h.written, t, m, u);
    }
    assert(c1.executors[i] == rest);
    if m is BuildRequest {
        lemma_with_executor_wf(c1, i, e2, c1.queue);
        assert(c2 == (CoreView { queue: c1.queue, ..c1.with_executor(i, e2) }));
    } else {
        assert(c2 == c1);
        assert(c1.executors =~= c1.executors.update(i, e2));
    }
    assert(c2.executors =~= v.executors.update(i, e2));
    assert forall|u: usize| u != e2.token implies written_to(w.written, u) == written_to(h.written, u) by {
        lemma_written_to_push(h.written, t, m, u);
    }
    lemma_with_executor_keeps(h, i, e2, c2, w.written);
    assert forall|x: BuildRequestFromRepo| #[trigger] jobs(c2).add(written_jobs(w.written)).count(x)
        <= w.received.count(x) by {
        assert(jobs(v).add(wj).count(x) <= h.received.count(x));
        vstd::multiset::axiom_multiset_add(jobs(c2), written_jobs(w.written), x);
        vstd::multiset::axiom_multiset_add(jobs(v), wj, x);
        vstd::multiset::axiom_multiset_add(wj, job_of(m), x);
        match m {
            ExecutorMessage::BuildRequest(b) => {
                vstd::multiset::axiom_multiset_add(jobs(c1), Multiset::singleton(b), x);
            },
            _ => {},
        }
    }
    assert forall|j: int| 0 <= j < w.written.len() implies (#[trigger] w.written[j]).0 < w.core.next_token by {
        if j < h.written.len() {
            assert(w.written[j] == h.written[j]);
        }
    }
}

proof fn lemma_step_from_executor(h: History, e: Event)
    requires
        inv(h),
        allowed(h, e),
        e is FromExecutor,
    ensures
        inv(step(h, e)),
{
    let v = h.core;
    let w = step(h, e);
    let wj = written_jobs(h.written);
    match e {
        Event::FromExecutor(t, m, id) => {
            lemma_index_in_range(v, t);
            let i = v.executor_index(t);
            let ex = v.executors[i];
            lemma_receive_from_executor_jobs(v, t, m, id);
            let c2 = w.core;
            let e2 = c2.executors[i];
            let wt = written_to(h.written, t);
            assert(ordered(ex, wt));
            if c2 != v {
                assert(c2.executors == v.executors.update(i, e2));
                assert(e2.token == ex.token);
                assert(pending_ok(ex));
                if e2.pending != ex.pending {
                    let r = ExecutorMessage::ExecutorRegisterResponse { id };
                    assert(e2.pending == ex.pending.push(r));
                    assert(pending_ok(e2)) by {
                        assert forall|k: int| 0 <= k < e2.pending.len() implies (#[trigger] e2.pending[k]).is_sent_by_core() by {
                            if k < ex.pending.len() {
                                assert(e2.pending[k] == ex.pending[k]);
                            }
                        }
                    }
                    assert forall|k: int| 0 < k < e2.pending.len() && (#[trigger] e2.pending[k]) is BuildRequest implies
                        e2.pending[k - 1] is ExecutorStatusQuery by {
                        assert(e2.pending[k] == ex.pending[k]);
                        assert(e2.pending[k - 1] == ex.pending[k - 1]);
                    }
                    if ex.pending.len() > 0 {
                        assert(e2.pending[0] == ex.pending[0]);
                    }
                    if ex.pending.contains(ExecutorMessage::ExecutorStatusQuery) {
                        let k = choose|k: int| 0 <= k < ex.pending.len() && ex.pending[k] == ExecutorMessage::ExecutorStatusQuery;
                        assert(e2.pending[k] == ex.pending[k]);
                    }
                }
                assert(ordered(e2, wt));
                lemma_with_executor_wf(v, i, e2, v.queue);
                assert(c2 == (CoreView { queue: v.queue, ..v.with_executor(i, e2) }));
                lemma_with_executor_keeps(h, i, e2, c2, h.written);
            }
        },
        _ => {},
    }
}

proof fn lemma_step_close(h: History, e: Event)
    requires
        inv(h),
        allowed(h, e),
        e is Close,
    ensures
        inv(step(h, e)),
{
    let v = h.core;
    let w = step(h, e);
    let wj = written_jobs(h.written);
    match e {
        Event::Close(t) => {
            lemma_close_forgets_token(v, t);
            lemma_close_jobs(v, t);
            assert forall|x: BuildRequestFromRepo| #[trigger] jobs(w.core).add(wj).count(x) <= jobs(v).add(wj).count(x) by {
                assert(jobs(w.core).count(x) <= jobs(v).count(x));
            }
            lemma_subset_step(jobs(w.core).add(wj), jobs(v).add(wj), h.received);
            if !v.incoming.contains(t) && v.has_executor(t) {
                lemma_index_in_range(v, t);
                let i = v.executor_index(t);
                assert(w.core.executors == v.executors.remove(i));
                assert forall|k: int| 0 <= k < w.core.executors.len() implies ordered(
                    #[trigger] w.core.executors[k],
                    written_to(w.written, w.core.executors[k].token),
                ) by {
                    let k0 = if k < i { k } else { k + 1 };
                    assert(w.core.executors[k] == v.executors[k0]);
                }
            } else {
                assert(w.core.executors == v.executors);
            }
        },
        _ => {},
    }
}

proof fn lemma_step_dispatch(h: History, e: Event)
    requires
        inv(h),
        allowed(h, e),
        e is Dispatch,
    ensures
        inv(step(h, e)),
{
    let v = h.core;
    let w = step(h, e);
    let wj = written_jobs(h.written);
    match e {
        Event::Dispatch => {
            lemma_dispatch_keeps_jobs(v);
            lemma_dispatch_order(v);
            assert forall|i: int| 0 <= i < w.core.executors.len() implies ordered(
                #[trigger] w.core.executors[i],
                written_to(w.written, w.core.executors[i].token),
            ) by {
                let ex = v.executors[i];
                let e2 = w.core.executors[i];
                assert(e2 == dispatched(v.queue, v.executors, i));
                let wt = written_to(h.written, ex.token);
                assert(ordered(ex, wt));
                if e2 != ex {
                    let k0 = crate::jobs::available_count(v.executors.take(i));
                    let m = ExecutorMessage::BuildRequest(v.queue[k0 as int]);
                    let n = ex.pending.len();
                    assert(e2.pending == queued(ex.pending, m));
                    assert(e2.pending == ex.pending.push(ExecutorMessage::ExecutorStatusQuery).push(m));
                    assert(e2.pending[n as int] == ExecutorMessage::ExecutorStatusQuery);
                    assert forall|k: int| 0 < k < e2.pending.len() && (#[trigger] e2.pending[k]) is BuildRequest implies
                        e2.pending[k - 1] is ExecutorStatusQuery by {
                        if k < n {
                            assert(e2.pending[k] == ex.pending[k]);
                            assert(e2.pending[k - 1] == ex.pending[k - 1]);
                        }
                    }
                    if n > 0 {
                        assert(e2.pending[0] == ex.pending[0]);
                    }
                    assert(e2.pending.contains(ExecutorMessage::ExecutorStatusQuery));
                }
            }
            assert forall|i: int| 0 <= i < v.executors.len() implies pending_ok(#[trigger] w.core.executors[i]) by {
                let ex = v.executors[i];
                let e2 = w.core.executors[i];
                assert(e2 == dispatched(v.queue, v.executors, i));
                assert(pending_ok(ex));
                if e2 != ex {
                    let k0 = crate::jobs::available_count(v.executors.take(i));
                    let m = ExecutorMessage::BuildRequest(v.queue[k0 as int]);
                    assert(e2.pending == ex.pending.push(ExecutorMessage::ExecutorStatusQuery).push(m));
                    assert forall|k: int| 0 <= k < e2.pending.len() implies (#[trigger] e2.pending[k]).is_sent_by_core() by {
                        if k < ex.pending.len() {
                            assert(e2.pending[k] == ex.pending[k]);
                        }
                    }
                }
            }
            assert forall|i: int| 0 <= i < v.executors.len() implies (#[trigger] w.core.executors[i]).token == v.executors[i].token by {
                assert(w.core.executors[i] == dispatched(v.queue, v.executors, i));
            }
            lemma_executors_wf(v, w.core);
            assert forall|x: BuildRequestFromRepo| #[trigger] jobs(w.core).add(wj).count(x) <= w.received.count(x) by {
                assert(jobs(v).add(wj).count(x) <= h.received.count(x));
            }
        },
        _ => {},
    }
}

/// Each event keeps the invariant of a run.
proof fn lemma_step_inv(h: History, e: Event)
    requires
        inv(h),
        allowed(h, e),
    ensures
        inv(step(h, e)),
{
    match e {
        Event::AcceptIncoming => lemma_step_accept_incoming(h, e),
        Event::AcceptExecutor => lemma_step_accept_executor(h, e),
        Event::Incoming(..) => lemma_step_incoming(h, e),
        Event::Writable(..) => lemma_step_writable(h, e),
        Event::FromExecutor(..) => lemma_step_from_executor(h, e),
        Event::Close(..) => lemma_step_close(h, e),
        Event::Dispatch => lemma_step_dispatch(h, e),
    }
}

/// Replacing executor `i` (same token, same number of executors, same connections)
/// keeps the parts of the invariant that speak of the other executors.
proof fn lemma_with_executor_keeps(
    h: History,
    i: int,
    e2: ExecutorView,
    c2: CoreView,
    written2: Seq<(usize, ExecutorMessage)>,
)
    requires
        inv(h),
        0 <= i < h.core.executors.len(),
        c2.executors == h.core.executors.update(i, e2),
        e2.token == h.core.executors[i].token,
        c2.incoming == h.core.incoming,
        c2.next_token == h.core.next_token,
        ordered(e2, written_to(written2, e2.token)),
        forall|u: usize| u != e2.token ==> written_to(written2, u) == written_to(h.written, u),
    ensures
        forall|k: int|
            0 <= k < c2.executors.len() ==> ordered(
                #[trigger] c2.executors[k],
                written_to(written2, c2.executors[k].token),
            ),
{
    let v = h.core;
    assert forall|k: int| 0 <= k < c2.executors.len() implies ordered(
        #[trigger] c2.executors[k],
        written_to(written2, c2.executors[k].token),
    ) by {
        if k != i {
            assert(c2.executors[k] == v.executors[k]);
            if v.executors[k].token == e2.token {
                lemma_token_unique(v, k, i);
            }
        }
    }
}

/// Changing executors without changing their tokens, and keeping their pending
/// messages the core's, keeps the invariant of the core.
proof fn lemma_executors_wf(v: CoreView, c2: CoreView)
    requires
        v.wf(),
        c2.incoming == v.incoming,
        c2.next_token == v.next_token,
        c2.executors.len() == v.executors.len(),
        forall|i: int| 0 <= i < v.executors.len() ==> (#[trigger] c2.executors[i]).token == v.executors[i].token,
        forall|i: int| 0 <= i < v.executors.len() ==> pending_ok(#[trigger] c2.executors[i]),
    ensures
        c2.wf(),
{
    assert forall|a: int| 0 <= a < c2.executors.len() implies 2 <= #[trigger] c2.executors[a].token < c2.next_token by {
        assert(c2.executors[a].token == v.executors[a].token);
    }
    assert forall|a: int, b: int| 0 <= a < b < c2.executors.len() implies #[trigger] c2.executors[a].token
        != #[trigger] c2.executors[b].token by {
        assert(c2.executors[a].token == v.executors[a].token);
        assert(c2.executors[b].token == v.executors[b].token);
    }
    assert forall|a: int, j: int| 0 <= a < c2.incoming.len() && 0 <= j < c2.executors.len() implies #[trigger] c2.incoming[a]
        != #[trigger] c2.executors[j].token by {
        assert(c2.executors[j].token == v.executors[j].token);
    }
}

proof fn lemma_run_inv(events: Seq<Event>)
    requires
        allowed_run(start(), events),
    ensures
        inv(run(start(), events)),
    decreases events.len(),
{
    if events.len() == 0 {
        let h = start();
        assert forall|t: usize| job_follows_query(#[trigger] written_to(h.written, t)) by {
            assert(written_to(h.written, t) == Seq::<ExecutorMessage>::empty());
        }
        assert(jobs(h.core).add(written_jobs(h.written)) =~= Multiset::empty()) by {
            assert(h.core.queue.to_multiset() =~= Multiset::empty()) by {
                broadcast use vstd::seq_lib::group_to_multiset_ensures;
            }
        }
    } else {
        lemma_run_inv(events.drop_last());
        lemma_step_inv(run(start(), events.drop_last()), events.last());
    }
}

/// The laws of a run of the core, whatever the events, each accepted where it
/// comes, and every write completing:
/// - no build request is written to executors more often than it was received:
///   none is written twice, to the same executor or to two;
/// - to each executor, every job written comes directly after a status query;
/// - after the last job written to a connected executor, a status query is pending
///   for it, so another status query follows unless the connection closes first;
/// - the core's invariant holds throughout.
pub proof fn lemma_run_laws(events: Seq<Event>)
    requires
        allowed_run(start(), events),
    ensures
        written_jobs(run(start(), events).written).subset_of(run(start(), events).received),
        forall|t: usize| job_follows_query(#[trigger] written_to(run(start(), events).written, t)),
        forall|i: int|
            0 <= i < run(start(), events).core.executors.len() ==> query_after_job(
                #[trigger] run(start(), events).core.executors[i],
                written_to(run(start(), events).written, run(start(), events).core.executors[i].token),
            ),
        run(start(), events).core.wf(),
{
    lemma_run_inv(events);
    let h = run(start(), events);
    assert forall|x: BuildRequestFromRepo| #[trigger] written_jobs(h.written).count(x) <= h.received.count(x) by {
        assert(jobs(h.core).add(written_jobs(h.written)).count(x) <= h.received.count(x));
        vstd::multiset::axiom_multiset_add(jobs(h.core), written_jobs(h.written), x);
    }
    assert forall|i: int| 0 <= i < h.core.executors.len() implies query_after_job(
        #[trigger] h.core.executors[i],
        written_to(h.written, h.core.executors[i].token),
    ) by {
        assert(ordered(h.core.executors[i], written_to(h.written, h.core.executors[i].token)));
    }
}

} // verus!
