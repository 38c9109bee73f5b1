//! What becomes of the jobs: which ones the core holds, and in what order the
//! dispatch hands them out.
use vstd::prelude::*;
use vstd::multiset::Multiset;
use crate::net::{BuildRequestFromRepo, ExecutorMessage, ExecutorStatus};
use crate::scheduler::{dispatch_all, dispatch_step, queued, CoreView, ExecutorView, WriteStep};

verus! {

broadcast use vstd::multiset::group_multiset_axioms;

/// The job a message carries, if it carries one.
pub open spec fn job_of(m: ExecutorMessage) -> Multiset<BuildRequestFromRepo> {
    match m {
        ExecutorMessage::BuildRequest(b) => Multiset::singleton(b),
        _ => Multiset::empty(),
    }
}

/// The jobs among pending messages.
pub open spec fn jobs_in(msgs: Seq<ExecutorMessage>) -> Multiset<BuildRequestFromRepo>
    decreases msgs.len(),
{
    if msgs.len() == 0 {
        Multiset::empty()
    } else {
        jobs_in(msgs.drop_last()).add(job_of(msgs.last()))
    }
}

/// The jobs pending for the executors, not yet written to them.
pub open spec fn pending_jobs(executors: Seq<ExecutorView>) -> Multiset<BuildRequestFromRepo>
    decreases executors.len(),
{
    if executors.len() == 0 {
        Multiset::empty()
    } else {
        pending_jobs(executors.drop_last()).add(jobs_in(executors.last().pending))
    }
}

/// Every job the core holds: queued or pending for an executor.
pub open spec fn jobs(v: CoreView) -> Multiset<BuildRequestFromRepo> {
    v.queue.to_multiset().add(pending_jobs(v.executors))
}

/// How many of the executors are available.
pub open spec fn available_count(executors: Seq<ExecutorView>) -> nat
    decreases executors.len(),
{
    if executors.len() == 0 {
        0
    } else {
        available_count(executors.drop_last()) + if executors.last().status
            == ExecutorStatus::Available {
            1nat
        } else {
            0nat
        }
    }
}

pub open spec fn min(a: nat, b: nat) -> nat {
    if a <= b {
        a
    } else {
        b
    }
}

proof fn lemma_jobs_in_push(p: Seq<ExecutorMessage>, m: ExecutorMessage)
    ensures
        jobs_in(p.push(m)) == jobs_in(p).add(job_of(m)),
{
    assert(p.push(m).drop_last() =~= p);
}

proof fn lemma_jobs_in_queued(p: Seq<ExecutorMessage>, m: ExecutorMessage)
    ensures
        jobs_in(queued(p, m)) == jobs_in(p).add(job_of(m)),
{
    if m is BuildRequest {
        lemma_jobs_in_push(p, ExecutorMessage::ExecutorStatusQuery);
        lemma_jobs_in_push(p.push(ExecutorMessage::ExecutorStatusQuery), m);
        assert(jobs_in(queued(p, m)) =~= jobs_in(p).add(job_of(m)));
    } else {
        lemma_jobs_in_push(p, m);
    }
}

proof fn lemma_jobs_in_drop_first(p: Seq<ExecutorMessage>)
    requires
        p.len() > 0,
    ensures
        jobs_in(p) == job_of(p[0]).add(jobs_in(p.drop_first())),
    decreases p.len(),
{
    if p.len() == 1 {
        assert(p.drop_last() =~= Seq::<ExecutorMessage>::empty());
        assert(p.drop_first() =~= Seq::<ExecutorMessage>::empty());
        assert(jobs_in(p) =~= job_of(p[0]).add(jobs_in(p.drop_first())));
    } else {
        lemma_jobs_in_drop_first(p.drop_last());
        assert(p.drop_last().drop_first() =~= p.drop_first().drop_last());
        assert(p.drop_first().last() == p.last());
        assert(jobs_in(p) =~= job_of(p[0]).add(jobs_in(p.drop_first())));
    }
}

proof fn lemma_pending_jobs_push(es: Seq<ExecutorView>, e: ExecutorView)
    ensures
        pending_jobs(es.push(e)) == pending_jobs(es).add(jobs_in(e.pending)),
{
    assert(es.push(e).drop_last() =~= es);
}

proof fn lemma_pending_jobs_update(es: Seq<ExecutorView>, i: int, e: ExecutorView)
    requires
        0 <= i < es.len(),
    ensures
        pending_jobs(es.update(i, e)).add(jobs_in(es[i].pending)) == pending_jobs(es).add(
            jobs_in(e.pending),
        ),
    decreases es.len(),
{
    let u = es.update(i, e);
    assert(pending_jobs(u) == pending_jobs(u.drop_last()).add(jobs_in(u.last().pending)));
    assert(pending_jobs(es) == pending_jobs(es.drop_last()).add(jobs_in(es.last().pending)));
    if i == es.len() - 1 {
        assert(u.drop_last() =~= es.drop_last());
        assert(u.last() == e);
        assert(es[i] == es.last());
        assert(pending_jobs(u) == pending_jobs(es.drop_last()).add(jobs_in(e.pending)));
        assert(pending_jobs(u).add(jobs_in(es[i].pending)) =~= pending_jobs(es).add(jobs_in(e.pending)));
    } else {
        lemma_pending_jobs_update(es.drop_last(), i, e);
        assert(u.drop_last() =~= es.drop_last().update(i, e));
        assert(u.last() == es.last());
        assert(es.drop_last()[i] == es[i]);
        let a = pending_jobs(es.drop_last().update(i, e));
        let b = jobs_in(es[i].pending);
        let c = pending_jobs(es.drop_last());
        let d = jobs_in(e.pending);
        let l = jobs_in(es.last().pending);
        assert(a.add(b) == c.add(d));
        assert(a.add(l).add(b) =~= a.add(b).add(l));
        assert(c.add(d).add(l) =~= c.add(l).add(d));
        assert(pending_jobs(u).add(b) == a.add(l).add(b));
    }
    assert(pending_jobs(u).add(jobs_in(es[i].pending)) =~= pending_jobs(es).add(jobs_in(e.pending)));
}

proof fn lemma_to_multiset_prepend(b: BuildRequestFromRepo, q: Seq<BuildRequestFromRepo>)
    ensures
        (seq![b] + q).to_multiset() == q.to_multiset().insert(b),
{
    broadcast use vstd::seq_lib::group_to_multiset_ensures;

    let s = seq![b] + q;
    assert(s.remove(0) =~= q);
    assert(s.remove(0).to_multiset() =~= s.to_multiset().remove(b));
    assert(s.to_multiset().count(b) > 0) by {
        assert(s.contains(b)) by {
            assert(s[0] == b);
        }
    }
    assert(s.to_multiset() =~= q.to_multiset().insert(b));
}

proof fn lemma_to_multiset_drop_first(q: Seq<BuildRequestFromRepo>)
    requires
        q.len() > 0,
    ensures
        q.to_multiset() == q.drop_first().to_multiset().insert(q[0]),
{
    assert(q =~= seq![q[0]] + q.drop_first());
    lemma_to_multiset_prepend(q[0], q.drop_first());
}

proof fn lemma_multiset_cancel(a: Multiset<BuildRequestFromRepo>, b: Multiset<BuildRequestFromRepo>, c: Multiset<BuildRequestFromRepo>)
    requires
        a.add(c) == b.add(c),
    ensures
        a == b,
{
    assert forall|x: BuildRequestFromRepo| a.count(x) == b.count(x) by {
        vstd::multiset::axiom_multiset_add(a, c, x);
        vstd::multiset::axiom_multiset_add(b, c, x);
        assert(a.add(c).count(x) == b.add(c).count(x));
    }
    assert(a =~= b);
}

/// Taking the first pending message of executor `i` takes its job, if it is one,
/// out of the pending jobs.
proof fn lemma_pending_jobs_pop(es: Seq<ExecutorView>, i: int)
    requires
        0 <= i < es.len(),
        es[i].pending.len() > 0,
    ensures
        pending_jobs(es.update(i, ExecutorView { pending: es[i].pending.drop_first(), ..es[i] })).add(
            job_of(es[i].pending[0]),
        ) == pending_jobs(es),
{
    let e = es[i];
    let rest = ExecutorView { pending: e.pending.drop_first(), ..e };
    lemma_pending_jobs_update(es, i, rest);
    lemma_jobs_in_drop_first(e.pending);
    let p = pending_jobs(es.update(i, rest));
    let x = pending_jobs(es);
    let r = jobs_in(rest.pending);
    let j0 = job_of(e.pending[0]);
    assert(p.add(j0.add(r)) == x.add(r));
    assert(p.add(j0).add(r) =~= p.add(j0.add(r)));
    lemma_multiset_cancel(p.add(j0), x, r);
}

/// One dispatch step keeps the jobs: the one it takes from the queue is then
/// pending for the executor.
proof fn lemma_dispatch_step_jobs(q: Seq<BuildRequestFromRepo>, e: ExecutorView)
    ensures
        dispatch_step(q, e).0.to_multiset().add(jobs_in(dispatch_step(q, e).1.pending)) == q.to_multiset().add(
            jobs_in(e.pending),
        ),
{
    if q.len() > 0 && e.status == ExecutorStatus::Available {
        let m = ExecutorMessage::BuildRequest(q[0]);
        lemma_jobs_in_queued(e.pending, m);
        lemma_to_multiset_drop_first(q);
        assert(dispatch_step(q, e).0.to_multiset().add(jobs_in(dispatch_step(q, e).1.pending))
            =~= q.to_multiset().add(jobs_in(e.pending)));
    }
}

proof fn lemma_dispatch_all_jobs(q: Seq<BuildRequestFromRepo>, es: Seq<ExecutorView>)
    ensures
        dispatch_all(q, es).0.to_multiset().add(pending_jobs(dispatch_all(q, es).1)) == q.to_multiset().add(
            pending_jobs(es),
        ),
    decreases es.len(),
{
    if es.len() > 0 {
        let (q1, es1, w1) = dispatch_all(q, es.drop_last());
        lemma_dispatch_all_jobs(q, es.drop_last());
        let (q2, e2, w2) = dispatch_step(q1, es.last());
        lemma_dispatch_step_jobs(q1, es.last());
        lemma_pending_jobs_push(es1, e2);
        assert(dispatch_all(q, es) == (q2, es1.push(e2), w1 + w2));
        assert(pending_jobs(es) == pending_jobs(es.drop_last()).add(jobs_in(es.last().pending)));
        let l = jobs_in(es.last().pending);
        let j2 = jobs_in(e2.pending);
        let p1 = pending_jobs(es1);
        assert(q2.to_multiset().add(p1.add(j2)) =~= q2.to_multiset().add(j2).add(p1));
        assert(q2.to_multiset().add(j2).add(p1) == q1.to_multiset().add(l).add(p1));
        assert(q1.to_multiset().add(l).add(p1) =~= q1.to_multiset().add(p1).add(l));
        assert(q1.to_multiset().add(p1).add(l) == q.to_multiset().add(pending_jobs(es.drop_last())).add(l));
        assert(q.to_multiset().add(pending_jobs(es.drop_last())).add(l) =~= q.to_multiset().add(pending_jobs(es)));
    }
}

/// The dispatch neither loses nor duplicates a job: the jobs it takes from the queue
/// are then pending for executors.
pub proof fn lemma_dispatch_keeps_jobs(v: CoreView)
    requires
        v.wf(),
    ensures
        jobs(v.dispatch().0) == jobs(v),
{
    lemma_dispatch_all_jobs(v.queue, v.executors);
}

/// A job that reaches the front of an executor's pending messages while the
/// executor is not available goes back to the front of the queue, and no job is
/// lost; a job that is written leaves the core; any other step keeps the jobs.
pub proof fn lemma_begin_write_jobs(v: CoreView, token: usize)
    requires
        v.wf(),
        v.has_executor(token),
    ensures
        match v.begin_write(token).1 {
            WriteStep::Send(ExecutorMessage::BuildRequest(b)) => jobs(v) == jobs(v.begin_write(token).0).insert(b),
            _ => jobs(v.begin_write(token).0) == jobs(v),
        },
{
    let i = v.executor_index(token);
    assert(v.tokens().contains(token));
    assert(0 <= i < v.executors.len()) by {
        assert(v.tokens().len() == v.executors.len());
    }
    let e = v.executors[i];
    if e.pending.len() > 0 {
        let rest = ExecutorView { pending: e.pending.drop_first(), ..e };
        lemma_pending_jobs_pop(v.executors, i);
        let p = pending_jobs(v.executors.update(i, rest));
        let w = v.begin_write(token).0;
        match e.pending[0] {
            ExecutorMessage::BuildRequest(b) => {
                assert(job_of(e.pending[0]) =~= Multiset::singleton(b));
                if e.status != ExecutorStatus::Available {
                    lemma_to_multiset_prepend(b, v.queue);
                    assert(w.queue == seq![b] + v.queue);
                    assert(w.executors == v.executors.update(i, rest));
                    assert(p.add(Multiset::singleton(b)) == pending_jobs(v.executors));
                    assert(jobs(w) =~= v.queue.to_multiset().add(p.add(Multiset::singleton(b))));
                } else {
                    assert(w.queue == v.queue);
                    assert(w.executors == v.executors.update(i, rest));
                    assert(v.begin_write(token).1 == WriteStep::Send(ExecutorMessage::BuildRequest(b)));
                    assert(jobs(v) =~= jobs(w).insert(b));
                }
            },
            _ => {
                assert(job_of(e.pending[0]) =~= Multiset::empty());
                assert(w.queue == v.queue);
                assert(w.executors == v.executors.update(i, rest));
                assert(p.add(Multiset::empty()) =~= p);
                assert(jobs(w) =~= jobs(v));
            },
        }
    }
}

/// A build request from a source of jobs joins the jobs the core holds.
pub proof fn lemma_receive_incoming_jobs(v: CoreView, b: BuildRequestFromRepo)
    requires
        v.wf(),
    ensures
        jobs(v.receive_incoming(Some(crate::net::IncomingMessage::BuildRequestFromRepo(b))).0) == jobs(v).insert(b),
{
    broadcast use vstd::seq_lib::group_to_multiset_ensures;

    assert(jobs(v.receive_incoming(Some(crate::net::IncomingMessage::BuildRequestFromRepo(b))).0) =~= jobs(v).insert(b));
}

/// What the `i`-th executor becomes in a round of dispatch over `queue`: counting
/// the available executors before it, the `k`-th available one gets the `k`-th job
/// of the queue, behind a status query, while jobs remain.
pub open spec fn dispatched(queue: Seq<BuildRequestFromRepo>, executors: Seq<ExecutorView>, i: int) -> ExecutorView {
    let k = available_count(executors.take(i));
    let e = executors[i];
    if e.status == ExecutorStatus::Available && k < queue.len() {
        ExecutorView { pending: queued(e.pending, ExecutorMessage::BuildRequest(queue[k as int])), ..e }
    } else {
        e
    }
}

proof fn lemma_dispatch_all_order(q: Seq<BuildRequestFromRepo>, es: Seq<ExecutorView>)
    ensures
        dispatch_all(q, es).0 == q.skip(min(q.len(), available_count(es)) as int),
        dispatch_all(q, es).1.len() == es.len(),
        forall|i: int| 0 <= i < es.len() ==> #[trigger] dispatch_all(q, es).1[i] == dispatched(q, es, i),
    decreases es.len(),
{
    if es.len() == 0 {
        assert(q.skip(0) =~= q);
    } else {
        let n = es.len() - 1;
        let es0 = es.drop_last();
        lemma_dispatch_all_order(q, es0);
        let (q1, es1, w1) = dispatch_all(q, es0);
        let last = es.last();
        let (q2, e2, w2) = dispatch_step(q1, last);
        assert(dispatch_all(q, es) == (q2, es1.push(e2), w1 + w2));
        assert(available_count(es) == available_count(es0) + if last.status == ExecutorStatus::Available { 1nat } else { 0nat });
        assert(es.take(n) =~= es0);
        let m1 = min(q.len(), available_count(es0));
        if q1.len() > 0 && last.status == ExecutorStatus::Available {
            assert(m1 == available_count(es0));
            assert(q1[0] == q[m1 as int]);
            assert(q2 =~= q.skip((m1 + 1) as int));
        } else {
            if last.status == ExecutorStatus::Available {
                assert(q1.len() == 0);
                assert(m1 == q.len());
                assert(q2 =~= q.skip(q.len() as int));
            }
        }
        assert forall|i: int| 0 <= i < es.len() implies #[trigger] dispatch_all(q, es).1[i] == dispatched(q, es, i) by {
            if i < n {
                assert(es.take(i) =~= es0.take(i));
                assert(es[i] == es0[i]);
                assert(dispatch_all(q, es).1[i] == es1[i]);
            }
        }
    }
}

/// The order of the dispatch: the queue loses as many jobs from its front as there
/// are available executors (or all of them, when fewer), and the `k`-th available
/// executor, in connection order, gets the `k`-th job; every other executor is left
/// as it was.
pub proof fn lemma_dispatch_order(v: CoreView)
    requires
        v.wf(),
    ensures
        v.dispatch().0.queue == v.queue.skip(min(v.queue.len(), available_count(v.executors)) as int),
        v.dispatch().0.executors.len() == v.executors.len(),
        forall|i: int|
            0 <= i < v.executors.len() ==> #[trigger] v.dispatch().0.executors[i] == dispatched(
                v.queue,
                v.executors,
                i,
            ),
{
    lemma_dispatch_all_order(v.queue, v.executors);
}

/// Replacing an executor by one with the same pending jobs keeps the pending jobs.
proof fn lemma_pending_jobs_same(es: Seq<ExecutorView>, i: int, e: ExecutorView)
    requires
        0 <= i < es.len(),
        jobs_in(e.pending) == jobs_in(es[i].pending),
    ensures
        pending_jobs(es.update(i, e)) == pending_jobs(es),
{
    lemma_pending_jobs_update(es, i, e);
    lemma_multiset_cancel(pending_jobs(es.update(i, e)), pending_jobs(es), jobs_in(e.pending));
}

/// Removing executor `i` removes exactly its pending jobs.
proof fn lemma_pending_jobs_remove(es: Seq<ExecutorView>, i: int)
    requires
        0 <= i < es.len(),
    ensures
        pending_jobs(es.remove(i)).add(jobs_in(es[i].pending)) == pending_jobs(es),
    decreases es.len(),
{
    let r = es.remove(i);
    assert(pending_jobs(es) == pending_jobs(es.drop_last()).add(jobs_in(es.last().pending)));
    if i == es.len() - 1 {
        assert(r =~= es.drop_last());
    } else {
        lemma_pending_jobs_remove(es.drop_last(), i);
        assert(r.drop_last() =~= es.drop_last().remove(i));
        assert(r.last() == es.last());
        assert(es.drop_last()[i] == es[i]);
        assert(pending_jobs(r) == pending_jobs(r.drop_last()).add(jobs_in(r.last().pending)));
        let a = pending_jobs(es.drop_last().remove(i));
        let b = jobs_in(es[i].pending);
        let l = jobs_in(es.last().pending);
        assert(a.add(b) == pending_jobs(es.drop_last()));
        assert(a.add(l).add(b) =~= a.add(b).add(l));
    }
}

/// The index of an executor's token holds that executor.
pub proof fn lemma_index_in_range(v: CoreView, token: usize)
    requires
        v.has_executor(token),
    ensures
        0 <= v.executor_index(token) < v.executors.len(),
        v.executors[v.executor_index(token)].token == token,
{
    assert(v.tokens().len() == v.executors.len());
    let i = v.executor_index(token);
    assert(v.tokens()[i] == token);
}

/// Accepting a connection changes no job.
pub proof fn lemma_accept_jobs(v: CoreView)
    ensures
        jobs(v.accept_incoming()) == jobs(v),
        jobs(v.accept_executor()) == jobs(v),
{
    let e = v.accept_executor().executors.last();
    lemma_pending_jobs_push(v.executors, e);
    assert(v.accept_executor().executors == v.executors.push(e));
    assert(jobs_in(e.pending) == Multiset::<BuildRequestFromRepo>::empty());
    assert(pending_jobs(v.executors).add(Multiset::empty()) =~= pending_jobs(v.executors));
}

/// Finishing a write changes no job: what it queues is a status query.
pub proof fn lemma_finish_write_jobs(v: CoreView, token: usize, sent: ExecutorMessage)
    requires
        v.wf(),
        v.has_executor(token),
    ensures
        jobs(v.finish_write(token, sent).0) == jobs(v),
{
    lemma_index_in_range(v, token);
    let i = v.executor_index(token);
    let e = v.executors[i];
    if sent is BuildRequest {
        let e2 = ExecutorView { pending: e.pending.push(ExecutorMessage::ExecutorStatusQuery), ..e };
        lemma_jobs_in_push(e.pending, ExecutorMessage::ExecutorStatusQuery);
        assert(jobs_in(e2.pending) =~= jobs_in(e.pending));
        lemma_pending_jobs_same(v.executors, i, e2);
    }
}

/// What an executor sends changes no job: registering queues an answer that
/// carries none.
pub proof fn lemma_receive_from_executor_jobs(
    v: CoreView,
    token: usize,
    message: Option<ExecutorMessage>,
    fresh_id: String,
)
    requires
        v.wf(),
        v.has_executor(token),
    ensures
        jobs(v.receive_from_executor(token, message, fresh_id).0) == jobs(v),
{
    lemma_index_in_range(v, token);
    let i = v.executor_index(token);
    let e = v.executors[i];
    match message {
        Some(ExecutorMessage::ExecutorRegister) => {
            if e.status == ExecutorStatus::YetToRegister {
                let m = ExecutorMessage::ExecutorRegisterResponse { id: fresh_id };
                let e2 = ExecutorView {
                    id: Some(fresh_id),
                    status: ExecutorStatus::Available,
                    pending: e.pending.push(m),
                    ..e
                };
                lemma_jobs_in_push(e.pending, m);
                assert(jobs_in(e2.pending) =~= jobs_in(e.pending));
                lemma_pending_jobs_same(v.executors, i, e2);
            }
        },
        Some(ExecutorMessage::ExecutorStatusResponse(st)) => {
            lemma_pending_jobs_same(v.executors, i, ExecutorView { status: st, ..e });
        },
        _ => {},
    }
}

/// Closing a source of build requests changes no job; closing an executor drops
/// the jobs still pending for it, and only those.
pub proof fn lemma_close_jobs(v: CoreView, token: usize)
    requires
        v.wf(),
    ensures
        !v.incoming.contains(token) && v.has_executor(token) ==> jobs(v) == jobs(v.close(token).0).add(
            jobs_in(v.executors[v.executor_index(token)].pending),
        ),
        v.incoming.contains(token) || !v.has_executor(token) ==> jobs(v.close(token).0) == jobs(v),
        jobs(v.close(token).0).subset_of(jobs(v)),
{
    let w = v.close(token).0;
    if !v.incoming.contains(token) && v.has_executor(token) {
        lemma_index_in_range(v, token);
        let i = v.executor_index(token);
        lemma_pending_jobs_remove(v.executors, i);
        assert(jobs(v) =~= jobs(w).add(jobs_in(v.executors[i].pending)));
        assert forall|x: BuildRequestFromRepo| jobs(w).count(x) <= jobs(v).count(x) by {
            assert(jobs(v).count(x) == jobs(w).count(x) + jobs_in(v.executors[i].pending).count(x));
        }
    }
}

} // verus!
