use waterci_core::net::{
    BuildRequestFromRepo, ExecutorMessage, ExecutorStatus, IncomingMessage, JobConfig, JobResult,
    RepositoryConfig,
};
use waterci_core::scheduler::{next, Core, Executor, Interest, Reaction, Registration, Route, WriteStep};

fn payload(name: &str) -> BuildRequestFromRepo {
    BuildRequestFromRepo {
        repo_url: "test-repourl".to_string(),
        reference: name.to_string(),
        repo_config: RepositoryConfig {
            id: "test-repoconfig".to_string(),
            jobs: vec![JobConfig {
                id: "test".to_string(),
                name: "testing".to_string(),
                image: "testing:latest".to_string(),
                steps: vec!["echo \"hello world\"".to_string()],
            }],
        },
    }
}

fn register(core: &mut Core, id: &str) -> usize {
    let reg = core.accept_executor();
    let r = core.receive_from_executor(reg.token, Some(ExecutorMessage::ExecutorRegister), id.to_string());
    assert_eq!(r, Reaction::Reregister(Interest::Writable));
    let step = core.begin_write(reg.token);
    let msg = ExecutorMessage::ExecutorRegisterResponse { id: id.to_string() };
    assert_eq!(step, WriteStep::Send(msg.clone()));
    assert_eq!(core.finish_write(reg.token, &msg), Reaction::Nothing);
    reg.token
}

fn send(core: &mut Core, token: usize) -> ExecutorMessage {
    match core.begin_write(token) {
        WriteStep::Send(m) => m,
        other => panic!("expected a message to write, got {other:?}"),
    }
}

#[test]
fn test_simple_br() {
    let mut core = Core::new();
    let reg = core.accept_executor();
    assert_eq!(reg, Registration { token: 2, interest: Interest::Readable });
    let executor = reg.token;
    assert_eq!(
        core.receive_from_executor(executor, Some(ExecutorMessage::ExecutorRegister), "executor-id".to_string()),
        Reaction::Reregister(Interest::Writable)
    );
    let msg = send(&mut core, executor);
    assert_eq!(msg, ExecutorMessage::ExecutorRegisterResponse { id: "executor-id".to_string() });
    assert_eq!(core.finish_write(executor, &msg), Reaction::Nothing);

    let incoming = core.accept_incoming();
    assert_eq!(incoming, Registration { token: 3, interest: Interest::Readable });
    let br = payload("test-ref");
    assert_eq!(
        core.receive_incoming(incoming.token, Some(IncomingMessage::BuildRequestFromRepo(br.clone()))),
        Reaction::Nothing
    );
    assert_eq!(core.dispatch(), vec![executor]);
    assert_eq!(core.queue_len(), 0);

    let msg = send(&mut core, executor);
    assert_eq!(msg, ExecutorMessage::ExecutorStatusQuery);
    assert_eq!(core.finish_write(executor, &msg), Reaction::Reregister(Interest::Readable));
    assert_eq!(
        core.receive_from_executor(
            executor,
            Some(ExecutorMessage::ExecutorStatusResponse(ExecutorStatus::Available)),
            "unused".to_string()
        ),
        Reaction::Reregister(Interest::Readable)
    );
    assert_eq!(core.dispatch(), vec![executor]);

    let msg = send(&mut core, executor);
    assert_eq!(msg, ExecutorMessage::BuildRequest(br));
    assert_eq!(core.finish_write(executor, &msg), Reaction::Reregister(Interest::Writable));
    let msg = send(&mut core, executor);
    assert_eq!(msg, ExecutorMessage::ExecutorStatusQuery);
    assert_eq!(core.finish_write(executor, &msg), Reaction::Reregister(Interest::Readable));
    assert_eq!(
        core.receive_from_executor(
            executor,
            Some(ExecutorMessage::ExecutorStatusResponse(ExecutorStatus::Busy)),
            "unused".to_string()
        ),
        Reaction::Reregister(Interest::Readable)
    );
    assert_eq!(core.executor(executor).unwrap().status, ExecutorStatus::Busy);
    assert_eq!(core.executor(executor).unwrap().id, Some("executor-id".to_string()));
    assert_eq!(core.begin_write(executor), WriteStep::Idle);
}

#[test]
fn next_hands_out_the_current_token() {
    let mut t: usize = 7;
    assert_eq!(next(&mut t), 7);
    assert_eq!(t, 8);
    assert_eq!(next(&mut t), 8);
    assert_eq!(t, 9);
}

#[test]
fn new_core_is_empty() {
    let core = Core::new();
    assert_eq!(core.queue_len(), 0);
    assert_eq!(core.incoming_count(), 0);
    assert_eq!(core.executor_count(), 0);
    assert_eq!(core.next_token(), 2);
}

#[test]
fn tokens_are_fresh_and_routed() {
    let mut core = Core::new();
    let a = core.accept_incoming().token;
    let b = core.accept_executor().token;
    let c = core.accept_incoming().token;
    assert_eq!((a, b, c), (2, 3, 4));
    assert_eq!(core.route(0), Route::IncomingListener);
    assert_eq!(core.route(1), Route::ExecutorListener);
    assert_eq!(core.route(a), Route::IncomingConnection);
    assert_eq!(core.route(b), Route::ExecutorConnection);
    assert_eq!(core.route(c), Route::IncomingConnection);
    assert_eq!(core.route(5), Route::Unknown);
}

#[test]
fn closing_removes_the_connection() {
    let mut core = Core::new();
    let a = core.accept_incoming().token;
    let b = core.accept_executor().token;
    assert!(core.close(a));
    assert_eq!(core.route(a), Route::Unknown);
    assert!(core.close(b));
    assert_eq!(core.route(b), Route::Unknown);
    assert!(!core.close(b));
    assert!(!core.close(99));
    assert_eq!(core.incoming_count(), 0);
    assert_eq!(core.executor_count(), 0);
    // tokens are never reused
    assert_eq!(core.accept_incoming().token, 4);
}

#[test]
fn unreadable_incoming_closes() {
    let mut core = Core::new();
    let a = core.accept_incoming().token;
    assert_eq!(core.receive_incoming(a, None), Reaction::Close);
    assert_eq!(core.queue_len(), 0);
}

#[test]
fn executor_messages_close_or_reregister() {
    let mut core = Core::new();
    let t = register(&mut core, "x");
    assert_eq!(core.receive_from_executor(t, None, "y".to_string()), Reaction::Close);
    assert_eq!(
        core.receive_from_executor(t, Some(ExecutorMessage::CloseConnection("x".to_string())), "y".to_string()),
        Reaction::Close
    );
    let result = ExecutorMessage::JobResult(JobResult { job_id: "j".to_string(), success: true });
    assert_eq!(core.receive_from_executor(t, Some(result), "y".to_string()), Reaction::Reregister(Interest::Readable));
    let close = ExecutorMessage::CloseConnection("x".to_string());
    assert_eq!(core.finish_write(t, &close), Reaction::Close);
}

#[test]
fn second_registration_is_ignored() {
    let mut core = Core::new();
    let t = register(&mut core, "first");
    assert_eq!(
        core.receive_from_executor(t, Some(ExecutorMessage::ExecutorRegister), "second".to_string()),
        Reaction::Nothing
    );
    assert_eq!(core.executor(t).unwrap().id, Some("first".to_string()));
    assert_eq!(core.begin_write(t), WriteStep::Idle);
}

#[test]
fn dispatch_hands_jobs_in_order_to_available_executors() {
    let mut core = Core::new();
    let e1 = register(&mut core, "one");
    let busy = register(&mut core, "busy");
    let e2 = register(&mut core, "two");
    assert_eq!(
        core.receive_from_executor(busy, Some(ExecutorMessage::ExecutorStatusResponse(ExecutorStatus::Busy)), String::new()),
        Reaction::Reregister(Interest::Readable)
    );
    let src = core.accept_incoming().token;
    for name in ["a", "b", "c"] {
        core.receive_incoming(src, Some(IncomingMessage::BuildRequestFromRepo(payload(name))));
    }
    assert_eq!(core.queue_len(), 3);
    assert_eq!(core.dispatch(), vec![e1, e2]);
    assert_eq!(core.queue_len(), 1);
    assert_eq!(
        core.executor(e1).unwrap().pending_msgs.iter().cloned().collect::<Vec<_>>(),
        vec![ExecutorMessage::ExecutorStatusQuery, ExecutorMessage::BuildRequest(payload("a"))]
    );
    assert_eq!(
        core.executor(e2).unwrap().pending_msgs.iter().cloned().collect::<Vec<_>>(),
        vec![ExecutorMessage::ExecutorStatusQuery, ExecutorMessage::BuildRequest(payload("b"))]
    );
    assert!(core.executor(busy).unwrap().pending_msgs.is_empty());
    // next round: both still have messages pending and are still available; the
    // first one gets the last job
    assert_eq!(core.dispatch(), vec![e1, e1, e2]);
    assert_eq!(core.queue_len(), 0);
    assert_eq!(core.executor(e1).unwrap().pending_msgs.len(), 4);
}

#[test]
fn job_for_unavailable_executor_is_requeued_at_front() {
    let mut core = Core::new();
    let t = register(&mut core, "x");
    let src = core.accept_incoming().token;
    core.receive_incoming(src, Some(IncomingMessage::BuildRequestFromRepo(payload("a"))));
    core.dispatch();
    core.receive_incoming(src, Some(IncomingMessage::BuildRequestFromRepo(payload("b"))));
    let q = send(&mut core, t);
    assert_eq!(q, ExecutorMessage::ExecutorStatusQuery);
    core.receive_from_executor(t, Some(ExecutorMessage::ExecutorStatusResponse(ExecutorStatus::Busy)), String::new());
    assert_eq!(core.begin_write(t), WriteStep::Requeued);
    assert_eq!(core.queue_len(), 2);
    // the requeued job comes first again: the executor, once available, gets "a"
    core.receive_from_executor(t, Some(ExecutorMessage::ExecutorStatusResponse(ExecutorStatus::Available)), String::new());
    assert_eq!(core.dispatch(), vec![t]);
    assert_eq!(send(&mut core, t), ExecutorMessage::ExecutorStatusQuery);
    assert_eq!(send(&mut core, t), ExecutorMessage::BuildRequest(payload("a")));
}

#[test]
fn executor_queue_message_and_pending() {
    let mut e = Executor::new(9);
    assert_eq!(e.status, ExecutorStatus::YetToRegister);
    assert_eq!(e.id, None);
    let r = e.queue_message(ExecutorMessage::BuildRequest(payload("a")));
    assert_eq!(r, Registration { token: 9, interest: Interest::Writable });
    assert_eq!(e.pending_msgs.len(), 2);
    e.queue_message(ExecutorMessage::ExecutorStatusQuery);
    assert_eq!(e.pending_msgs.len(), 3);
    assert_eq!(e.send_pending_message(), Some(ExecutorMessage::ExecutorStatusQuery));
    assert_eq!(e.send_pending_message(), Some(ExecutorMessage::BuildRequest(payload("a"))));
    assert_eq!(e.send_pending_message(), Some(ExecutorMessage::ExecutorStatusQuery));
    assert_eq!(e.send_pending_message(), None);
    assert_eq!(e.reregister(Interest::Readable), Registration { token: 9, interest: Interest::Readable });
}

#[test]
fn message_directions() {
    assert!(ExecutorMessage::ExecutorRegister.is_from_executor());
    assert!(ExecutorMessage::ExecutorStatusResponse(ExecutorStatus::Busy).is_from_executor());
    assert!(!ExecutorMessage::ExecutorStatusQuery.is_from_executor());
    assert!(!ExecutorMessage::BuildRequest(payload("a")).is_from_executor());
    assert!(ExecutorMessage::ExecutorStatusQuery.is_writable_to_executor());
    assert!(ExecutorMessage::CloseConnection(String::new()).is_writable_to_executor());
    assert!(!ExecutorMessage::ExecutorRegister.is_writable_to_executor());
}

#[test]
fn closing_an_executor_drops_its_pending_job() {
    let mut core = Core::new();
    let t = register(&mut core, "x");
    let src = core.accept_incoming().token;
    core.receive_incoming(src, Some(IncomingMessage::BuildRequestFromRepo(payload("a"))));
    core.receive_incoming(src, Some(IncomingMessage::BuildRequestFromRepo(payload("b"))));
    assert_eq!(core.dispatch(), vec![t]);
    assert_eq!(core.queue_len(), 1);
    assert!(core.close(t));
    assert_eq!(core.queue_len(), 1);
    assert!(core.executor(t).is_none());
    // the other job stays for the next executor
    let u = register(&mut core, "y");
    assert_eq!(core.dispatch(), vec![u]);
    assert_eq!(send(&mut core, u), ExecutorMessage::ExecutorStatusQuery);
    assert_eq!(send(&mut core, u), ExecutorMessage::BuildRequest(payload("b")));
}

#[test]
fn successive_tokens_from_the_start() {
    let mut t: usize = 2;
    let got: Vec<usize> = (0..5).map(|_| next(&mut t)).collect();
    assert_eq!(got, vec![2, 3, 4, 5, 6]);
    assert_eq!(t, 7);
}
