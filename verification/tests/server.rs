use async_rust::accept::{AcceptOutcome, LoopState, PollOutcome};
use async_rust::connection::TaskReport;
use async_rust::request::ParseError;
use async_rust::server::Server;

#[test]
fn server_keeps_accepting_after_a_malformed_request() {
    let mut server = Server::new(10);
    assert_eq!(server.poll(AcceptOutcome::Connection, 0), PollOutcome::Spawned);
    assert_eq!(server.task_count(), 1);
    assert!(matches!(
        server.resume_task(0, b"GET /foo\r\n\r\n"),
        Some(TaskReport::Aborted(ParseError::MalformedRequestLine))
    ));
    assert_eq!(server.accept_loop().state(), LoopState::Polling);
    assert!(server.accept_loop().wants_accept());
    assert_eq!(server.poll(AcceptOutcome::Connection, 1), PollOutcome::Spawned);
    assert_eq!(server.task_count(), 2);
    match server.resume_task(1, b"GET /foo HTTP/1.1\r\nHost: example.com\r\n\r\n") {
        Some(TaskReport::Completed { request, response }) => {
            assert_eq!(request.method(), "GET");
            assert_eq!(request.path(), "/foo");
            assert_eq!(request.header("Host").map(|v| v.as_str()), Some("example.com"));
            assert_eq!(response, b"HTTP/1.1 200 OK\r\n\r\n".to_vec());
        }
        _ => panic!("the second connection is well-formed"),
    }
}

#[test]
fn failing_task_leaves_loop_and_other_tasks_alone() {
    let mut server = Server::new(10);
    for _ in 0..3 {
        assert_eq!(server.poll(AcceptOutcome::Connection, 0), PollOutcome::Spawned);
    }
    assert_eq!(server.poll(AcceptOutcome::WouldBlock, 0), PollOutcome::Suspended { wake_after: 10 });
    assert!(matches!(server.resume_task(0, b"GET / HTTP/1.1\r\nHo"), Some(TaskReport::Suspended)));
    assert!(matches!(server.resume_task(2, b"GET /two HT"), Some(TaskReport::Suspended)));
    // the task in the middle fails
    assert!(matches!(
        server.resume_task(1, b"GET / HTTP/1.1\r\nbroken\r\n\r\n"),
        Some(TaskReport::Aborted(ParseError::MalformedHeader))
    ));
    assert_eq!(server.accept_loop().state(), LoopState::Idle);
    assert_eq!(server.task_count(), 3);
    assert_eq!(server.task(0).unwrap().unconsumed().as_slice(), b"Ho");
    assert_eq!(server.task(0).unwrap().lines_read(), 1);
    assert!(!server.task(0).unwrap().is_finished());
    assert!(server.task(1).unwrap().is_finished());
    assert_eq!(server.task(2).unwrap().unconsumed().as_slice(), b"GET /two HT");
    // the others complete
    match server.resume_task(0, b"st: a\r\n\r\n") {
        Some(TaskReport::Completed { request, .. }) => {
            assert_eq!(request.header("Host").map(|v| v.as_str()), Some("a"));
        }
        _ => panic!("task 0 is well-formed"),
    }
    match server.resume_task(2, b"TP/1.1\r\n\r\n") {
        Some(TaskReport::Completed { request, .. }) => assert_eq!(request.path(), "/two"),
        _ => panic!("task 2 is well-formed"),
    }
    // and the loop goes on as if nothing had happened
    assert_eq!(server.poll(AcceptOutcome::WouldBlock, 4), PollOutcome::Suspended { wake_after: 6 });
    assert_eq!(server.poll(AcceptOutcome::WouldBlock, 10), PollOutcome::Resumed);
    assert_eq!(server.poll(AcceptOutcome::Connection, 10), PollOutcome::Spawned);
    assert_eq!(server.task_count(), 4);
}

#[test]
fn resuming_a_task_that_does_not_exist_does_nothing() {
    let mut server = Server::new(10);
    assert!(server.resume_task(0, b"GET / HTTP/1.1\r\n\r\n").is_none());
    assert!(server.task(0).is_none());
    assert_eq!(server.task_count(), 0);
    assert_eq!(server.accept_loop().state(), LoopState::Init);
    assert_eq!(server.poll(AcceptOutcome::Connection, 0), PollOutcome::Spawned);
    assert!(server.resume_task(1, b"x").is_none());
    assert!(server.task(0).is_some());
}

#[test]
fn server_shutdown_lets_tasks_run_on() {
    let mut server = Server::new(10);
    assert_eq!(server.poll(AcceptOutcome::Connection, 0), PollOutcome::Spawned);
    assert!(matches!(server.resume_task(0, b"GET / HT"), Some(TaskReport::Suspended)));
    server.request_shutdown();
    assert!(server.accept_loop().shutdown_requested());
    assert_eq!(server.poll(AcceptOutcome::WouldBlock, 0), PollOutcome::Finished);
    assert_eq!(server.poll(AcceptOutcome::Connection, 5), PollOutcome::Finished);
    assert_eq!(server.accept_loop().state(), LoopState::Done);
    assert_eq!(server.task_count(), 1);
    assert!(matches!(
        server.resume_task(0, b"TP/1.1\r\n\r\n"),
        Some(TaskReport::Completed { .. })
    ));
}

#[test]
fn tasks_may_be_resumed_in_either_order() {
    let run = |first: usize| {
        let mut server = Server::new(10);
        assert_eq!(server.poll(AcceptOutcome::Connection, 0), PollOutcome::Spawned);
        assert_eq!(server.poll(AcceptOutcome::Connection, 0), PollOutcome::Spawned);
        let inputs: [&[u8]; 2] = [b"GET /foo\r\n\r\n", b"GET /ok HTTP/1.1\r\n\r\n"];
        let second = 1 - first;
        let a = server.resume_task(first, inputs[first]);
        let b = server.resume_task(second, inputs[second]);
        let (bad, good) = if first == 0 { (a, b) } else { (b, a) };
        assert!(matches!(bad, Some(TaskReport::Aborted(ParseError::MalformedRequestLine))));
        match good {
            Some(TaskReport::Completed { request, .. }) => assert_eq!(request.path(), "/ok"),
            _ => panic!("the second task is well-formed"),
        }
        assert_eq!(server.accept_loop().state(), LoopState::Polling);
    };
    run(0);
    run(1);
}
