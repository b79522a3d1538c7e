use async_rust::connection::{response_bytes, ConnectionTask, ReadOutcome, TaskReport};
use async_rust::framing::{copy_line, find_byte, MAX_HEAD_LINES};
use async_rust::request::ParseError;

const WELL_FORMED: &[u8] = b"GET /foo HTTP/1.1\r\nHost: example.com\r\nX-Y: z\r\n\r\n";

#[test]
fn task_parses_a_well_formed_head() {
    let mut task = ConnectionTask::new();
    assert!(!task.is_finished());
    match task.resume(WELL_FORMED) {
        TaskReport::Completed { request, response } => {
            assert_eq!(request.method(), "GET");
            assert_eq!(request.path(), "/foo");
            assert_eq!(request.protocol(), "HTTP/1.1");
            assert_eq!(request.header_count(), 2);
            assert_eq!(request.header("Host").map(|v| v.as_str()), Some("example.com"));
            assert_eq!(request.header("X-Y").map(|v| v.as_str()), Some("z"));
            assert_eq!(response, b"HTTP/1.1 200 OK\r\n\r\n".to_vec());
        }
        _ => panic!("the head is complete and well-formed"),
    }
    assert!(task.is_finished());
    assert_eq!(task.lines_read(), 3);
    assert!(task.unconsumed().is_empty());
}

#[test]
fn fixed_response_is_a_bare_status_line() {
    assert_eq!(response_bytes(), b"HTTP/1.1 200 OK\r\n\r\n".to_vec());
}

#[test]
fn finished_task_reports_finished_and_reads_nothing() {
    let mut task = ConnectionTask::new();
    assert!(matches!(task.resume(WELL_FORMED), TaskReport::Completed { .. }));
    assert!(matches!(task.resume(b"more"), TaskReport::Finished));
    assert!(matches!(task.resume(WELL_FORMED), TaskReport::Finished));
    assert!(task.unconsumed().is_empty());
    assert_eq!(task.lines_read(), 3);
}

#[test]
fn empty_line_stops_consumption() {
    let mut wire = WELL_FORMED.to_vec();
    wire.extend_from_slice(b"Not-A-Header: body\r\nmore body");
    let mut task = ConnectionTask::new();
    match task.resume(&wire) {
        TaskReport::Completed { request, .. } => {
            assert_eq!(request.header_count(), 2);
            assert!(request.header("Not-A-Header").is_none());
        }
        _ => panic!("the head is complete and well-formed"),
    }
    assert_eq!(task.unconsumed().as_slice(), b"Not-A-Header: body\r\nmore body");
    assert_eq!(task.lines_read(), 3);
}

#[test]
fn empty_line_stops_consumption_before_malformed_bytes() {
    let mut task = ConnectionTask::new();
    let report = task.resume(b"GET / HTTP/1.1\r\n\r\nno separator here\r\n\xff\xff\r\n");
    assert!(matches!(report, TaskReport::Completed { .. }));
    assert_eq!(task.unconsumed().as_slice(), b"no separator here\r\n\xff\xff\r\n");
}

#[test]
fn task_waits_for_the_rest_of_the_head() {
    let mut task = ConnectionTask::new();
    assert!(matches!(task.resume(b"GET /foo HT"), TaskReport::Suspended));
    assert_eq!(task.lines_read(), 0);
    assert_eq!(task.unconsumed().as_slice(), b"GET /foo HT");
    assert!(matches!(task.resume(b"TP/1.1\r\nHost: exa"), TaskReport::Suspended));
    assert_eq!(task.lines_read(), 1);
    assert_eq!(task.unconsumed().as_slice(), b"Host: exa");
    assert!(matches!(task.resume(b""), TaskReport::Suspended));
    assert!(matches!(task.resume(b"mple.com\r\n\r"), TaskReport::Suspended));
    assert_eq!(task.lines_read(), 2);
    assert_eq!(task.unconsumed().as_slice(), b"\r");
    match task.resume(b"\nbody") {
        TaskReport::Completed { request, .. } => {
            assert_eq!(request.path(), "/foo");
            assert_eq!(request.header("Host").map(|v| v.as_str()), Some("example.com"));
        }
        _ => panic!("the head is complete and well-formed"),
    }
    assert_eq!(task.unconsumed().as_slice(), b"body");
}

#[test]
fn byte_by_byte_gives_what_one_piece_gives() {
    let mut task = ConnectionTask::new();
    let (last, before) = WELL_FORMED.split_last().unwrap();
    for byte in before {
        assert!(matches!(task.resume(&[*byte]), TaskReport::Suspended));
    }
    match task.resume(&[*last]) {
        TaskReport::Completed { request, response } => {
            assert_eq!(request.method(), "GET");
            assert_eq!(request.header_count(), 2);
            assert_eq!(request.header("X-Y").map(|v| v.as_str()), Some("z"));
            assert_eq!(response, response_bytes());
        }
        _ => panic!("the head is complete and well-formed"),
    }
}

#[test]
fn bare_line_feeds_are_tolerated() {
    let mut task = ConnectionTask::new();
    match task.resume(b"GET /foo HTTP/1.1\nHost: example.com\r\nX-Y: z\n\nrest") {
        TaskReport::Completed { request, .. } => {
            assert_eq!(request.protocol(), "HTTP/1.1");
            assert_eq!(request.header("Host").map(|v| v.as_str()), Some("example.com"));
            assert_eq!(request.header("X-Y").map(|v| v.as_str()), Some("z"));
        }
        _ => panic!("the head is complete and well-formed"),
    }
    assert_eq!(task.unconsumed().as_slice(), b"rest");
}

#[test]
fn only_one_carriage_return_is_stripped() {
    let mut task = ConnectionTask::new();
    match task.resume(b"GET / HTTP/1.1\r\nX: v\r\r\n\r\n") {
        TaskReport::Completed { request, .. } => {
            assert_eq!(request.header("X").map(|v| v.as_str()), Some("v\r"));
        }
        _ => panic!("the head is complete and well-formed"),
    }
    // a line of one carriage return is not empty once the line feed is off,
    // but is once the carriage return is off too
    let mut task = ConnectionTask::new();
    assert!(matches!(
        task.resume(b"GET / HTTP/1.1\r\n\r\r\n\r\n"),
        TaskReport::Aborted(ParseError::MalformedHeader)
    ));
}

#[test]
fn malformed_request_line_aborts_the_task() {
    let mut task = ConnectionTask::new();
    assert!(matches!(task.resume(b"GET /foo\r\n"), TaskReport::Suspended));
    assert!(matches!(
        task.resume(b"\r\n"),
        TaskReport::Aborted(ParseError::MalformedRequestLine)
    ));
    assert!(task.is_finished());
    assert!(matches!(task.resume(b"GET / HTTP/1.1\r\n\r\n"), TaskReport::Finished));
}

#[test]
fn head_that_opens_with_an_empty_line_has_no_request_line() {
    let mut task = ConnectionTask::new();
    assert!(matches!(
        task.resume(b"\r\nGET / HTTP/1.1\r\n\r\n"),
        TaskReport::Aborted(ParseError::MalformedRequestLine)
    ));
    assert_eq!(task.unconsumed().as_slice(), b"GET / HTTP/1.1\r\n\r\n");
}

#[test]
fn malformed_header_aborts_the_task() {
    let mut task = ConnectionTask::new();
    assert!(matches!(
        task.resume(b"GET / HTTP/1.1\r\nHost example.com\r\n\r\n"),
        TaskReport::Aborted(ParseError::MalformedHeader)
    ));
    let mut task = ConnectionTask::new();
    assert!(matches!(
        task.resume(b"GET / HTTP/1.1\r\nHost: \xff\r\n\r\n"),
        TaskReport::Aborted(ParseError::NotText)
    ));
}

fn head_of(lines: usize) -> Vec<u8> {
    let mut wire = b"GET / HTTP/1.1\r\n".to_vec();
    for i in 1..lines {
        wire.extend_from_slice(format!("H{}: {}\r\n", i, i).as_bytes());
    }
    wire
}

#[test]
fn thirty_three_lines_without_blank_line_are_rejected() {
    let wire = head_of(33);
    let mut task = ConnectionTask::new();
    assert!(matches!(task.resume(&wire), TaskReport::Aborted(ParseError::TooManyLines)));
    assert!(task.is_finished());
    assert_eq!(task.lines_read(), MAX_HEAD_LINES);
    assert_eq!(task.unconsumed().as_slice(), b"H32: 32\r\n");
}

#[test]
fn thirty_three_lines_are_rejected_even_with_a_blank_line_after() {
    let mut wire = head_of(33);
    wire.extend_from_slice(b"\r\n");
    let mut task = ConnectionTask::new();
    assert!(matches!(task.resume(&wire), TaskReport::Aborted(ParseError::TooManyLines)));
}

#[test]
fn thirty_two_lines_wait_for_the_blank_line() {
    let wire = head_of(32);
    let mut task = ConnectionTask::new();
    assert!(matches!(task.resume(&wire), TaskReport::Suspended));
    assert_eq!(task.lines_read(), 32);
    // the start of a further line decides nothing yet
    assert!(matches!(task.resume(b"H32"), TaskReport::Suspended));
    assert!(matches!(task.resume(b": 32\n"), TaskReport::Aborted(ParseError::TooManyLines)));
}

#[test]
fn thirty_two_lines_and_a_blank_line_are_accepted() {
    let mut wire = head_of(32);
    wire.extend_from_slice(b"\r\ntrailing");
    let mut task = ConnectionTask::new();
    match task.resume(&wire) {
        TaskReport::Completed { request, .. } => {
            assert_eq!(request.header_count(), 31);
            assert_eq!(request.header("H1").map(|v| v.as_str()), Some("1"));
            assert_eq!(request.header("H31").map(|v| v.as_str()), Some("31"));
        }
        _ => panic!("thirty-two lines are within the ceiling"),
    }
    assert_eq!(task.unconsumed().as_slice(), b"trailing");
}

#[test]
fn abandoned_task_reads_nothing() {
    let mut task = ConnectionTask::new();
    assert!(matches!(task.resume(b"GET / HTTP/1.1\r\nHo"), TaskReport::Suspended));
    task.abandon();
    assert!(task.is_finished());
    assert_eq!(task.lines_read(), 1);
    assert_eq!(task.unconsumed().as_slice(), b"Ho");
    assert!(matches!(task.resume(b"st: a\r\n\r\n"), TaskReport::Finished));
    assert_eq!(task.unconsumed().as_slice(), b"Ho");
}

#[test]
fn find_byte_finds_the_first_from_a_start() {
    let bytes = b"ab\ncd\n".to_vec();
    assert_eq!(find_byte(&bytes, b'\n', 0), Some(2));
    assert_eq!(find_byte(&bytes, b'\n', 2), Some(2));
    assert_eq!(find_byte(&bytes, b'\n', 3), Some(5));
    assert_eq!(find_byte(&bytes, b'\n', 6), None);
    assert_eq!(find_byte(&bytes, b'\n', 60), None);
    assert_eq!(find_byte(&bytes, b'x', 0), None);
    assert_eq!(find_byte(&Vec::new(), b'\n', 0), None);
}

#[test]
fn copy_line_drops_one_trailing_carriage_return() {
    let bytes = b"ab\r\ncd\n\r\r\n".to_vec();
    assert_eq!(copy_line(&bytes, 0, 3), b"ab".to_vec());
    assert_eq!(copy_line(&bytes, 0, 2), b"ab".to_vec());
    assert_eq!(copy_line(&bytes, 4, 6), b"cd".to_vec());
    assert_eq!(copy_line(&bytes, 7, 9), b"\r".to_vec());
    assert_eq!(copy_line(&bytes, 7, 8), Vec::<u8>::new());
    assert_eq!(copy_line(&bytes, 3, 3), Vec::<u8>::new());
}

#[test]
fn read_bytes_are_taken_as_by_resume() {
    let mut task = ConnectionTask::new();
    assert!(matches!(task.on_read(ReadOutcome::Read, b"GET /foo HT"), TaskReport::Suspended));
    assert_eq!(task.unconsumed().as_slice(), b"GET /foo HT");
    match task.on_read(ReadOutcome::Read, b"TP/1.1\r\nHost: example.com\r\n\r\nbody") {
        TaskReport::Completed { request, response } => {
            assert_eq!(request.path(), "/foo");
            assert_eq!(request.header("Host").map(|v| v.as_str()), Some("example.com"));
            assert_eq!(response, b"HTTP/1.1 200 OK\r\n\r\n".to_vec());
        }
        _ => panic!("the head is complete and well-formed"),
    }
    assert_eq!(task.unconsumed().as_slice(), b"body");
}

#[test]
fn read_that_would_block_or_was_interrupted_changes_nothing() {
    let mut task = ConnectionTask::new();
    assert!(matches!(task.on_read(ReadOutcome::WouldBlock, b""), TaskReport::Suspended));
    assert!(matches!(task.on_read(ReadOutcome::Read, b"GET / HTTP/1.1\r\nHo"), TaskReport::Suspended));
    for outcome in [ReadOutcome::WouldBlock, ReadOutcome::Interrupted] {
        // bytes that come with such an outcome were not read, and are not taken
        assert!(matches!(task.on_read(outcome, b"st: a\r\n\r\n"), TaskReport::Suspended));
        assert!(!task.is_finished());
        assert_eq!(task.lines_read(), 1);
        assert_eq!(task.unconsumed().as_slice(), b"Ho");
    }
    assert!(matches!(
        task.on_read(ReadOutcome::Read, b"st: a\r\n\r\n"),
        TaskReport::Completed { .. }
    ));
}

#[test]
fn closed_stream_ends_an_open_head() {
    // nothing was sent at all
    let mut task = ConnectionTask::new();
    assert!(matches!(
        task.on_read(ReadOutcome::Read, b""),
        TaskReport::Aborted(ParseError::Incomplete)
    ));
    assert!(task.is_finished());
    // a line that was not ended is no line
    let mut task = ConnectionTask::new();
    assert!(matches!(task.on_read(ReadOutcome::Read, b"GET /foo"), TaskReport::Suspended));
    assert!(matches!(
        task.on_read(ReadOutcome::Read, b""),
        TaskReport::Aborted(ParseError::Incomplete)
    ));
    assert_eq!(task.unconsumed().as_slice(), b"GET /foo");
    // well-formed lines, but the closing line never came
    let mut task = ConnectionTask::new();
    assert!(matches!(
        task.on_read(ReadOutcome::Read, b"GET / HTTP/1.1\r\nHost: a\r\n"),
        TaskReport::Suspended
    ));
    assert!(matches!(
        task.on_read(ReadOutcome::Read, b""),
        TaskReport::Aborted(ParseError::Incomplete)
    ));
    assert!(task.is_finished());
    assert_eq!(task.lines_read(), 2);
    assert!(matches!(
        task.on_read(ReadOutcome::Read, b"\r\n"),
        TaskReport::Finished
    ));
}

#[test]
fn closed_stream_reports_the_line_at_fault() {
    let mut task = ConnectionTask::new();
    assert!(matches!(task.on_read(ReadOutcome::Read, b"GET /foo\r\n"), TaskReport::Suspended));
    assert!(matches!(
        task.on_read(ReadOutcome::Read, b""),
        TaskReport::Aborted(ParseError::MalformedRequestLine)
    ));
    let mut task = ConnectionTask::new();
    assert!(matches!(
        task.on_read(ReadOutcome::Read, b"GET / HTTP/1.1\r\nbroken\r\nX: \xff\r\n"),
        TaskReport::Suspended
    ));
    assert!(matches!(
        task.on_read(ReadOutcome::Read, b""),
        TaskReport::Aborted(ParseError::MalformedHeader)
    ));
    let mut task = ConnectionTask::new();
    assert!(matches!(
        task.on_read(ReadOutcome::Read, b"GET / HTTP/1.1\r\nX: \xff\r\n"),
        TaskReport::Suspended
    ));
    assert!(matches!(
        task.on_read(ReadOutcome::Failed, b""),
        TaskReport::Aborted(ParseError::NotText)
    ));
}

#[test]
fn failed_read_ends_the_task() {
    let mut task = ConnectionTask::new();
    assert!(matches!(task.on_read(ReadOutcome::Read, b"GET / HTTP/1.1\r\n"), TaskReport::Suspended));
    assert!(matches!(
        task.on_read(ReadOutcome::Failed, b"\r\n"),
        TaskReport::Aborted(ParseError::Incomplete)
    ));
    assert!(task.is_finished());
    assert_eq!(task.lines_read(), 1);
    assert!(task.unconsumed().is_empty());
    for outcome in [
        ReadOutcome::Read,
        ReadOutcome::WouldBlock,
        ReadOutcome::Interrupted,
        ReadOutcome::Failed,
    ] {
        assert!(matches!(task.on_read(outcome, b"\r\n"), TaskReport::Finished));
        assert!(matches!(task.on_read(outcome, b""), TaskReport::Finished));
    }
}

#[test]
fn finished_task_stays_finished_on_every_read_outcome() {
    let mut task = ConnectionTask::new();
    assert!(matches!(task.on_read(ReadOutcome::Read, WELL_FORMED), TaskReport::Completed { .. }));
    for outcome in [
        ReadOutcome::Read,
        ReadOutcome::WouldBlock,
        ReadOutcome::Interrupted,
        ReadOutcome::Failed,
    ] {
        assert!(matches!(task.on_read(outcome, b"more"), TaskReport::Finished));
        assert!(matches!(task.on_read(outcome, b""), TaskReport::Finished));
        assert!(task.unconsumed().is_empty());
        assert_eq!(task.lines_read(), 3);
    }
}
