//! The task of one accepted connection: it takes the bytes of the request
//! head as they arrive, and once the head is complete answers with the parsed
//! request and the response to send, or with the reason to drop the
//! connection.

use crate::framing::{
    are_head_lines, copy_line, find_byte, lemma_position_from, lemma_position_skip,
    lemma_scan_append, lemma_scan_overflow, lemma_scan_round_trip, scan, wire_line, wire_lines,
    Scan, LF, MAX_HEAD_LINES,
};
use crate::request::{lines_of, parse_request, request_of, ParseError, ParsedRequest, RequestModel};
use vstd::prelude::*;

verus! {

/// The mathematical content of a connection task.
pub struct TaskModel {
    /// The lines of the head read so far, none of them empty.
    pub lines: Seq<Seq<u8>>,
    /// Bytes that arrived and were not read as lines: the start of an
    /// unfinished line while the head is open, what follows the head once it
    /// is closed.
    pub pending: Seq<u8>,
    /// The task has given its result, or was abandoned.
    pub finished: bool,
}

/// What one resumption of a task comes to, as a mathematical value.
pub enum TaskOutcome {
    /// The head is not complete: resume when more bytes have arrived.
    Suspended,
    /// The head is complete and well-formed: send the response, then close.
    Completed(RequestModel),
    /// The head is malformed: close without a response.
    Aborted(ParseError),
    /// The task had finished before.
    Finished,
}

/// What one non-blocking read on the connection came to.
#[derive(Clone, Copy, Debug, PartialEq, Eq, Structural)]
pub enum ReadOutcome {
    /// The read returned, and what it returned comes with it. A read that
    /// returns no bytes says that the peer has closed the stream.
    Read,
    /// Nothing has arrived yet.
    WouldBlock,
    /// The read was interrupted before anything arrived, and is to be tried
    /// again.
    Interrupted,
    /// The read failed for another reason: the connection is lost.
    Failed,
}

/// What a connection task tells its driver after a resumption.
pub enum TaskReport {
    /// The head is not complete: resume when more bytes have arrived.
    Suspended,
    /// The head is complete and well-formed: `response` is to be written to
    /// the connection, which is then closed.
    Completed { request: ParsedRequest, response: Vec<u8> },
    /// The head is malformed: the connection is to be closed, nothing is
    /// owed to the peer.
    Aborted(ParseError),
    /// The task had finished before; nothing was read.
    Finished,
}

/// One accepted connection's reading and parsing, resumable at every point
/// where bytes may be missing.
pub struct ConnectionTask {
    lines: Vec<Vec<u8>>,
    pending: Vec<u8>,
    finished: bool,
}

/// A task that has read nothing.
pub open spec fn fresh_task() -> TaskModel {
    TaskModel { lines: Seq::empty(), pending: Seq::empty(), finished: false }
}

/// The fixed response to a well-formed request: `HTTP/1.1 200 OK`, a line
/// end, and the empty line that closes the response head.
pub open spec fn ok_response() -> Seq<u8> {
    seq![
        72u8, 84u8, 84u8, 80u8, 47u8, 49u8, 46u8, 49u8, 32u8, 50u8, 48u8, 48u8, 32u8, 79u8, 75u8,
        13u8, 10u8, 13u8, 10u8,
    ]
}

/// The step of a task that is handed `bytes`: its next state and what it
/// reports. A finished task reads nothing.
pub open spec fn task_step(task: TaskModel, bytes: Seq<u8>) -> (TaskModel, TaskOutcome) {
    if task.finished {
        (task, TaskOutcome::Finished)
    } else {
        match scan(task.lines, task.pending + bytes) {
            Scan::Partial { lines, pending } => (
                TaskModel { lines, pending, finished: false },
                TaskOutcome::Suspended,
            ),
            Scan::Complete { lines, rest } => (
                TaskModel { lines, pending: rest, finished: true },
                match request_of(lines) {
                    Ok(request) => TaskOutcome::Completed(request),
                    Err(e) => TaskOutcome::Aborted(e),
                },
            ),
            Scan::Overflow { lines, rest } => (
                TaskModel { lines, pending: rest, finished: true },
                TaskOutcome::Aborted(ParseError::TooManyLines),
            ),
        }
    }
}

/// The error of a head that the end of the stream cut short: that of the
/// first line at fault among those read, and `Incomplete` where none is or
/// none was read.
pub open spec fn cut_short(lines: Seq<Seq<u8>>) -> ParseError {
    if lines.len() == 0 {
        ParseError::Incomplete
    } else {
        match request_of(lines) {
            Err(e) => e,
            Ok(_) => ParseError::Incomplete,
        }
    }
}

/// The step of a task whose stream has ended: a task that was still reading
/// finishes without a request, since a head is never taken for complete
/// without its closing line. What had arrived stays as it is.
pub open spec fn end_of_stream(task: TaskModel) -> (TaskModel, TaskOutcome) {
    if task.finished {
        (task, TaskOutcome::Finished)
    } else {
        (
            TaskModel { lines: task.lines, pending: task.pending, finished: true },
            TaskOutcome::Aborted(cut_short(task.lines)),
        )
    }
}

/// The step of a task after a read on its connection. Bytes that were read
/// are taken as by `task_step`; a read of no bytes and a failed read end the
/// stream; a read that would block or was interrupted changes nothing, and
/// the task goes on waiting. `bytes` counts only where the read returned.
pub open spec fn read_step(task: TaskModel, outcome: ReadOutcome, bytes: Seq<u8>) -> (
    TaskModel,
    TaskOutcome,
) {
    match outcome {
        ReadOutcome::Read => if bytes.len() == 0 {
            end_of_stream(task)
        } else {
            task_step(task, bytes)
        },
        ReadOutcome::Failed => end_of_stream(task),
        _ => (
            task,
            if task.finished {
                TaskOutcome::Finished
            } else {
                TaskOutcome::Suspended
            },
        ),
    }
}

/// `report` says what `outcome` says.
pub open spec fn report_is(report: TaskReport, outcome: TaskOutcome) -> bool {
    match outcome {
        TaskOutcome::Suspended => report is Suspended,
        TaskOutcome::Completed(model) => {
            &&& report matches TaskReport::Completed { request, response }
            &&& request@ == model
            &&& response@ == ok_response()
        },
        TaskOutcome::Aborted(e) => report matches TaskReport::Aborted(x) && x == e,
        TaskOutcome::Finished => report is Finished,
    }
}

impl View for ConnectionTask {
    type V = TaskModel;

    closed spec fn view(&self) -> TaskModel {
        TaskModel {
            lines: lines_of(self.lines@),
            pending: self.pending@,
            finished: self.finished,
        }
    }
}

impl ConnectionTask {
    /// A task for a connection that was just accepted: nothing is read yet.
    pub fn new() -> (task: Self)
        ensures
            task@ == fresh_task(),
    {
        let task = ConnectionTask { lines: Vec::new(), pending: Vec::new(), finished: false };
        assert(lines_of(task.lines@) =~= Seq::<Seq<u8>>::empty());
        task
    }

    /// Whether the task has given its result or was abandoned.
    pub fn is_finished(&self) -> (finished: bool)
        ensures
            finished == self@.finished,
    {
        self.finished
    }

    /// The number of lines of the head read so far.
    pub fn lines_read(&self) -> (count: usize)
        ensures
            count == self@.lines.len(),
    {
        self.lines.len()
    }

    /// The bytes that arrived and were not read as lines of the head.
    pub fn unconsumed(&self) -> (bytes: &Vec<u8>)
        ensures
            bytes@ == self@.pending,
    {
        &self.pending
    }

    /// Ends the task without a result, where the driver gives the
    /// connection up: whatever arrives later is not read.
    pub fn abandon(&mut self)
        ensures
            final(self)@ == (TaskModel { finished: true, ..old(self)@ }),
    {
        self.finished = true;
    }

    /// Resumes the task after a read on its connection: `outcome` says what
    /// the read came to, `bytes` is what it returned, if it returned.
    pub fn on_read(&mut self, outcome: ReadOutcome, bytes: &[u8]) -> (report: TaskReport)
        ensures
            final(self)@ == read_step(old(self)@, outcome, bytes@).0,
            report_is(report, read_step(old(self)@, outcome, bytes@).1),
    {
        match outcome {
            ReadOutcome::Read => {
                if bytes.len() == 0 {
                    self.close()
                } else {
                    self.resume(bytes)
                }
            },
            ReadOutcome::Failed => self.close(),
            _ => {
                if self.finished {
                    TaskReport::Finished
                } else {
                    TaskReport::Suspended
                }
            },
        }
    }

    /// Ends a task whose stream has ended.
    fn close(&mut self) -> (report: TaskReport)
        ensures
            final(self)@ == end_of_stream(old(self)@).0,
            report_is(report, end_of_stream(old(self)@).1),
    {
        if self.finished {
            return TaskReport::Finished;
        }
        self.finished = true;
        if self.lines.len() == 0 {
            return TaskReport::Aborted(ParseError::Incomplete);
        }
        match parse_request(&self.lines) {
            Err(e) => TaskReport::Aborted(e),
            Ok(_) => TaskReport::Aborted(ParseError::Incomplete),
        }
    }

    /// Resumes the task with the bytes that have arrived since the last
    /// resumption. Lines are read until the head is closed by an empty line
    /// or holds one line too many; bytes after the closing line are kept
    /// unread.
    pub fn resume(&mut self, bytes: &[u8]) -> (report: TaskReport)
        ensures
            final(self)@ == task_step(old(self)@, bytes@).0,
            report_is(report, task_step(old(self)@, bytes@).1),
    {
        if self.finished {
            return TaskReport::Finished;
        }
        let ghost lines0 = lines_of(self.lines@);
        append_bytes(&mut self.pending, bytes);
        let ghost input = self.pending@;
        let mut pos: usize = 0;
        assert(input.skip(0) =~= input);
        loop
            invariant
                pos <= self.pending.len(),
                self.pending@ == input,
                !self.finished,
                !old(self).finished,
                input == old(self).pending@ + bytes@,
                lines0 == lines_of(old(self).lines@),
                scan(lines_of(self.lines@), input.skip(pos as int)) == scan(lines0, input),
            decreases input.len() - pos,
        {
            let ghost here = input.skip(pos as int);
            proof {
                lemma_position_skip(input, LF, pos as int, 0);
                lemma_position_from(input, LF, pos as int);
            }
            match find_byte(&self.pending, LF, pos) {
                None => {
                    let tail = copy_tail(&self.pending, pos);
                    self.pending = tail;
                    return TaskReport::Suspended;
                },
                Some(at) => {
                    let line = copy_line(&self.pending, pos, at);
                    assert(here.subrange(0, at - pos) =~= input.subrange(pos as int, at as int));
                    assert(here.skip(at - pos + 1) =~= input.skip(at + 1));
                    if line.len() == 0 {
                        let tail = copy_tail(&self.pending, at + 1);
                        self.pending = tail;
                        self.finished = true;
                        return match parse_request(&self.lines) {
                            Ok(request) => TaskReport::Completed {
                                request,
                                response: response_bytes(),
                            },
                            Err(e) => TaskReport::Aborted(e),
                        };
                    }
                    if self.lines.len() >= MAX_HEAD_LINES {
                        let tail = copy_tail(&self.pending, pos);
                        self.pending = tail;
                        self.finished = true;
                        return TaskReport::Aborted(ParseError::TooManyLines);
                    }
                    let ghost before = self.lines@;
                    self.lines.push(line);
                    assert(lines_of(self.lines@) =~= lines_of(before).push(line@));
                    pos = at + 1;
                },
            }
        }
    }
}

/// The bytes of the fixed response.
pub fn response_bytes() -> (response: Vec<u8>)
    ensures
        response@ == ok_response(),
{
    let response: Vec<u8> = vec![
        72u8, 84u8, 84u8, 80u8, 47u8, 49u8, 46u8, 49u8, 32u8, 50u8, 48u8, 48u8, 32u8, 79u8, 75u8,
        13u8, 10u8, 13u8, 10u8,
    ];
    assert(response@ =~= ok_response());
    response
}

/// Appends `bytes` to `buffer`.
fn append_bytes(buffer: &mut Vec<u8>, bytes: &[u8])
    ensures
        final(buffer)@ == old(buffer)@ + bytes@,
{
    let mut i: usize = 0;
    while i < bytes.len()
        invariant
            i <= bytes.len(),
            buffer@ == old(buffer)@ + bytes@.take(i as int),
        decreases bytes.len() - i,
    {
        buffer.push(bytes[i]);
        assert(bytes@.take(i + 1) =~= bytes@.take(i as int).push(bytes@[i as int]));
        i = i + 1;
    }
    assert(bytes@.take(i as int) =~= bytes@);
}

/// Copies `bytes[from..]`.
fn copy_tail(bytes: &Vec<u8>, from: usize) -> (tail: Vec<u8>)
    requires
        from <= bytes.len(),
    ensures
        tail@ == bytes@.skip(from as int),
{
    let mut tail: Vec<u8> = Vec::new();
    let mut i: usize = from;
    while i < bytes.len()
        invariant
            from <= i <= bytes.len(),
            tail@ == bytes@.subrange(from as int, i as int),
        decreases bytes.len() - i,
    {
        tail.push(bytes[i]);
        i = i + 1;
    }
    tail
}

/// A task reads the same head however its bytes are cut up on arrival: a
/// task that was handed `first` and is still waiting, handed `second`, is
/// where a task handed both at once would be, and reports the same.
pub proof fn lemma_resume_in_pieces(task: TaskModel, first: Seq<u8>, second: Seq<u8>)
    requires
        task_step(task, first).1 is Suspended,
    ensures
        task_step(task_step(task, first).0, second) == task_step(task, first + second),
{
    lemma_scan_append(task.lines, task.pending + first, second);
    assert((task.pending + first) + second =~= task.pending + (first + second));
}

/// Once the head is closed, by its empty line or by one line too many, what
/// follows on the wire changes nothing of the result: the task reports the
/// same, has read the same lines, and keeps the bytes that follow unread.
pub proof fn lemma_trailing_bytes_unread(task: TaskModel, head: Seq<u8>, trailing: Seq<u8>)
    requires
        !task.finished,
        task_step(task, head).0.finished,
    ensures
        task_step(task, head + trailing).1 == task_step(task, head).1,
        task_step(task, head + trailing).0 == (TaskModel {
            pending: task_step(task, head).0.pending + trailing,
            ..task_step(task, head).0
        }),
{
    lemma_scan_append(task.lines, task.pending + head, trailing);
    assert((task.pending + head) + trailing =~= task.pending + (head + trailing));
}

/// A task that has finished reads no more: resumed with anything, it stays
/// as it is and reports that it has finished.
pub proof fn lemma_finished_is_terminal(task: TaskModel, bytes: Seq<u8>)
    requires
        task.finished,
    ensures
        task_step(task, bytes) == (task, TaskOutcome::Finished),
{
}

/// A fresh task that is handed a whole head, its lines within the ceiling
/// and closed by an empty line, finishes at once with what the parser makes
/// of exactly these lines, and leaves what follows the head unread.
pub proof fn lemma_task_reads_head(lines: Seq<Seq<u8>>, trailing: Seq<u8>)
    requires
        are_head_lines(lines),
        lines.len() <= MAX_HEAD_LINES,
    ensures
        task_step(fresh_task(), wire_lines(lines) + wire_line(Seq::empty()) + trailing) == (
            TaskModel { lines, pending: trailing, finished: true },
            match request_of(lines) {
                Ok(request) => TaskOutcome::Completed(request),
                Err(e) => TaskOutcome::Aborted(e),
            },
        ),
{
    let wire = wire_lines(lines) + wire_line(Seq::empty()) + trailing;
    lemma_scan_round_trip(Seq::empty(), lines, trailing);
    assert(Seq::<Seq<u8>>::empty() + lines =~= lines);
    assert(Seq::<u8>::empty() + wire =~= wire);
}

/// A head of more lines than the ceiling allows is rejected, not cut short
/// and accepted: a fresh task that is handed more than `MAX_HEAD_LINES`
/// lines that are not empty aborts, whatever follows them, a closing empty
/// line included.
pub proof fn lemma_task_rejects_long_head(lines: Seq<Seq<u8>>, more: Seq<u8>)
    requires
        are_head_lines(lines),
        lines.len() > MAX_HEAD_LINES,
    ensures
        task_step(fresh_task(), wire_lines(lines) + more).1 == TaskOutcome::Aborted(
            ParseError::TooManyLines,
        ),
        task_step(fresh_task(), wire_lines(lines) + more).0.finished,
{
    let wire = wire_lines(lines) + more;
    lemma_scan_overflow(Seq::empty(), lines, more);
    assert(Seq::<u8>::empty() + wire =~= wire);
}

} // verus!
