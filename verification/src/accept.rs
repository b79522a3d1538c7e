//! The accept loop: a state machine that a driver resumes again and again.
//! While connections are queued it takes one per resumption and hands out a
//! task for it; once the queue is empty it backs off for a fixed delay, or
//! ends if shutdown was asked for.

use crate::backoff::{backoff_poll, elapsed, BackoffModel, BackoffStatus, IdleBackoff};
use crate::connection::{fresh_task, ConnectionTask};
use vstd::prelude::*;

verus! {

/// Where the accept loop stands.
#[derive(Clone, Copy, Debug, PartialEq, Eq, Structural)]
pub enum LoopState {
    /// Not resumed yet.
    Init,
    /// The next resumption looks at the listener.
    Polling,
    /// The listener was found empty; the backoff timer runs.
    Idle,
    /// Shut down. Terminal.
    Done,
}

/// What one non-blocking accept attempt on the listener came to.
#[derive(Clone, Copy, Debug, PartialEq, Eq, Structural)]
pub enum AcceptOutcome {
    /// A connection was pending and is now accepted.
    Connection,
    /// Nothing was pending.
    WouldBlock,
    /// The attempt failed for another reason. The loop takes this as
    /// nothing pending: one failed accept never stops it.
    Failed,
}

/// What a resumption of the accept loop comes to, as a plain value.
#[derive(Clone, Copy, Debug, PartialEq, Eq, Structural)]
pub enum PollOutcome {
    /// A connection was accepted and a task made for it. Resume at once.
    Spawned,
    /// The backoff delay has elapsed. Resume at once.
    Resumed,
    /// Nothing to do for another `wake_after` milliseconds.
    Suspended { wake_after: u64 },
    /// The loop has ended.
    Finished,
}

/// What the accept loop tells its driver after a resumption.
pub enum PollReport {
    /// A connection was accepted: the task is its owner's from now on, and
    /// the loop wants to be resumed at once.
    Spawned(ConnectionTask),
    /// The backoff delay has elapsed: the loop wants to be resumed at once.
    Resumed,
    /// The loop is suspended and wants to be resumed in `wake_after`
    /// milliseconds.
    Suspended { wake_after: u64 },
    /// The loop has ended.
    Finished,
}

/// The mathematical content of an accept loop.
pub struct LoopModel {
    pub state: LoopState,
    /// Shutdown was asked for.
    pub shutdown: bool,
    pub backoff: BackoffModel,
}

/// What the driver brings to one resumption: the outcome of the accept
/// attempt it made, and the clock reading in milliseconds.
pub struct PollInput {
    pub accept: AcceptOutcome,
    pub now: u64,
}

/// The non-blocking accept loop.
pub struct AcceptLoop {
    state: LoopState,
    shutdown: bool,
    backoff: IdleBackoff,
}

impl LoopModel {
    /// A timer is outstanding only while the loop is idle.
    pub open spec fn wf(self) -> bool {
        self.backoff.armed_at is Some ==> self.state is Idle
    }

    /// The loop's next resumption looks at the listener, so the driver is to
    /// attempt an accept before it.
    pub open spec fn wants_accept(self) -> bool {
        self.state is Init || self.state is Polling
    }
}

/// A loop that was never resumed.
pub open spec fn initial_loop(delay: u64) -> LoopModel {
    LoopModel {
        state: LoopState::Init,
        shutdown: false,
        backoff: BackoffModel { delay, armed_at: None },
    }
}

/// The step of an idle loop at clock reading `now`: back to polling once the
/// backoff timer is ready, suspended until then. A loop that has just gone
/// idle has no timer yet: the step starts one and the loop is suspended.
pub open spec fn idle_step(l: LoopModel, now: u64) -> (LoopModel, PollOutcome) {
    let (backoff, status) = backoff_poll(l.backoff, now);
    match status {
        BackoffStatus::Ready => (
            LoopModel { state: LoopState::Polling, shutdown: l.shutdown, backoff },
            PollOutcome::Resumed,
        ),
        BackoffStatus::Pending { remaining } => (
            LoopModel { state: LoopState::Idle, shutdown: l.shutdown, backoff },
            PollOutcome::Suspended { wake_after: remaining },
        ),
    }
}

/// One resumption of the loop. `accept` counts only where the loop looks at
/// the listener, `now` only where it is or goes idle.
pub open spec fn loop_step(l: LoopModel, accept: AcceptOutcome, now: u64) -> (
    LoopModel,
    PollOutcome,
) {
    match l.state {
        LoopState::Done => (l, PollOutcome::Finished),
        LoopState::Idle => idle_step(l, now),
        _ => if accept is Connection {
            (
                LoopModel { state: LoopState::Polling, shutdown: l.shutdown, backoff: l.backoff },
                PollOutcome::Spawned,
            )
        } else if l.shutdown {
            (
                LoopModel { state: LoopState::Done, shutdown: l.shutdown, backoff: l.backoff },
                PollOutcome::Finished,
            )
        } else {
            idle_step(
                LoopModel { state: LoopState::Idle, shutdown: l.shutdown, backoff: l.backoff },
                now,
            )
        },
    }
}

/// `report` says what `outcome` says, and a task handed out is fresh.
pub open spec fn report_says(report: PollReport, outcome: PollOutcome) -> bool {
    match outcome {
        PollOutcome::Spawned => report matches PollReport::Spawned(task) && task@ == fresh_task(),
        PollOutcome::Resumed => report is Resumed,
        PollOutcome::Suspended { wake_after } => report matches PollReport::Suspended {
            wake_after: w,
        } && w == wake_after,
        PollOutcome::Finished => report is Finished,
    }
}

impl View for AcceptLoop {
    type V = LoopModel;

    closed spec fn view(&self) -> LoopModel {
        LoopModel { state: self.state, shutdown: self.shutdown, backoff: self.backoff@ }
    }
}

impl AcceptLoop {
    #[verifier::type_invariant]
    spec fn inv(self) -> bool {
        self@.wf()
    }

    /// A loop that backs off for `delay` milliseconds whenever it finds the
    /// listener empty.
    pub fn new(delay: u64) -> (accept_loop: Self)
        ensures
            accept_loop@ == initial_loop(delay),
    {
        AcceptLoop { state: LoopState::Init, shutdown: false, backoff: IdleBackoff::new(delay) }
    }

    /// Where the loop stands.
    pub fn state(&self) -> (state: LoopState)
        ensures
            state == self@.state,
            self@.wf(),
    {
        proof {
            use_type_invariant(self);
        }
        self.state
    }

    /// Whether the driver is to attempt an accept before the next
    /// resumption.
    pub fn wants_accept(&self) -> (wanted: bool)
        ensures
            wanted == self@.wants_accept(),
    {
        match self.state {
            LoopState::Init => true,
            LoopState::Polling => true,
            _ => false,
        }
    }

    /// The backoff delay, in milliseconds.
    pub fn delay(&self) -> (delay: u64)
        ensures
            delay == self@.backoff.delay,
    {
        self.backoff.delay()
    }

    /// Whether shutdown was asked for.
    pub fn shutdown_requested(&self) -> (requested: bool)
        ensures
            requested == self@.shutdown,
    {
        self.shutdown
    }

    /// Asks the loop to end. It does so the next time it finds the listener
    /// empty; connections that are queued until then are still accepted.
    pub fn request_shutdown(&mut self)
        ensures
            final(self)@ == (LoopModel { shutdown: true, ..old(self)@ }),
    {
        proof {
            use_type_invariant(&*self);
        }
        self.shutdown = true;
    }

    /// Resumes the loop. `accept` is the outcome of the accept attempt that
    /// the driver made for this resumption, if the loop wanted one; `now` is
    /// the clock reading in milliseconds.
    pub fn poll(&mut self, accept: AcceptOutcome, now: u64) -> (report: PollReport)
        ensures
            final(self)@ == loop_step(old(self)@, accept, now).0,
            report_says(report, loop_step(old(self)@, accept, now).1),
            final(self)@.wf(),
    {
        proof {
            use_type_invariant(&*self);
        }
        match self.state {
            LoopState::Done => {
                return PollReport::Finished;
            },
            LoopState::Idle => {},
            _ => {
                self.state = LoopState::Polling;
                if let AcceptOutcome::Connection = accept {
                    return PollReport::Spawned(ConnectionTask::new());
                }
                if self.shutdown {
                    self.state = LoopState::Done;
                    return PollReport::Finished;
                }
                self.state = LoopState::Idle;
            },
        }
        match self.backoff.poll(now) {
            BackoffStatus::Ready => {
                self.state = LoopState::Polling;
                PollReport::Resumed
            },
            BackoffStatus::Pending { remaining } => PollReport::Suspended { wake_after: remaining },
        }
    }
}

/// The loop after the resumptions `inputs`, taken in order.
pub open spec fn run(l: LoopModel, inputs: Seq<PollInput>) -> LoopModel
    decreases inputs.len(),
{
    if inputs.len() == 0 {
        l
    } else {
        loop_step(run(l, inputs.drop_last()), inputs.last().accept, inputs.last().now).0
    }
}

/// What resumption number `i` of `inputs` reports.
pub open spec fn outcome_at(l: LoopModel, inputs: Seq<PollInput>, i: int) -> PollOutcome {
    loop_step(run(l, inputs.take(i)), inputs[i].accept, inputs[i].now).1
}

/// A step keeps the delay and the shutdown flag, and keeps the loop
/// well-formed.
pub proof fn lemma_step_preserves(l: LoopModel, accept: AcceptOutcome, now: u64)
    ensures
        loop_step(l, accept, now).0.backoff.delay == l.backoff.delay,
        loop_step(l, accept, now).0.shutdown == l.shutdown,
        l.wf() ==> loop_step(l, accept, now).0.wf(),
{
}

/// Every run keeps the delay and the shutdown flag, and keeps the loop
/// well-formed.
pub proof fn lemma_run_preserves(l: LoopModel, inputs: Seq<PollInput>)
    ensures
        run(l, inputs).backoff.delay == l.backoff.delay,
        run(l, inputs).shutdown == l.shutdown,
        l.wf() ==> run(l, inputs).wf(),
    decreases inputs.len(),
{
    if inputs.len() > 0 {
        lemma_run_preserves(l, inputs.drop_last());
        lemma_step_preserves(run(l, inputs.drop_last()), inputs.last().accept, inputs.last().now);
    }
}

/// A loop that is done stays done: whatever it is resumed with, its state
/// does not change, it never polls again, and every resumption reports that
/// it has finished.
pub proof fn lemma_done_is_terminal(l: LoopModel, inputs: Seq<PollInput>)
    requires
        l.state is Done,
    ensures
        forall|k: int| 0 <= k <= inputs.len() ==> #[trigger] run(l, inputs.take(k)) == l,
        forall|i: int|
            0 <= i < inputs.len() ==> #[trigger] outcome_at(l, inputs, i) == PollOutcome::Finished,
    decreases inputs.len(),
{
    assert forall|k: int| 0 <= k <= inputs.len() implies #[trigger] run(l, inputs.take(k)) == l by {
        lemma_done_run(l, inputs.take(k));
    }
}

/// A run from a done loop ends in that loop.
proof fn lemma_done_run(l: LoopModel, inputs: Seq<PollInput>)
    requires
        l.state is Done,
    ensures
        run(l, inputs) == l,
    decreases inputs.len(),
{
    if inputs.len() > 0 {
        lemma_done_run(l, inputs.drop_last());
    }
}

/// A backlog is drained before the loop idles: resumed with any number of
/// pending connections in a row, a loop that looks at the listener accepts
/// every one of them, a task each, and is polling after each; it is never
/// idle and never done in between, whatever the clock reads and whether or
/// not shutdown was asked for.
pub proof fn lemma_backlog_drains(l: LoopModel, inputs: Seq<PollInput>)
    requires
        l.wants_accept(),
        forall|i: int| 0 <= i < inputs.len() ==> (#[trigger] inputs[i]).accept is Connection,
    ensures
        forall|k: int|
            0 < k <= inputs.len() ==> #[trigger] run(l, inputs.take(k)) == (LoopModel {
                state: LoopState::Polling,
                ..l
            }),
        forall|i: int|
            0 <= i < inputs.len() ==> #[trigger] outcome_at(l, inputs, i) == PollOutcome::Spawned,
{
    assert forall|k: int| 0 <= k <= inputs.len() implies (#[trigger] run(
        l,
        inputs.take(k),
    )).wants_accept() && (k > 0 ==> run(l, inputs.take(k)) == (LoopModel {
        state: LoopState::Polling,
        ..l
    })) by {
        lemma_backlog_run(l, inputs.take(k));
    }
}

/// A run of accepted connections from a loop that looks at the listener
/// ends in the polling state, all else unchanged.
proof fn lemma_backlog_run(l: LoopModel, inputs: Seq<PollInput>)
    requires
        l.wants_accept(),
        forall|i: int| 0 <= i < inputs.len() ==> (#[trigger] inputs[i]).accept is Connection,
    ensures
        run(l, inputs).wants_accept(),
        inputs.len() > 0 ==> run(l, inputs) == (LoopModel { state: LoopState::Polling, ..l }),
    decreases inputs.len(),
{
    if inputs.len() > 0 {
        lemma_backlog_run(l, inputs.drop_last());
        assert(inputs.last() == inputs[inputs.len() - 1]);
    }
}

/// An empty listener sends the loop idle, whatever the delay: a loop that
/// looks at the listener, finds nothing pending (or a failed accept) and is
/// not asked to shut down starts the backoff timer at the clock reading of
/// that resumption, is idle afterwards, and reports that it is suspended for
/// the whole delay.
pub proof fn lemma_empty_listener_idles(l: LoopModel, accept: AcceptOutcome, now: u64)
    requires
        l.wf(),
        l.wants_accept(),
        !(accept is Connection),
        !l.shutdown,
    ensures
        loop_step(l, accept, now).0 == (LoopModel {
            state: LoopState::Idle,
            shutdown: false,
            backoff: BackoffModel { delay: l.backoff.delay, armed_at: Some(now) },
        }),
        loop_step(l, accept, now).1 == (PollOutcome::Suspended { wake_after: l.backoff.delay }),
{
}

/// Shutdown takes effect at an empty listener: a loop that looks at the
/// listener, finds nothing pending and was asked to shut down is done, and
/// reports that it has finished. Nothing else of it changes.
pub proof fn lemma_empty_listener_ends_on_shutdown(l: LoopModel, accept: AcceptOutcome, now: u64)
    requires
        l.wants_accept(),
        !(accept is Connection),
        l.shutdown,
    ensures
        loop_step(l, accept, now).0 == (LoopModel { state: LoopState::Done, ..l }),
        loop_step(l, accept, now).1 == PollOutcome::Finished,
{
}

/// The resumption after a backlog: once every pending connection has been
/// accepted, the first resumption that finds the listener empty sends the
/// loop idle on a timer started then, or ends it if shutdown was asked for.
/// Not before, and whatever the delay.
pub proof fn lemma_backlog_then_idle(l: LoopModel, inputs: Seq<PollInput>, last: PollInput)
    requires
        l.wf(),
        l.wants_accept(),
        forall|i: int| 0 <= i < inputs.len() ==> (#[trigger] inputs[i]).accept is Connection,
        !(last.accept is Connection),
    ensures
        loop_step(run(l, inputs), last.accept, last.now) == if l.shutdown {
            (
                LoopModel { state: LoopState::Done, shutdown: true, backoff: l.backoff },
                PollOutcome::Finished,
            )
        } else {
            (
                LoopModel {
                    state: LoopState::Idle,
                    shutdown: false,
                    backoff: BackoffModel { delay: l.backoff.delay, armed_at: Some(last.now) },
                },
                PollOutcome::Suspended { wake_after: l.backoff.delay },
            )
        },
{
    lemma_backlog_run(l, inputs);
    lemma_run_preserves(l, inputs);
}

/// An idle loop goes back to polling exactly when the delay has elapsed
/// since its timer was started, whatever the listener holds: before that a
/// resumption changes nothing and reports the time that is left; from then
/// on a resumption discards the timer and reports that the loop is to be
/// resumed at once.
pub proof fn lemma_idle_until_due(l: LoopModel, accept: AcceptOutcome, now: u64)
    requires
        l.state is Idle,
        l.backoff.armed_at is Some,
    ensures
        ({
            let waited = elapsed(l.backoff.armed_at->0, now);
            let (next, outcome) = loop_step(l, accept, now);
            if waited >= l.backoff.delay {
                &&& next == (LoopModel {
                    state: LoopState::Polling,
                    shutdown: l.shutdown,
                    backoff: BackoffModel { delay: l.backoff.delay, armed_at: None },
                })
                &&& outcome == PollOutcome::Resumed
            } else {
                &&& next == l
                &&& outcome == (PollOutcome::Suspended {
                    wake_after: (l.backoff.delay - waited) as u64,
                })
            }
        }),
{
}

/// The clock readings of `inputs` never go back.
pub open spec fn clock_is_monotonic(inputs: Seq<PollInput>) -> bool {
    forall|a: int, b: int|
        0 <= a <= b < inputs.len() ==> (#[trigger] inputs[a]).now <= (#[trigger] inputs[b]).now
}

/// No connection is pending at any resumption of `inputs`.
pub open spec fn listener_stays_empty(inputs: Seq<PollInput>) -> bool {
    forall|i: int| 0 <= i < inputs.len() ==> !((#[trigger] inputs[i]).accept is Connection)
}

/// After a look at an empty listener at resumption `i`, the loop is done,
/// or idle on the timer started then, or the delay has elapsed.
spec fn backing_off(l: LoopModel, inputs: Seq<PollInput>, i: int, m: int) -> bool {
    let at = run(l, inputs.take(m));
    ||| at.state is Done
    ||| at.state is Idle && at.backoff.armed_at == Some(inputs[i].now)
    ||| inputs[m - 1].now - inputs[i].now >= l.backoff.delay
}

proof fn lemma_backing_off(l: LoopModel, inputs: Seq<PollInput>, i: int, m: int)
    requires
        l.wf(),
        clock_is_monotonic(inputs),
        listener_stays_empty(inputs),
        0 <= i < m <= inputs.len(),
        run(l, inputs.take(i)).wants_accept(),
    ensures
        backing_off(l, inputs, i, m),
    decreases m,
{
    let before = run(l, inputs.take(m - 1));
    assert(inputs.take(m).drop_last() =~= inputs.take(m - 1));
    assert(inputs.take(m).last() == inputs[m - 1]);
    lemma_run_preserves(l, inputs.take(m - 1));
    if m > i + 1 {
        lemma_backing_off(l, inputs, i, m - 1);
        assert(inputs[m - 2].now <= inputs[m - 1].now);
        assert(inputs[i].now <= inputs[m - 1].now);
    }
}

/// No busy spin: while no connection is pending, two looks at the listener
/// are at least the configured delay apart. Between them the loop was idle,
/// and it went back to polling only at a resumption whose clock reading was
/// a full delay past the first look.
pub proof fn lemma_no_busy_spin(l: LoopModel, inputs: Seq<PollInput>, i: int, j: int)
    requires
        l.wf(),
        clock_is_monotonic(inputs),
        listener_stays_empty(inputs),
        0 <= i < j < inputs.len(),
        run(l, inputs.take(i)).wants_accept(),
        run(l, inputs.take(j)).wants_accept(),
    ensures
        inputs[j].now - inputs[i].now >= l.backoff.delay,
{
    lemma_backing_off(l, inputs, i, j);
    assert(inputs[j - 1].now <= inputs[j].now);
}

} // verus!
