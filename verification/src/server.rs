//! A server as one value: the accept loop together with the tasks of the
//! connections it has accepted. Each task is resumed on its own; what
//! happens to one reaches neither the loop nor another task.

use crate::accept::{
    initial_loop, loop_step, AcceptLoop, AcceptOutcome, LoopModel, PollOutcome, PollReport,
};
use crate::connection::{
    fresh_task, report_is, task_step, ConnectionTask, TaskModel, TaskOutcome, TaskReport,
};
use vstd::prelude::*;

verus! {

/// The mathematical content of a server.
pub struct ServerModel {
    pub accept: LoopModel,
    /// The tasks of all connections accepted so far, in the order in which
    /// they were accepted.
    pub tasks: Seq<TaskModel>,
}

/// An accept loop and the tasks it has spawned. A task is known by its
/// number, counted from zero in the order of acceptance.
pub struct Server {
    accept: AcceptLoop,
    tasks: Vec<ConnectionTask>,
}

/// The models of a vector of tasks.
pub open spec fn tasks_of(tasks: Seq<ConnectionTask>) -> Seq<TaskModel> {
    tasks.map_values(|task: ConnectionTask| task@)
}

/// One resumption of the accept loop: the loop takes its step, and where it
/// accepted a connection a fresh task joins the others.
pub open spec fn server_poll(s: ServerModel, accept: AcceptOutcome, now: u64) -> (
    ServerModel,
    PollOutcome,
) {
    let (next, outcome) = loop_step(s.accept, accept, now);
    (
        ServerModel {
            accept: next,
            tasks: if outcome is Spawned {
                s.tasks.push(fresh_task())
            } else {
                s.tasks
            },
        },
        outcome,
    )
}

/// One resumption of task number `id` with `bytes`: that task takes its
/// step. Where there is no such task nothing happens.
pub open spec fn server_resume(s: ServerModel, id: int, bytes: Seq<u8>) -> (
    ServerModel,
    Option<TaskOutcome>,
) {
    if 0 <= id < s.tasks.len() {
        let (next, outcome) = task_step(s.tasks[id], bytes);
        (ServerModel { accept: s.accept, tasks: s.tasks.update(id, next) }, Some(outcome))
    } else {
        (s, None)
    }
}

impl View for Server {
    type V = ServerModel;

    closed spec fn view(&self) -> ServerModel {
        ServerModel { accept: self.accept@, tasks: tasks_of(self.tasks@) }
    }
}

impl Server {
    /// A server whose loop backs off for `delay` milliseconds and has
    /// accepted nothing yet.
    pub fn new(delay: u64) -> (server: Self)
        ensures
            server@ == (ServerModel { accept: initial_loop(delay), tasks: Seq::empty() }),
    {
        let server = Server { accept: AcceptLoop::new(delay), tasks: Vec::new() };
        assert(tasks_of(server.tasks@) =~= Seq::<TaskModel>::empty());
        server
    }

    /// The accept loop.
    pub fn accept_loop(&self) -> (accept: &AcceptLoop)
        ensures
            accept@ == self@.accept,
    {
        &self.accept
    }

    /// The number of connections accepted so far.
    pub fn task_count(&self) -> (count: usize)
        ensures
            count == self@.tasks.len(),
    {
        self.tasks.len()
    }

    /// Task number `id`, if there is one.
    pub fn task(&self, id: usize) -> (task: Option<&ConnectionTask>)
        ensures
            match task {
                Some(t) => id < self@.tasks.len() && t@ == self@.tasks[id as int],
                None => id >= self@.tasks.len(),
            },
    {
        if id < self.tasks.len() {
            Some(&self.tasks[id])
        } else {
            None
        }
    }

    /// Asks the accept loop to end. The tasks go on.
    pub fn request_shutdown(&mut self)
        ensures
            final(self)@ == (ServerModel {
                accept: LoopModel { shutdown: true, ..old(self)@.accept },
                tasks: old(self)@.tasks,
            }),
    {
        self.accept.request_shutdown();
    }

    /// Resumes the accept loop. Where it accepts a connection, the task made
    /// for it gets the next number.
    pub fn poll(&mut self, accept: AcceptOutcome, now: u64) -> (outcome: PollOutcome)
        ensures
            final(self)@ == server_poll(old(self)@, accept, now).0,
            outcome == server_poll(old(self)@, accept, now).1,
    {
        let ghost before = self.tasks@;
        match self.accept.poll(accept, now) {
            PollReport::Spawned(task) => {
                self.tasks.push(task);
                assert(tasks_of(self.tasks@) =~= tasks_of(before).push(fresh_task()));
                PollOutcome::Spawned
            },
            PollReport::Resumed => PollOutcome::Resumed,
            PollReport::Suspended { wake_after } => PollOutcome::Suspended { wake_after },
            PollReport::Finished => PollOutcome::Finished,
        }
    }

    /// Resumes task number `id` with the bytes that have arrived for it.
    /// `None` where there is no such task.
    pub fn resume_task(&mut self, id: usize, bytes: &[u8]) -> (report: Option<TaskReport>)
        ensures
            final(self)@ == server_resume(old(self)@, id as int, bytes@).0,
            match server_resume(old(self)@, id as int, bytes@).1 {
                Some(outcome) => report matches Some(r) && report_is(r, outcome),
                None => report is None,
            },
    {
        if id >= self.tasks.len() {
            return None;
        }
        let ghost before = self.tasks@;
        let report = self.tasks[id].resume(bytes);
        assert(tasks_of(self.tasks@) =~= tasks_of(before).update(
            id as int,
            task_step(before[id as int]@, bytes@).0,
        ));
        Some(report)
    }
}

/// A connection's fate is its own: whatever the resumption of a task comes
/// to, a malformed head included, the accept loop is as it was, and so is
/// every other task.
pub proof fn lemma_task_is_isolated(s: ServerModel, id: int, bytes: Seq<u8>)
    ensures
        server_resume(s, id, bytes).0.accept == s.accept,
        server_resume(s, id, bytes).0.tasks.len() == s.tasks.len(),
        forall|other: int|
            0 <= other < s.tasks.len() && other != id ==> #[trigger] server_resume(
                s,
                id,
                bytes,
            ).0.tasks[other] == s.tasks[other],
{
}

/// A task that fails prevents no other from completing: resumptions of two
/// different tasks may come in either order. Each reports what it would
/// have reported had the other not been resumed, and the server ends up the
/// same.
pub proof fn lemma_tasks_commute(s: ServerModel, i: int, for_i: Seq<u8>, j: int, for_j: Seq<u8>)
    requires
        i != j,
    ensures
        server_resume(server_resume(s, i, for_i).0, j, for_j).1 == server_resume(s, j, for_j).1,
        server_resume(server_resume(s, j, for_j).0, i, for_i).1 == server_resume(s, i, for_i).1,
        server_resume(server_resume(s, i, for_i).0, j, for_j).0 == server_resume(
            server_resume(s, j, for_j).0,
            i,
            for_i,
        ).0,
{
    let ij = server_resume(server_resume(s, i, for_i).0, j, for_j).0;
    let ji = server_resume(server_resume(s, j, for_j).0, i, for_i).0;
    assert(ij.tasks =~= ji.tasks);
}

/// The accept loop and the tasks do not reach each other: a resumption of
/// the loop and a resumption of a task may come in either order. The loop
/// takes the same step and reports the same whether or not the task was
/// resumed before, whatever the task reported; and so does the task.
pub proof fn lemma_task_commutes_with_poll(
    s: ServerModel,
    id: int,
    bytes: Seq<u8>,
    accept: AcceptOutcome,
    now: u64,
)
    requires
        0 <= id < s.tasks.len(),
    ensures
        server_poll(server_resume(s, id, bytes).0, accept, now).1 == server_poll(s, accept, now).1,
        server_poll(server_resume(s, id, bytes).0, accept, now).0.accept == server_poll(
            s,
            accept,
            now,
        ).0.accept,
        server_resume(server_poll(s, accept, now).0, id, bytes).1 == server_resume(s, id, bytes).1,
        server_resume(server_poll(s, accept, now).0, id, bytes).0 == server_poll(
            server_resume(s, id, bytes).0,
            accept,
            now,
        ).0,
{
    let resumed_first = server_poll(server_resume(s, id, bytes).0, accept, now).0;
    let polled_first = server_resume(server_poll(s, accept, now).0, id, bytes).0;
    assert(resumed_first.tasks =~= polled_first.tasks);
}

} // verus!
