//! The scheduler of an executor: it keeps, for each client, where each execution group of its DAG
//! stands (waiting for some files, ready, running on a worker, finished), gives the ready groups
//! to the free workers by priority, and tells the clients what happened to the executions and
//! files they watch. A failed file makes every group waiting for it finish without running, and
//! so on through the files those groups would have written.
//!
//! The scheduler reacts to one event at a time and answers with the messages to send; the caller
//! delivers the events and sends the messages.

use vstd::prelude::*;

use crate::check_dag::{
    ExecutionDAGData, ExecutionDAGWatchSet, ExecutionGroupInfo, ExecutionGroupUuid, ExecutionUuid,
    FileUuid,
};

verus! {

/// The identifier of a client of the scheduler.
pub type ClientUuid = u128;
/// The identifier of a worker.
pub type WorkerUuid = u128;

/// Where an execution group of a client stands.
#[derive(Debug)]
pub enum GroupState {
    /// Waiting for the files of the list to be produced.
    Waiting(Vec<FileUuid>),
    /// All its files are there, it waits for a worker.
    Ready,
    /// A worker runs it.
    Running,
    /// It ran, or it was skipped because one of its files could not be produced.
    Finished,
}

/// The view of a [`GroupState`].
pub enum GroupStatus {
    Waiting(Seq<FileUuid>),
    Ready,
    Running,
    Finished,
}

impl View for GroupState {
    type V = GroupStatus;

    open spec fn view(&self) -> GroupStatus {
        match self {
            GroupState::Waiting(m) => GroupStatus::Waiting(m@),
            GroupState::Ready => GroupStatus::Ready,
            GroupState::Running => GroupStatus::Running,
            GroupState::Finished => GroupStatus::Finished,
        }
    }
}

/// A group ready to run, in the queue of the scheduler, or the job of a worker: the priority and
/// identifier of the group, its client, and its position in the DAG of the client.
#[derive(Debug, Clone, Copy)]
pub struct ReadyExec {
    pub priority: i64,
    pub group: ExecutionGroupUuid,
    pub client: ClientUuid,
    pub index: usize,
}

/// What the scheduler asks to be sent.
#[derive(Debug, Clone, Copy, PartialEq, Eq)]
pub enum SchedulerAction {
    /// To the client: a watched execution started on a worker.
    ExecutionStarted { client: ClientUuid, execution: ExecutionUuid, worker: WorkerUuid },
    /// To the client: a watched execution completed, with the result the worker sent.
    ExecutionDone { client: ClientUuid, execution: ExecutionUuid },
    /// To the client: a watched execution was skipped, since a file it needs could not be made.
    ExecutionSkipped { client: ClientUuid, execution: ExecutionUuid },
    /// To the client: a watched file is known, produced successfully or not.
    FileReady { client: ClientUuid, file: FileUuid, successful: bool, urgent: bool },
    /// To the client: the evaluation of its DAG is over.
    EvaluationDone { client: ClientUuid },
    /// To a worker: run a group of a client.
    WorkerJob { worker: WorkerUuid, client: ClientUuid, group: ExecutionGroupUuid },
    /// To a worker: stop the group it runs, its client is gone.
    StopWorkerJob { worker: WorkerUuid, group: ExecutionGroupUuid },
}

/// What the scheduler knows of a client.
struct SchedulerClientData {
    uuid: ClientUuid,
    name: String,
    dag: ExecutionDAGData,
    callbacks: ExecutionDAGWatchSet,
    /// Where each group of the DAG stands, in the order of the groups.
    states: Vec<GroupState>,
    /// The files of the client that are in the store.
    known_files: Vec<FileUuid>,
}

/// The view of a client.
pub struct ClientView {
    pub uuid: ClientUuid,
    pub name: Seq<char>,
    pub dag: ExecutionDAGData,
    pub callbacks: ExecutionDAGWatchSet,
    pub states: Seq<GroupStatus>,
    pub known: Seq<FileUuid>,
}

impl View for SchedulerClientData {
    type V = ClientView;

    closed spec fn view(&self) -> ClientView {
        ClientView {
            uuid: self.uuid,
            name: self.name@,
            dag: self.dag,
            callbacks: self.callbacks,
            states: self.states@.map_values(|s: GroupState| s@),
            known: self.known_files@,
        }
    }
}

/// A worker connected to the scheduler.
struct ConnectedWorker {
    uuid: WorkerUuid,
    name: String,
    current_job: Option<ReadyExec>,
}

/// The view of a worker.
pub struct WorkerView {
    pub uuid: WorkerUuid,
    pub name: Seq<char>,
    pub job: Option<ReadyExec>,
}

impl View for ConnectedWorker {
    type V = WorkerView;

    closed spec fn view(&self) -> WorkerView {
        WorkerView { uuid: self.uuid, name: self.name@, job: self.current_job }
    }
}

/// The view of the scheduler: the queue of the ready groups, the clients and the workers.
pub struct SchedulerView {
    pub ready: Seq<ReadyExec>,
    pub clients: Seq<ClientView>,
    pub workers: Seq<WorkerView>,
}

/// The scheduler.
pub struct Scheduler {
    ready_execs: Vec<ReadyExec>,
    clients: Vec<SchedulerClientData>,
    connected_workers: Vec<ConnectedWorker>,
}

impl View for Scheduler {
    type V = SchedulerView;

    closed spec fn view(&self) -> SchedulerView {
        SchedulerView {
            ready: self.ready_execs@,
            clients: self.clients@.map_values(|c: SchedulerClientData| c@),
            workers: self.connected_workers@.map_values(|w: ConnectedWorker| w@),
        }
    }
}

/// The position of the first occurrence of `x` in `s`, or -1.
pub open spec fn pos_of(s: Seq<u128>, x: u128) -> int
    decreases s.len(),
{
    if s.len() == 0 {
        -1
    } else if s[0] == x {
        0
    } else {
        let r = pos_of(s.drop_first(), x);
        if r < 0 { -1 } else { r + 1 }
    }
}

pub proof fn lemma_pos_of(s: Seq<u128>, x: u128)
    ensures
        pos_of(s, x) < 0 <==> !s.contains(x),
        pos_of(s, x) < 0 ==> pos_of(s, x) == -1,
        pos_of(s, x) >= 0 ==> pos_of(s, x) < s.len() && s[pos_of(s, x)] == x,
        pos_of(s, x) >= 0 ==> forall|j: int| 0 <= j < pos_of(s, x) ==> s[j] != x,
    decreases s.len(),
{
    if s.len() > 0 {
        lemma_pos_of(s.drop_first(), x);
        if s[0] != x {
            assert forall|j: int| 0 <= j < s.len() && s[j] == x implies s.drop_first().contains(x) by {
                assert(s.drop_first()[j - 1] == x);
            }
            if s.drop_first().contains(x) {
                let j = choose|j: int| 0 <= j < s.drop_first().len() && s.drop_first()[j] == x;
                assert(s[j + 1] == x);
                let r = pos_of(s.drop_first(), x);
                assert forall|i: int| 0 <= i < r + 1 implies s[i] != x by {
                    if i > 0 {
                        assert(s[i] == s.drop_first()[i - 1]);
                    }
                }
            }
        }
    }
}

/// The identifiers of the clients, in order.
pub open spec fn client_uuids(cs: Seq<ClientView>) -> Seq<ClientUuid> {
    cs.map_values(|c: ClientView| c.uuid)
}

/// The position of a client, or -1 when it is gone.
pub open spec fn client_pos(v: SchedulerView, c: ClientUuid) -> int {
    pos_of(client_uuids(v.clients), c)
}

/// The identifiers of the workers, in order.
pub open spec fn worker_uuids(ws: Seq<WorkerView>) -> Seq<WorkerUuid> {
    ws.map_values(|w: WorkerView| w.uuid)
}

/// The position of a worker, or -1 when it is not connected.
pub open spec fn worker_pos(v: SchedulerView, w: WorkerUuid) -> int {
    pos_of(worker_uuids(v.workers), w)
}

/// The group at a position of the DAG of a client.
pub open spec fn group_at(c: ClientView, i: int) -> ExecutionGroupInfo {
    c.dag.execution_groups@[i]
}

/// Execution `j` of the group needs the file `d`.
pub open spec fn dep(g: ExecutionGroupInfo, j: int, d: FileUuid) -> bool {
    0 <= j < g.executions@.len() && g.executions@[j].dependencies@.contains(d)
}

/// Some execution of the group needs the file `d`.
pub open spec fn depends_on(g: ExecutionGroupInfo, d: FileUuid) -> bool {
    exists|j: int| #[trigger] dep(g, j, d)
}

/// Every file the group needs is known.
pub open spec fn deps_known(g: ExecutionGroupInfo, known: Seq<FileUuid>) -> bool {
    forall|j: int, d: FileUuid| #[trigger] dep(g, j, d) ==> known.contains(d)
}

/// The state of group `i` agrees with the known files: a waiting group waits for every file it
/// needs that is not known, and a ready or running group has all its files.
pub open spec fn state_ok(c: ClientView, i: int) -> bool {
    match c.states[i] {
        GroupStatus::Waiting(m) => forall|j: int, d: FileUuid| #[trigger] dep(group_at(c, i), j, d)
            ==> m.contains(d) || c.known.contains(d),
        GroupStatus::Ready => deps_known(group_at(c, i), c.known),
        GroupStatus::Running => deps_known(group_at(c, i), c.known),
        GroupStatus::Finished => true,
    }
}

/// A client has a state for each group of its DAG, each agreeing with the known files.
pub open spec fn client_wf(c: ClientView) -> bool {
    &&& c.states.len() == c.dag.execution_groups@.len()
    &&& c.states.len() <= usize::MAX
    &&& forall|i: int| 0 <= i < c.states.len() ==> #[trigger] state_ok(c, i)
}

/// The entry designates the group at its position in the DAG of its client.
pub open spec fn designates(c: ClientView, e: ReadyExec) -> bool {
    &&& e.index < c.states.len()
    &&& group_at(c, e.index as int).uuid == e.group
    &&& group_at(c, e.index as int).priority == e.priority
}

/// An entry of the queue designates a ready group of a connected client.
pub open spec fn entry_ok(v: SchedulerView, e: ReadyExec) -> bool {
    let k = client_pos(v, e.client);
    &&& k >= 0
    &&& designates(v.clients[k], e)
    &&& v.clients[k].states[e.index as int] is Ready
}

/// The job of a worker, while its client is connected, designates a running group.
pub open spec fn job_ok(v: SchedulerView, e: ReadyExec) -> bool {
    let k = client_pos(v, e.client);
    k >= 0 ==> designates(v.clients[k], e) && v.clients[k].states[e.index as int] is Running
}

/// Two entries designate the same group.
pub open spec fn same_group(a: ReadyExec, b: ReadyExec) -> bool {
    a.client == b.client && a.index == b.index
}

/// The invariant of the scheduler.
pub open spec fn sched_wf(v: SchedulerView) -> bool {
    &&& forall|a: int, b: int| 0 <= a < b < v.clients.len() ==> v.clients[a].uuid != v.clients[b].uuid
    &&& forall|k: int| 0 <= k < v.clients.len() ==> client_wf(#[trigger] v.clients[k])
    &&& forall|a: int| 0 <= a < v.ready.len() ==> entry_ok(v, #[trigger] v.ready[a])
    &&& forall|a: int, b: int| 0 <= a < b < v.ready.len() ==> !same_group(v.ready[a], v.ready[b])
    &&& forall|a: int, b: int| 0 <= a < b < v.workers.len() ==> v.workers[a].uuid != v.workers[b].uuid
    &&& forall|a: int| 0 <= a < v.workers.len() && (#[trigger] v.workers[a]).job is Some
        ==> job_ok(v, v.workers[a].job->0)
    &&& forall|a: int, b: int| 0 <= a < v.workers.len() && 0 <= b < v.workers.len() && a != b
        && v.workers[a].job is Some && v.workers[b].job is Some
        && client_pos(v, v.workers[a].job->0.client) >= 0
        ==> !same_group(v.workers[a].job->0, v.workers[b].job->0)
}



/// What the position of a client says.
pub proof fn lemma_client_pos(v: SchedulerView, c: ClientUuid)
    ensures
        client_pos(v, c) < v.clients.len(),
        client_pos(v, c) >= 0 ==> v.clients[client_pos(v, c)].uuid == c,
        client_pos(v, c) < 0 ==> client_pos(v, c) == -1 && forall|k: int| 0 <= k < v.clients.len() ==> v.clients[k].uuid != c,
        (forall|a: int, b: int| 0 <= a < b < v.clients.len() ==> v.clients[a].uuid != v.clients[b].uuid)
            ==> forall|k: int| 0 <= k < v.clients.len() && v.clients[k].uuid == c ==> client_pos(v, c) == k,
{
    let s = client_uuids(v.clients);
    lemma_pos_of(s, c);
    assert(s.len() == v.clients.len());
    assert forall|k: int| 0 <= k < v.clients.len() implies s[k] == v.clients[k].uuid by {}
    if client_pos(v, c) < 0 {
        assert forall|k: int| 0 <= k < v.clients.len() implies v.clients[k].uuid != c by {
            assert(s[k] == v.clients[k].uuid);
        }
    }
}

/// What the position of a worker says.
pub proof fn lemma_worker_pos(v: SchedulerView, w: WorkerUuid)
    ensures
        worker_pos(v, w) < v.workers.len(),
        worker_pos(v, w) >= 0 ==> v.workers[worker_pos(v, w)].uuid == w,
        worker_pos(v, w) < 0 ==> worker_pos(v, w) == -1 && forall|k: int| 0 <= k < v.workers.len() ==> v.workers[k].uuid != w,
        (forall|a: int, b: int| 0 <= a < b < v.workers.len() ==> v.workers[a].uuid != v.workers[b].uuid)
            ==> forall|k: int| 0 <= k < v.workers.len() && v.workers[k].uuid == w ==> worker_pos(v, w) == k,
{
    let s = worker_uuids(v.workers);
    lemma_pos_of(s, w);
    assert(s.len() == v.workers.len());
    assert forall|k: int| 0 <= k < v.workers.len() implies s[k] == v.workers[k].uuid by {}
    if worker_pos(v, w) < 0 {
        assert forall|k: int| 0 <= k < v.workers.len() implies v.workers[k].uuid != w by {
            assert(s[k] == v.workers[k].uuid);
        }
    }
}

/// The client with group `i` in state `s`.
pub open spec fn update_state(c: ClientView, i: int, s: GroupStatus) -> ClientView {
    ClientView {
        uuid: c.uuid,
        name: c.name,
        dag: c.dag,
        callbacks: c.callbacks,
        states: c.states.update(i, s),
        known: c.known,
    }
}

/// The scheduler with client `k` replaced.
pub open spec fn with_client(v: SchedulerView, k: int, c: ClientView) -> SchedulerView {
    SchedulerView { ready: v.ready, clients: v.clients.update(k, c), workers: v.workers }
}

/// Replacing a client by one with the same identifier keeps the positions of the clients.
pub proof fn lemma_same_uuids(cs: Seq<ClientView>, k: int, c: ClientView)
    requires
        0 <= k < cs.len(),
        c.uuid == cs[k].uuid,
    ensures
        client_uuids(cs.update(k, c)) == client_uuids(cs),
{
    assert(client_uuids(cs.update(k, c)) =~= client_uuids(cs));
}

/// The message about a file, when the client watches it and it is in the store.
pub open spec fn send_file_acts(v: SchedulerView, c: ClientUuid, f: FileUuid, ok: bool) -> Seq<SchedulerAction> {
    let k = client_pos(v, c);
    if k >= 0 && v.clients[k].callbacks.files@.contains(f) && v.clients[k].known.contains(f) {
        seq![SchedulerAction::FileReady {
            client: c,
            file: f,
            successful: ok,
            urgent: v.clients[k].callbacks.urgent_files@.contains(f),
        }]
    } else {
        Seq::empty()
    }
}

/// Every group of the client is finished.
pub open spec fn all_finished(c: ClientView) -> bool {
    forall|i: int| 0 <= i < c.states.len() ==> c.states[i] is Finished
}

/// The message that the evaluation of a client is over, when it is.
pub open spec fn completion_acts(v: SchedulerView, c: ClientUuid) -> Seq<SchedulerAction> {
    let k = client_pos(v, c);
    if k >= 0 && all_finished(v.clients[k]) {
        seq![SchedulerAction::EvaluationDone { client: c }]
    } else {
        Seq::empty()
    }
}

/// The order of the queue: by priority, then by group, then by client.
pub open spec fn entry_lt(a: ReadyExec, b: ReadyExec) -> bool {
    ||| a.priority < b.priority
    ||| a.priority == b.priority && a.group < b.group
    ||| a.priority == b.priority && a.group == b.group && a.client < b.client
}

/// The position of the first greatest entry of a non-empty queue.
pub open spec fn max_pos(q: Seq<ReadyExec>) -> int
    decreases q.len(),
{
    if q.len() <= 1 {
        0
    } else {
        let m = max_pos(q.drop_last());
        if entry_lt(q[m], q.last()) { q.len() - 1 } else { m }
    }
}

pub proof fn lemma_max_pos(q: Seq<ReadyExec>)
    requires
        q.len() > 0,
    ensures
        0 <= max_pos(q) < q.len(),
        forall|j: int| 0 <= j < q.len() ==> !entry_lt(q[max_pos(q)], #[trigger] q[j]),
    decreases q.len(),
{
    if q.len() > 1 {
        lemma_max_pos(q.drop_last());
        let m = max_pos(q.drop_last());
        assert forall|j: int| 0 <= j < q.len() implies !entry_lt(q[max_pos(q)], #[trigger] q[j]) by {
            if j < q.len() - 1 {
                assert(q.drop_last()[j] == q[j]);
            }
        }
    }
}

/// What happened to an execution, as told to its client.
#[derive(Debug, Clone, Copy)]
pub enum ExecEvent {
    /// It started on the worker.
    Started(WorkerUuid),
    /// It completed.
    Done,
    /// It was skipped.
    Skipped,
}

/// The message about an execution of a client.
pub open spec fn event_act(kind: ExecEvent, c: ClientUuid, x: ExecutionUuid) -> SchedulerAction {
    match kind {
        ExecEvent::Started(w) => SchedulerAction::ExecutionStarted { client: c, execution: x, worker: w },
        ExecEvent::Done => SchedulerAction::ExecutionDone { client: c, execution: x },
        ExecEvent::Skipped => SchedulerAction::ExecutionSkipped { client: c, execution: x },
    }
}

/// The messages about the executions of a group that the client watches, in order.
pub open spec fn watched_acts(
    execs: Seq<crate::check_dag::ExecutionInfo>,
    watched: Seq<ExecutionUuid>,
    kind: ExecEvent,
    c: ClientUuid,
) -> Seq<SchedulerAction>
    decreases execs.len(),
{
    if execs.len() == 0 {
        Seq::empty()
    } else {
        watched_acts(execs.drop_last(), watched, kind, c) + if watched.contains(execs.last().uuid) {
            seq![event_act(kind, c, execs.last().uuid)]
        } else {
            Seq::empty()
        }
    }
}

/// A step of the assignment of jobs, on worker `i`: a free worker gets the first greatest entry
/// of the queue, and its group starts; the assignment stops at the first free worker that finds
/// the queue empty.
pub open spec fn assign_step(v: SchedulerView, i: int) -> (SchedulerView, Seq<SchedulerAction>, bool) {
    let w = v.workers[i];
    if w.job is Some {
        (v, Seq::empty(), false)
    } else if v.ready.len() == 0 {
        (v, Seq::empty(), true)
    } else {
        let e = v.ready[max_pos(v.ready)];
        let v1 = SchedulerView {
            ready: v.ready.remove(max_pos(v.ready)),
            clients: v.clients,
            workers: v.workers.update(i, WorkerView { uuid: w.uuid, name: w.name, job: Some(e) }),
        };
        let k = client_pos(v, e.client);
        if k < 0 {
            (v1, Seq::empty(), false)
        } else {
            let c = v.clients[k];
            let wid = w.uuid;
            let cid = e.client;
            (
                with_client(v1, k, update_state(c, e.index as int, GroupStatus::Running)),
                seq![SchedulerAction::WorkerJob { worker: wid, client: cid, group: e.group }]
                    + watched_acts(
                    group_at(c, e.index as int).executions@,
                    c.callbacks.executions@,
                    ExecEvent::Started(wid),
                    cid,
                ),
                false,
            )
        }
    }
}

/// The assignment of jobs to the workers from position `i` on (`n` is the number of workers).
pub open spec fn assign_from(v: SchedulerView, n: int, i: int) -> (SchedulerView, Seq<SchedulerAction>)
    decreases n - i,
{
    if i >= n || i < 0 {
        (v, Seq::empty())
    } else {
        let (v1, a1, stop) = assign_step(v, i);
        if stop {
            (v1, a1)
        } else {
            let (v2, a2) = assign_from(v1, n, i + 1);
            (v2, a1 + a2)
        }
    }
}

/// The assignment of jobs to all the workers.
pub open spec fn assign_spec(v: SchedulerView) -> (SchedulerView, Seq<SchedulerAction>) {
    assign_from(v, v.workers.len() as int, 0)
}



/// The clients are the same, but for where their groups stand.
pub open spec fn keeps(v: SchedulerView, v2: SchedulerView) -> bool {
    &&& v2.clients.len() == v.clients.len()
    &&& forall|k: int| 0 <= k < v.clients.len() ==> {
        &&& (#[trigger] v2.clients[k]).uuid == v.clients[k].uuid
        &&& v2.clients[k].name == v.clients[k].name
        &&& v2.clients[k].dag == v.clients[k].dag
        &&& v2.clients[k].callbacks == v.clients[k].callbacks
        &&& v2.clients[k].known == v.clients[k].known
        &&& v2.clients[k].states.len() == v.clients[k].states.len()
    }
}

pub proof fn lemma_keeps_trans(v1: SchedulerView, v2: SchedulerView, v3: SchedulerView)
    requires
        keeps(v1, v2),
        keeps(v2, v3),
    ensures
        keeps(v1, v3),
{
    assert forall|k: int| 0 <= k < v1.clients.len() implies {
        &&& (#[trigger] v3.clients[k]).uuid == v1.clients[k].uuid
        &&& v3.clients[k].name == v1.clients[k].name
        &&& v3.clients[k].dag == v1.clients[k].dag
        &&& v3.clients[k].callbacks == v1.clients[k].callbacks
        &&& v3.clients[k].known == v1.clients[k].known
        &&& v3.clients[k].states.len() == v1.clients[k].states.len()
    } by {
        assert(v2.clients[k].uuid == v1.clients[k].uuid);
    }
}

/// Keeping the clients keeps their positions.
pub proof fn lemma_keeps_pos(v: SchedulerView, v2: SchedulerView)
    requires
        keeps(v, v2),
    ensures
        forall|x: ClientUuid| client_pos(v2, x) == client_pos(v, x),
{
    assert(client_uuids(v2.clients) =~= client_uuids(v.clients)) by {
        assert forall|k: int| 0 <= k < v.clients.len() implies client_uuids(v2.clients)[k] == client_uuids(v.clients)[k] by {
            assert(v2.clients[k].uuid == v.clients[k].uuid);
        }
    }
}

/// A step of the assignment keeps the invariant and the workers.
pub proof fn lemma_assign_step(v: SchedulerView, i: int)
    requires
        sched_wf(v),
        0 <= i < v.workers.len(),
    ensures
        sched_wf(assign_step(v, i).0),
        assign_step(v, i).0.workers.len() == v.workers.len(),
        assign_step(v, i).0.clients.len() == v.clients.len(),
        keeps(v, assign_step(v, i).0),
{
    let w = v.workers[i];
    if w.job is None && v.ready.len() > 0 {
        lemma_max_pos(v.ready);
        let m = max_pos(v.ready);
        let e = v.ready[m];
        assert(entry_ok(v, e));
        lemma_client_pos(v, e.client);
        let k = client_pos(v, e.client);
        let c = v.clients[k];
        let c2 = update_state(c, e.index as int, GroupStatus::Running);
        let v2 = assign_step(v, i).0;
        lemma_same_uuids(v.clients, k, c2);
        assert(client_uuids(v2.clients) == client_uuids(v.clients));
        assert(forall|x: ClientUuid| client_pos(v2, x) == client_pos(v, x));
        assert(v2.clients == v.clients.update(k, c2));
        assert(v2.ready == v.ready.remove(m));
        assert forall|a: int, b: int| 0 <= a < b < v2.clients.len() implies v2.clients[a].uuid != v2.clients[b].uuid by {
            assert(v2.clients[a].uuid == v.clients[a].uuid) by {
                if a == k {} else {}
            }
            assert(v2.clients[b].uuid == v.clients[b].uuid) by {
                if b == k {} else {}
            }
        }
        assert forall|kk: int| 0 <= kk < v2.clients.len() implies client_wf(#[trigger] v2.clients[kk]) by {
            assert(client_wf(v.clients[kk]));
            if kk == k {
                assert forall|ii: int| 0 <= ii < c2.states.len() implies #[trigger] state_ok(c2, ii) by {
                    assert(state_ok(c, ii));
                    assert(group_at(c2, ii) == group_at(c, ii));
                    if ii == e.index as int {
                        assert(c.states[ii] is Ready);
                        assert(deps_known(group_at(c, ii), c.known));
                    } else {
                        assert(c2.states[ii] == c.states[ii]);
                    }
                }
            }
        }
        assert forall|a: int| 0 <= a < v2.ready.len() implies entry_ok(v2, #[trigger] v2.ready[a]) by {
            let j = if a < m { a } else { a + 1 };
            assert(v2.ready[a] == v.ready[j]);
            let ej = v.ready[j];
            assert(entry_ok(v, ej));
            if j < m {
                assert(!same_group(v.ready[j], v.ready[m]));
            } else {
                assert(!same_group(v.ready[m], v.ready[j]));
            }
            lemma_client_pos(v, ej.client);
            let kj = client_pos(v, ej.client);
            assert(client_pos(v2, ej.client) == kj);
            if kj == k {
                assert(v2.clients[kj] == c2);
                assert(ej.index != e.index);
                assert(c2.states[ej.index as int] == c.states[ej.index as int]);
            } else {
                assert(v2.clients[kj] == v.clients[kj]);
            }
        }
        assert forall|a: int, b: int| 0 <= a < b < v2.ready.len() implies !same_group(v2.ready[a], v2.ready[b]) by {
            let ja = if a < m { a } else { a + 1 };
            let jb = if b < m { b } else { b + 1 };
            assert(v2.ready[a] == v.ready[ja]);
            assert(v2.ready[b] == v.ready[jb]);
        }
        assert forall|a: int| 0 <= a < v2.workers.len() && (#[trigger] v2.workers[a]).job is Some
            implies job_ok(v2, v2.workers[a].job->0) by {
            if a != i {
                assert(v2.workers[a] == v.workers[a]);
                assert(job_ok(v, v.workers[a].job->0));
                let jb = v.workers[a].job->0;
                lemma_client_pos(v, jb.client);
                let kb = client_pos(v, jb.client);
                assert(client_pos(v2, jb.client) == kb);
                if kb >= 0 {
                    if kb == k {
                        assert(jb.client == e.client);
                        if jb.index == e.index {
                            assert(v.clients[k].states[e.index as int] is Running);
                        }
                        assert(c2.states[jb.index as int] == c.states[jb.index as int]);
                    } else {
                        assert(v2.clients[kb] == v.clients[kb]);
                    }
                }
            } else {
                assert(v2.workers[a].job == Some(e));
                assert(client_pos(v2, e.client) == k);
                assert(v2.clients[k] == c2);
            }
        }
        assert forall|a: int, b: int| 0 <= a < v2.workers.len() && 0 <= b < v2.workers.len() && a != b
            && v2.workers[a].job is Some && v2.workers[b].job is Some
            && client_pos(v2, v2.workers[a].job->0.client) >= 0
            implies !same_group(v2.workers[a].job->0, v2.workers[b].job->0) by {
            if a == i {
                assert(v2.workers[b] == v.workers[b]);
                assert(job_ok(v, v.workers[b].job->0));
            } else if b == i {
                assert(v2.workers[a] == v.workers[a]);
                assert(job_ok(v, v.workers[a].job->0));
            } else {
                assert(v2.workers[a] == v.workers[a]);
                assert(v2.workers[b] == v.workers[b]);
            }
        }
        assert forall|a: int, b: int| 0 <= a < b < v2.workers.len() implies v2.workers[a].uuid != v2.workers[b].uuid by {
            assert(v2.workers[a].uuid == v.workers[a].uuid);
            assert(v2.workers[b].uuid == v.workers[b].uuid);
        }
    }
}


pub proof fn lemma_assign_from(v: SchedulerView, n: int, i: int)
    requires
        sched_wf(v),
        n == v.workers.len(),
        0 <= i,
    ensures
        sched_wf(assign_from(v, n, i).0),
        keeps(v, assign_from(v, n, i).0),
        assign_from(v, n, i).0.workers.len() == v.workers.len(),
    decreases n - i,
{
    if i < n {
        lemma_assign_step(v, i);
        let (v1, a1, stop) = assign_step(v, i);
        if !stop {
            lemma_assign_from(v1, n, i + 1);
            lemma_keeps_trans(v, v1, assign_from(v1, n, i + 1).0);
        }
    }
}

/// The workers after `w` connected with the given name: it replaces a connected worker with the
/// same identifier, dropping its job, or comes after the others.
pub open spec fn connect_spec(v: SchedulerView, w: WorkerUuid, name: Seq<char>) -> SchedulerView {
    let p = worker_pos(v, w);
    let wv = WorkerView { uuid: w, name: name, job: None };
    SchedulerView {
        ready: v.ready,
        clients: v.clients,
        workers: if p >= 0 { v.workers.update(p, wv) } else { v.workers.push(wv) },
    }
}

/// The scheduler after worker `w` went away: its job, if its client is still there, is ready
/// again and back in the queue.
pub open spec fn disconnect_spec(v: SchedulerView, w: WorkerUuid) -> SchedulerView {
    let p = worker_pos(v, w);
    if p < 0 {
        v
    } else {
        let v1 = SchedulerView { ready: v.ready, clients: v.clients, workers: v.workers.remove(p) };
        match v.workers[p].job {
            None => v1,
            Some(e) => {
                let k = client_pos(v, e.client);
                if k < 0 {
                    v1
                } else {
                    SchedulerView {
                        ready: v.ready.push(e),
                        clients: v.clients.update(k, update_state(v.clients[k], e.index as int, GroupStatus::Ready)),
                        workers: v1.workers,
                    }
                }
            },
        }
    }
}

/// The queue without the entries of client `c`.
pub open spec fn drop_client_entries(q: Seq<ReadyExec>, c: ClientUuid) -> Seq<ReadyExec>
    decreases q.len(),
{
    if q.len() == 0 {
        q
    } else {
        drop_client_entries(q.drop_last(), c) + if q.last().client == c { Seq::empty() } else { seq![q.last()] }
    }
}

/// The messages that stop the jobs of the workers working for client `c`, in order.
pub open spec fn stop_acts(ws: Seq<WorkerView>, c: ClientUuid) -> Seq<SchedulerAction>
    decreases ws.len(),
{
    if ws.len() == 0 {
        Seq::empty()
    } else {
        stop_acts(ws.drop_last(), c) + match ws.last().job {
            Some(e) => if e.client == c {
                seq![SchedulerAction::StopWorkerJob { worker: ws.last().uuid, group: e.group }]
            } else {
                Seq::empty()
            },
            None => Seq::empty(),
        }
    }
}

/// The scheduler after client `c` went away, and the messages that stop the jobs of its groups;
/// the workers keep those jobs until they answer.
pub open spec fn client_disconnect_spec(v: SchedulerView, c: ClientUuid) -> (SchedulerView, Seq<SchedulerAction>) {
    let k = client_pos(v, c);
    (
        SchedulerView {
            ready: drop_client_entries(v.ready, c),
            clients: if k >= 0 { v.clients.remove(k) } else { v.clients },
            workers: v.workers,
        },
        stop_acts(v.workers, c),
    )
}

pub proof fn lemma_connect(v: SchedulerView, w: WorkerUuid, name: Seq<char>)
    requires
        sched_wf(v),
    ensures
        sched_wf(connect_spec(v, w, name)),
{
    let v2 = connect_spec(v, w, name);
    lemma_worker_pos(v, w);
    let p = worker_pos(v, w);
    assert forall|a: int| 0 <= a < v2.workers.len() && (#[trigger] v2.workers[a]).job is Some
        implies job_ok(v2, v2.workers[a].job->0) by {
        assert(v2.workers[a] == v.workers[a]);
    }
    assert forall|a: int, b: int| 0 <= a < v2.workers.len() && 0 <= b < v2.workers.len() && a != b
        && v2.workers[a].job is Some && v2.workers[b].job is Some
        && client_pos(v2, v2.workers[a].job->0.client) >= 0
        implies !same_group(v2.workers[a].job->0, v2.workers[b].job->0) by {
        assert(v2.workers[a] == v.workers[a]);
        assert(v2.workers[b] == v.workers[b]);
    }
    assert forall|a: int, b: int| 0 <= a < b < v2.workers.len() implies v2.workers[a].uuid != v2.workers[b].uuid by {
        if p >= 0 {
            if a != p {
                assert(v2.workers[a] == v.workers[a]);
            }
            if b != p {
                assert(v2.workers[b] == v.workers[b]);
            }
        } else {
            if b < v.workers.len() {
                assert(v2.workers[b] == v.workers[b]);
            }
            assert(v2.workers[a] == v.workers[a]);
        }
    }
}

pub proof fn lemma_disconnect(v: SchedulerView, w: WorkerUuid)
    requires
        sched_wf(v),
    ensures
        sched_wf(disconnect_spec(v, w)),
{
    lemma_worker_pos(v, w);
    let p = worker_pos(v, w);
    if p >= 0 {
        let v2 = disconnect_spec(v, w);
        assert(v2.workers == v.workers.remove(p));
        assert forall|a: int, b: int| 0 <= a < b < v2.workers.len() implies v2.workers[a].uuid != v2.workers[b].uuid by {
            let ja = if a < p { a } else { a + 1 };
            let jb = if b < p { b } else { b + 1 };
            assert(v2.workers[a] == v.workers[ja]);
            assert(v2.workers[b] == v.workers[jb]);
        }
        match v.workers[p].job {
            None => {
                assert(v2.clients == v.clients);
                assert forall|a: int| 0 <= a < v2.workers.len() && (#[trigger] v2.workers[a]).job is Some
                    implies job_ok(v2, v2.workers[a].job->0) by {
                    let ja = if a < p { a } else { a + 1 };
                    assert(v2.workers[a] == v.workers[ja]);
                }
                assert forall|a: int, b: int| 0 <= a < v2.workers.len() && 0 <= b < v2.workers.len() && a != b
                    && v2.workers[a].job is Some && v2.workers[b].job is Some
                    && client_pos(v2, v2.workers[a].job->0.client) >= 0
                    implies !same_group(v2.workers[a].job->0, v2.workers[b].job->0) by {
                    let ja = if a < p { a } else { a + 1 };
                    let jb = if b < p { b } else { b + 1 };
                    assert(v2.workers[a] == v.workers[ja]);
                    assert(v2.workers[b] == v.workers[jb]);
                }
            },
            Some(e) => {
                lemma_client_pos(v, e.client);
                let k = client_pos(v, e.client);
                if k < 0 {
                    assert(v2.clients == v.clients);
                    assert forall|a: int| 0 <= a < v2.workers.len() && (#[trigger] v2.workers[a]).job is Some
                        implies job_ok(v2, v2.workers[a].job->0) by {
                        let ja = if a < p { a } else { a + 1 };
                        assert(v2.workers[a] == v.workers[ja]);
                    }
                    assert forall|a: int, b: int| 0 <= a < v2.workers.len() && 0 <= b < v2.workers.len() && a != b
                        && v2.workers[a].job is Some && v2.workers[b].job is Some
                        && client_pos(v2, v2.workers[a].job->0.client) >= 0
                        implies !same_group(v2.workers[a].job->0, v2.workers[b].job->0) by {
                        let ja = if a < p { a } else { a + 1 };
                        let jb = if b < p { b } else { b + 1 };
                        assert(v2.workers[a] == v.workers[ja]);
                        assert(v2.workers[b] == v.workers[jb]);
                    }
                } else {
                    let c = v.clients[k];
                    let c2 = update_state(c, e.index as int, GroupStatus::Ready);
                    assert(job_ok(v, e));
                    lemma_same_uuids(v.clients, k, c2);
                    assert(v2.clients == v.clients.update(k, c2));
                    assert(client_uuids(v2.clients) == client_uuids(v.clients));
                    assert(forall|x: ClientUuid| client_pos(v2, x) == client_pos(v, x));
                    assert forall|a: int, b: int| 0 <= a < b < v2.clients.len() implies v2.clients[a].uuid != v2.clients[b].uuid by {
                        assert(v2.clients[a].uuid == v.clients[a].uuid) by {
                            if a == k {} else {}
                        }
                        assert(v2.clients[b].uuid == v.clients[b].uuid) by {
                            if b == k {} else {}
                        }
                    }
                    assert forall|kk: int| 0 <= kk < v2.clients.len() implies client_wf(#[trigger] v2.clients[kk]) by {
                        assert(client_wf(v.clients[kk]));
                        if kk == k {
                            assert forall|ii: int| 0 <= ii < c2.states.len() implies #[trigger] state_ok(c2, ii) by {
                                assert(state_ok(c, ii));
                                assert(group_at(c2, ii) == group_at(c, ii));
                                if ii == e.index as int {
                                    assert(c.states[ii] is Running);
                                } else {
                                    assert(c2.states[ii] == c.states[ii]);
                                }
                            }
                        }
                    }
                    // the ready entries are for ready groups, so not for the group of the job
                    assert forall|a: int| 0 <= a < v2.ready.len() implies entry_ok(v2, #[trigger] v2.ready[a]) by {
                        if a < v.ready.len() {
                            let ea = v.ready[a];
                            assert(v2.ready[a] == ea);
                            assert(entry_ok(v, ea));
                            lemma_client_pos(v, ea.client);
                            let ka = client_pos(v, ea.client);
                            if ka == k {
                                assert(ea.client == e.client);
                                if ea.index == e.index {
                                    assert(c.states[e.index as int] is Running);
                                }
                                assert(c2.states[ea.index as int] == c.states[ea.index as int]);
                            } else {
                                assert(v2.clients[ka] == v.clients[ka]);
                            }
                        } else {
                            assert(v2.ready[a] == e);
                            assert(v2.clients[k] == c2);
                        }
                    }
                    assert forall|a: int, b: int| 0 <= a < b < v2.ready.len() implies !same_group(v2.ready[a], v2.ready[b]) by {
                        if b == v.ready.len() {
                            let ea = v.ready[a];
                            assert(entry_ok(v, ea));
                            lemma_client_pos(v, ea.client);
                            if same_group(ea, e) {
                                assert(c.states[e.index as int] is Running);
                            }
                        }
                    }
                    assert forall|a: int| 0 <= a < v2.workers.len() && (#[trigger] v2.workers[a]).job is Some
                        implies job_ok(v2, v2.workers[a].job->0) by {
                        let ja = if a < p { a } else { a + 1 };
                        assert(v2.workers[a] == v.workers[ja]);
                        let jb = v.workers[ja].job->0;
                        assert(job_ok(v, jb));
                        lemma_client_pos(v, jb.client);
                        let kb = client_pos(v, jb.client);
                        if kb == k {
                            assert(jb.client == e.client);
                            assert(!same_group(v.workers[ja].job->0, v.workers[p].job->0));
                            assert(c2.states[jb.index as int] == c.states[jb.index as int]);
                        } else if kb >= 0 {
                            assert(v2.clients[kb] == v.clients[kb]);
                        }
                    }
                    assert forall|a: int, b: int| 0 <= a < v2.workers.len() && 0 <= b < v2.workers.len() && a != b
                        && v2.workers[a].job is Some && v2.workers[b].job is Some
                        && client_pos(v2, v2.workers[a].job->0.client) >= 0
                        implies !same_group(v2.workers[a].job->0, v2.workers[b].job->0) by {
                        let ja = if a < p { a } else { a + 1 };
                        let jb = if b < p { b } else { b + 1 };
                        assert(v2.workers[a] == v.workers[ja]);
                        assert(v2.workers[b] == v.workers[jb]);
                    }
                }
            },
        }
    }
}

/// The entries kept come from the queue, in order, none of client `c`, and every entry of another
/// client is kept.
pub proof fn lemma_drop_client_entries(q: Seq<ReadyExec>, c: ClientUuid)
    ensures
        forall|a: int| 0 <= a < drop_client_entries(q, c).len() ==> (#[trigger] drop_client_entries(q, c)[a]).client != c
            && exists|j: int| 0 <= j < q.len() && q[j] == drop_client_entries(q, c)[a],
        forall|j: int| 0 <= j < q.len() && q[j].client != c ==> drop_client_entries(q, c).contains(#[trigger] q[j]),
        (forall|a: int, b: int| 0 <= a < b < q.len() ==> !same_group(q[a], q[b])) ==>
            forall|a: int, b: int| 0 <= a < b < drop_client_entries(q, c).len()
                ==> !same_group(drop_client_entries(q, c)[a], drop_client_entries(q, c)[b]),
    decreases q.len(),
{
    if q.len() > 0 {
        let p = q.drop_last();
        lemma_drop_client_entries(p, c);
        let r = drop_client_entries(q, c);
        let rp = drop_client_entries(p, c);
        assert forall|a: int| 0 <= a < r.len() implies (#[trigger] r[a]).client != c
            && exists|j: int| 0 <= j < q.len() && q[j] == r[a] by {
            if a < rp.len() {
                assert(r[a] == rp[a]);
                let j = choose|j: int| 0 <= j < p.len() && p[j] == rp[a];
                assert(q[j] == r[a]);
            } else {
                assert(r[a] == q.last());
                assert(q[q.len() - 1] == r[a]);
            }
        }
        assert forall|j: int| 0 <= j < q.len() && q[j].client != c implies r.contains(#[trigger] q[j]) by {
            if j < p.len() {
                assert(p[j] == q[j]);
                assert(rp.contains(p[j]));
                let a = choose|a: int| 0 <= a < rp.len() && rp[a] == p[j];
                assert(r[a] == rp[a]);
            } else {
                assert(r[r.len() - 1] == q.last());
            }
        }
        if forall|a: int, b: int| 0 <= a < b < q.len() ==> !same_group(q[a], q[b]) {
            assert forall|a: int, b: int| 0 <= a < b < r.len() implies !same_group(r[a], r[b]) by {
                if b < rp.len() {
                    assert(r[a] == rp[a]);
                    assert(r[b] == rp[b]);
                } else {
                    assert(r[a] == rp[a]);
                    let j = choose|j: int| 0 <= j < p.len() && p[j] == rp[a];
                    assert(q[j] == r[a]);
                    assert(r[b] == q[q.len() - 1]);
                }
            }
        }
    }
}

/// Removing client `k` moves the clients after it one place back.
pub proof fn lemma_remove_client(v: SchedulerView, k: int, x: ClientUuid)
    requires
        forall|a: int, b: int| 0 <= a < b < v.clients.len() ==> v.clients[a].uuid != v.clients[b].uuid,
        0 <= k < v.clients.len(),
        x != v.clients[k].uuid,
    ensures
        ({
            let v2 = SchedulerView { ready: v.ready, clients: v.clients.remove(k), workers: v.workers };
            let p = client_pos(v, x);
            &&& (forall|a: int, b: int| 0 <= a < b < v2.clients.len() ==> v2.clients[a].uuid != v2.clients[b].uuid)
            &&& p < 0 ==> client_pos(v2, x) < 0
            &&& p >= 0 ==> client_pos(v2, x) == (if p < k { p } else { p - 1 })
                && v2.clients[client_pos(v2, x)] == v.clients[p]
        }),
{
    let v2 = SchedulerView { ready: v.ready, clients: v.clients.remove(k), workers: v.workers };
    assert forall|a: int, b: int| 0 <= a < b < v2.clients.len() implies v2.clients[a].uuid != v2.clients[b].uuid by {
        let ja = if a < k { a } else { a + 1 };
        let jb = if b < k { b } else { b + 1 };
        assert(v2.clients[a] == v.clients[ja]);
        assert(v2.clients[b] == v.clients[jb]);
    }
    lemma_client_pos(v, x);
    lemma_client_pos(v2, x);
    let p = client_pos(v, x);
    if p >= 0 {
        let q = if p < k { p } else { p - 1 };
        assert(v2.clients[q] == v.clients[p]);
    } else {
        if client_pos(v2, x) >= 0 {
            let q = client_pos(v2, x);
            let j = if q < k { q } else { q + 1 };
            assert(v2.clients[q] == v.clients[j]);
        }
    }
}

pub proof fn lemma_client_disconnect(v: SchedulerView, c: ClientUuid)
    requires
        sched_wf(v),
    ensures
        sched_wf(client_disconnect_spec(v, c).0),
{
    let v2 = client_disconnect_spec(v, c).0;
    lemma_client_pos(v, c);
    let k = client_pos(v, c);
    lemma_drop_client_entries(v.ready, c);
    // where a client other than c went
    assert forall|x: ClientUuid| x != c implies
        (client_pos(v, x) < 0 ==> client_pos(v2, x) < 0)
        && (client_pos(v, x) >= 0 ==> client_pos(v2, x) >= 0 && v2.clients[client_pos(v2, x)] == v.clients[client_pos(v, x)]) by {
        if k >= 0 {
            lemma_remove_client(v, k, x);
        }
    }
    assert forall|a: int, b: int| 0 <= a < b < v2.clients.len() implies v2.clients[a].uuid != v2.clients[b].uuid by {
        if k >= 0 {
            let ja = if a < k { a } else { a + 1 };
            let jb = if b < k { b } else { b + 1 };
            assert(v2.clients[a] == v.clients[ja]);
            assert(v2.clients[b] == v.clients[jb]);
        }
    }
    assert forall|kk: int| 0 <= kk < v2.clients.len() implies client_wf(#[trigger] v2.clients[kk]) by {
        if k >= 0 {
            let j = if kk < k { kk } else { kk + 1 };
            assert(v2.clients[kk] == v.clients[j]);
        }
    }
    lemma_client_pos(v2, c);
    if k >= 0 {
        assert forall|kk: int| 0 <= kk < v2.clients.len() implies v2.clients[kk].uuid != c by {
            let j = if kk < k { kk } else { kk + 1 };
            assert(v2.clients[kk] == v.clients[j]);
        }
    }
    assert(client_pos(v2, c) < 0);
    assert forall|a: int| 0 <= a < v2.ready.len() implies entry_ok(v2, #[trigger] v2.ready[a]) by {
        let e = v2.ready[a];
        let j = choose|j: int| 0 <= j < v.ready.len() && v.ready[j] == e;
        assert(entry_ok(v, v.ready[j]));
    }
    assert forall|a: int| 0 <= a < v2.workers.len() && (#[trigger] v2.workers[a]).job is Some
        implies job_ok(v2, v2.workers[a].job->0) by {
        assert(job_ok(v, v.workers[a].job->0));
    }
}

/// The files of a list other than `f`, in order.
pub open spec fn without(m: Seq<FileUuid>, f: FileUuid) -> Seq<FileUuid>
    decreases m.len(),
{
    if m.len() == 0 {
        m
    } else {
        without(m.drop_last(), f) + if m.last() == f { Seq::empty() } else { seq![m.last()] }
    }
}

pub proof fn lemma_without(m: Seq<FileUuid>, f: FileUuid)
    ensures
        forall|x: FileUuid| without(m, f).contains(x) <==> m.contains(x) && x != f,
    decreases m.len(),
{
    if m.len() > 0 {
        let p = m.drop_last();
        lemma_without(p, f);
        let wp = without(p, f);
        let w = without(m, f);
        assert forall|x: FileUuid| w.contains(x) implies m.contains(x) && x != f by {
            let a = choose|a: int| 0 <= a < w.len() && w[a] == x;
            if a < wp.len() {
                assert(wp[a] == x);
                assert(wp.contains(x));
                assert(p.contains(x));
                let j = choose|j: int| 0 <= j < p.len() && p[j] == x;
                assert(m[j] == x);
            } else {
                assert(m.last() != f);
                assert(w[a] == m.last());
                assert(m[m.len() - 1] == x);
            }
        }
        assert forall|x: FileUuid| m.contains(x) && x != f implies w.contains(x) by {
            let j = choose|j: int| 0 <= j < m.len() && m[j] == x;
            if j < p.len() {
                assert(p[j] == x);
                assert(p.contains(x));
                assert(wp.contains(x));
                let a = choose|a: int| 0 <= a < wp.len() && wp[a] == x;
                assert(w[a] == x);
            } else {
                assert(w[w.len() - 1] == x);
            }
        }
    }
}

/// Group `i` of client `k` gets the file `f`: if it waits for it, it stops waiting for it, and
/// it becomes ready, at the end of the queue, when it waits for nothing more.
pub open spec fn release_one(v: SchedulerView, k: int, f: FileUuid, i: int) -> SchedulerView {
    let c = v.clients[k];
    let g = group_at(c, i);
    match c.states[i] {
        GroupStatus::Waiting(m) => if depends_on(g, f) {
            if without(m, f).len() == 0 {
                SchedulerView {
                    ready: v.ready.push(ReadyExec { priority: g.priority, group: g.uuid, client: c.uuid, index: i as usize }),
                    clients: v.clients.update(k, update_state(c, i, GroupStatus::Ready)),
                    workers: v.workers,
                }
            } else {
                with_client(v, k, update_state(c, i, GroupStatus::Waiting(without(m, f))))
            }
        } else {
            v
        },
        _ => v,
    }
}

/// The groups `0..n` of client `k` get the file `f`, in order.
pub open spec fn release_upto(v: SchedulerView, k: int, f: FileUuid, n: int) -> SchedulerView
    decreases n,
{
    if n <= 0 {
        v
    } else {
        release_one(release_upto(v, k, f, n - 1), k, f, n - 1)
    }
}

/// Some group of the client needs the file.
pub open spec fn needed(c: ClientView, f: FileUuid) -> bool {
    exists|i: int| 0 <= i < c.dag.execution_groups@.len() && #[trigger] depends_on(group_at(c, i), f)
}

/// The file `f` of client `c` was produced: the client is told if it watches it; when some group
/// needs it, the groups waiting for it get it and the free workers get the ready groups.
pub open spec fn success_spec(v: SchedulerView, c: ClientUuid, f: FileUuid) -> (SchedulerView, Seq<SchedulerAction>) {
    let a1 = send_file_acts(v, c, f, true);
    let k = client_pos(v, c);
    if k < 0 || !needed(v.clients[k], f) {
        (v, a1)
    } else {
        let r = assign_spec(release_upto(v, k, f, v.clients[k].states.len() as int));
        (r.0, a1 + r.1)
    }
}

pub proof fn lemma_release_one(v: SchedulerView, k: int, f: FileUuid, i: int)
    requires
        sched_wf(v),
        0 <= k < v.clients.len(),
        0 <= i < v.clients[k].states.len(),
        v.clients[k].known.contains(f),
    ensures
        sched_wf(release_one(v, k, f, i)),
        release_one(v, k, f, i).clients.len() == v.clients.len(),
        release_one(v, k, f, i).workers == v.workers,
        release_one(v, k, f, i).clients[k].known == v.clients[k].known,
        release_one(v, k, f, i).clients[k].uuid == v.clients[k].uuid,
        release_one(v, k, f, i).clients[k].states.len() == v.clients[k].states.len(),
        release_one(v, k, f, i).clients[k].dag == v.clients[k].dag,
        release_one(v, k, f, i).clients[k].callbacks == v.clients[k].callbacks,
        keeps(v, release_one(v, k, f, i)),
{
    let c = v.clients[k];
    let g = group_at(c, i);
    assert(client_wf(c));
    assert(state_ok(c, i));
    lemma_client_pos(v, c.uuid);
    assert(client_pos(v, c.uuid) == k);
    match c.states[i] {
        GroupStatus::Waiting(m) => {
            if depends_on(g, f) {
                lemma_without(m, f);
                let m2 = without(m, f);
                let s2 = if m2.len() == 0 { GroupStatus::Ready } else { GroupStatus::Waiting(m2) };
                let c2 = update_state(c, i, s2);
                let v2 = release_one(v, k, f, i);
                assert(v2.clients == v.clients.update(k, c2));
                lemma_same_uuids(v.clients, k, c2);
                assert(forall|x: ClientUuid| client_pos(v2, x) == client_pos(v, x));
                assert forall|a: int, b: int| 0 <= a < b < v2.clients.len() implies v2.clients[a].uuid != v2.clients[b].uuid by {
                    assert(v2.clients[a].uuid == v.clients[a].uuid) by {
                        if a == k {} else {}
                    }
                    assert(v2.clients[b].uuid == v.clients[b].uuid) by {
                        if b == k {} else {}
                    }
                }
                assert forall|kk: int| 0 <= kk < v2.clients.len() implies client_wf(#[trigger] v2.clients[kk]) by {
                    assert(client_wf(v.clients[kk]));
                    if kk == k {
                        assert forall|ii: int| 0 <= ii < c2.states.len() implies #[trigger] state_ok(c2, ii) by {
                            assert(state_ok(c, ii));
                            assert(group_at(c2, ii) == group_at(c, ii));
                            if ii == i {
                                if m2.len() == 0 {
                                    assert forall|j: int, d: FileUuid| #[trigger] dep(g, j, d) implies c.known.contains(d) by {
                                        if d != f {
                                            assert(!m2.contains(d));
                                        }
                                    }
                                } else {
                                    assert forall|j: int, d: FileUuid| #[trigger] dep(g, j, d) implies m2.contains(d) || c.known.contains(d) by {
                                    }
                                }
                            } else {
                                assert(c2.states[ii] == c.states[ii]);
                            }
                        }
                    }
                }
                let e = ReadyExec { priority: g.priority, group: g.uuid, client: c.uuid, index: i as usize };
                assert forall|a: int| 0 <= a < v2.ready.len() implies entry_ok(v2, #[trigger] v2.ready[a]) by {
                    if a < v.ready.len() {
                        let ea = v.ready[a];
                        assert(v2.ready[a] == ea);
                        assert(entry_ok(v, ea));
                        lemma_client_pos(v, ea.client);
                        let ka = client_pos(v, ea.client);
                        if ka == k {
                            assert(ea.client == c.uuid);
                            if ea.index as int == i {
                                assert(c.states[i] is Ready);
                            }
                            assert(c2.states[ea.index as int] == c.states[ea.index as int]);
                        } else {
                            assert(v2.clients[ka] == v.clients[ka]);
                        }
                    } else {
                        assert(v2.ready[a] == e);
                        assert(v2.clients[k] == c2);
                    }
                }
                assert forall|a: int, b: int| 0 <= a < b < v2.ready.len() implies !same_group(v2.ready[a], v2.ready[b]) by {
                    if b == v.ready.len() {
                        let ea = v.ready[a];
                        assert(entry_ok(v, ea));
                        lemma_client_pos(v, ea.client);
                        if same_group(ea, e) {
                            assert(c.states[i] is Ready);
                        }
                    }
                }
                assert forall|a: int| 0 <= a < v2.workers.len() && (#[trigger] v2.workers[a]).job is Some
                    implies job_ok(v2, v2.workers[a].job->0) by {
                    let jb = v.workers[a].job->0;
                    assert(job_ok(v, jb));
                    lemma_client_pos(v, jb.client);
                    let kb = client_pos(v, jb.client);
                    if kb == k {
                        assert(jb.client == c.uuid);
                        if jb.index as int == i {
                            assert(c.states[i] is Running);
                        }
                        assert(c2.states[jb.index as int] == c.states[jb.index as int]);
                    } else if kb >= 0 {
                        assert(v2.clients[kb] == v.clients[kb]);
                    }
                }
            }
        },
        _ => {},
    }
}

pub proof fn lemma_release_upto(v: SchedulerView, k: int, f: FileUuid, n: int)
    requires
        sched_wf(v),
        0 <= k < v.clients.len(),
        n <= v.clients[k].states.len(),
        v.clients[k].known.contains(f),
    ensures
        sched_wf(release_upto(v, k, f, n)),
        release_upto(v, k, f, n).clients.len() == v.clients.len(),
        release_upto(v, k, f, n).workers == v.workers,
        release_upto(v, k, f, n).clients[k].known == v.clients[k].known,
        release_upto(v, k, f, n).clients[k].uuid == v.clients[k].uuid,
        release_upto(v, k, f, n).clients[k].states.len() == v.clients[k].states.len(),
        release_upto(v, k, f, n).clients[k].dag == v.clients[k].dag,
        release_upto(v, k, f, n).clients[k].callbacks == v.clients[k].callbacks,
        keeps(v, release_upto(v, k, f, n)),
    decreases n,
{
    if n > 0 {
        lemma_release_upto(v, k, f, n - 1);
        lemma_release_one(release_upto(v, k, f, n - 1), k, f, n - 1);
        lemma_keeps_trans(v, release_upto(v, k, f, n - 1), release_upto(v, k, f, n));
    }
}

/// The files of a list other than `f`.
fn without_vec(m: &Vec<FileUuid>, f: FileUuid) -> (res: Vec<FileUuid>)
    ensures
        res@ == without(m@, f),
{
    let mut res: Vec<FileUuid> = Vec::new();
    let mut i: usize = 0;
    while i < m.len()
        invariant
            i <= m@.len(),
            res@ == without(m@.take(i as int), f),
        decreases m@.len() - i,
    {
        proof {
            assert(m@.take(i + 1).drop_last() =~= m@.take(i as int));
        }
        if m[i] != f {
            res.push(m[i]);
        }
        proof {
            assert(res@ =~= without(m@.take(i + 1), f));
        }
        i += 1;
    }
    proof {
        assert(m@.take(m@.len() as int) =~= m@);
    }
    res
}

/// Some execution of the group needs the file.
fn group_needs(g: &ExecutionGroupInfo, f: FileUuid) -> (res: bool)
    ensures
        res == depends_on(*g, f),
{
    let mut j: usize = 0;
    while j < g.executions.len()
        invariant
            j <= g.executions@.len(),
            forall|jj: int| 0 <= jj < j ==> !(#[trigger] dep(*g, jj, f)),
        decreases g.executions@.len() - j,
    {
        if crate::text::vec_contains(&g.executions[j].dependencies, f) {
            assert(dep(*g, j as int, f));
            return true;
        }
        j += 1;
    }
    false
}

/// The files written by the executions, in order.
pub open spec fn exec_outputs(execs: Seq<crate::check_dag::ExecutionInfo>) -> Seq<FileUuid>
    decreases execs.len(),
{
    if execs.len() == 0 {
        Seq::empty()
    } else {
        exec_outputs(execs.drop_last()) + execs.last().outputs@
    }
}

/// The number of waiting groups.
pub open spec fn waiting_count(states: Seq<GroupStatus>) -> nat
    decreases states.len(),
{
    if states.len() == 0 {
        0
    } else {
        waiting_count(states.drop_last()) + if states.last() is Waiting { 1nat } else { 0nat }
    }
}

pub proof fn lemma_waiting_count_finish(states: Seq<GroupStatus>, i: int)
    requires
        0 <= i < states.len(),
        states[i] is Waiting,
    ensures
        waiting_count(states.update(i, GroupStatus::Finished)) + 1 == waiting_count(states),
    decreases states.len(),
{
    let s2 = states.update(i, GroupStatus::Finished);
    if i < states.len() - 1 {
        assert(s2.drop_last() =~= states.drop_last().update(i, GroupStatus::Finished));
        lemma_waiting_count_finish(states.drop_last(), i);
    } else {
        assert(s2.drop_last() =~= states.drop_last());
    }
}

/// Group `i` of client `k` is skipped when it waits for the failed file `f`: it finishes, the
/// client is told about its watched executions, and the files it would have written fail too.
pub open spec fn skip_one(v: SchedulerView, k: int, f: FileUuid, i: int) -> (SchedulerView, Seq<SchedulerAction>, Seq<FileUuid>) {
    let c = v.clients[k];
    let g = group_at(c, i);
    if c.states[i] is Waiting && depends_on(g, f) {
        (
            with_client(v, k, update_state(c, i, GroupStatus::Finished)),
            watched_acts(g.executions@, c.callbacks.executions@, ExecEvent::Skipped, c.uuid),
            exec_outputs(g.executions@),
        )
    } else {
        (v, Seq::empty(), Seq::empty())
    }
}

/// The groups `0..n` of client `k` that wait for the failed file `f` are skipped, in order.
pub open spec fn skip_upto(v: SchedulerView, k: int, f: FileUuid, n: int) -> (SchedulerView, Seq<SchedulerAction>, Seq<FileUuid>)
    decreases n,
{
    if n <= 0 {
        (v, Seq::empty(), Seq::empty())
    } else {
        let r1 = skip_upto(v, k, f, n - 1);
        let r2 = skip_one(r1.0, k, f, n - 1);
        (r2.0, r1.1 + r2.1, r1.2 + r2.2)
    }
}

pub proof fn lemma_skip_upto(v: SchedulerView, k: int, f: FileUuid, n: int)
    requires
        0 <= k < v.clients.len(),
        n <= v.clients[k].states.len(),
    ensures
        skip_upto(v, k, f, n).0.clients.len() == v.clients.len(),
        skip_upto(v, k, f, n).0.ready == v.ready,
        skip_upto(v, k, f, n).0.workers == v.workers,
        skip_upto(v, k, f, n).0.clients[k].states.len() == v.clients[k].states.len(),
        skip_upto(v, k, f, n).0.clients[k].uuid == v.clients[k].uuid,
        skip_upto(v, k, f, n).0.clients[k].dag == v.clients[k].dag,
        skip_upto(v, k, f, n).0.clients[k].callbacks == v.clients[k].callbacks,
        skip_upto(v, k, f, n).0.clients[k].known == v.clients[k].known,
        waiting_count(skip_upto(v, k, f, n).0.clients[k].states) <= waiting_count(v.clients[k].states),
        waiting_count(skip_upto(v, k, f, n).0.clients[k].states) == waiting_count(v.clients[k].states)
            ==> skip_upto(v, k, f, n).2.len() == 0,
        sched_wf(v) ==> sched_wf(skip_upto(v, k, f, n).0),
        keeps(v, skip_upto(v, k, f, n).0),
    decreases n,
{
    if n > 0 {
        lemma_skip_upto(v, k, f, n - 1);
        let v1 = skip_upto(v, k, f, n - 1).0;
        let v2 = skip_one(v1, k, f, n - 1).0;
        assert(keeps(v1, v2));
        lemma_keeps_trans(v, v1, v2);
        let c = v1.clients[k];
        let i = n - 1;
        if c.states[i] is Waiting && depends_on(group_at(c, i), f) {
            lemma_waiting_count_finish(c.states, i);
            let c2 = update_state(c, i, GroupStatus::Finished);
            assert(v2.clients == v1.clients.update(k, c2));
            if sched_wf(v) {
                lemma_same_uuids(v1.clients, k, c2);
                assert(forall|x: ClientUuid| client_pos(v2, x) == client_pos(v1, x));
                assert forall|a: int, b: int| 0 <= a < b < v2.clients.len() implies v2.clients[a].uuid != v2.clients[b].uuid by {
                    assert(v2.clients[a].uuid == v1.clients[a].uuid) by {
                        if a == k {} else {}
                    }
                    assert(v2.clients[b].uuid == v1.clients[b].uuid) by {
                        if b == k {} else {}
                    }
                }
                assert forall|kk: int| 0 <= kk < v2.clients.len() implies client_wf(#[trigger] v2.clients[kk]) by {
                    assert(client_wf(v1.clients[kk]));
                    if kk == k {
                        assert forall|ii: int| 0 <= ii < c2.states.len() implies #[trigger] state_ok(c2, ii) by {
                            assert(state_ok(c, ii));
                            assert(group_at(c2, ii) == group_at(c, ii));
                            if ii != i {
                                assert(c2.states[ii] == c.states[ii]);
                            }
                        }
                    }
                }
                lemma_client_pos(v1, c.uuid);
                assert forall|a: int| 0 <= a < v2.ready.len() implies entry_ok(v2, #[trigger] v2.ready[a]) by {
                    let ea = v1.ready[a];
                    assert(entry_ok(v1, ea));
                    lemma_client_pos(v1, ea.client);
                    let ka = client_pos(v1, ea.client);
                    if ka == k {
                        assert(ea.client == c.uuid);
                        assert(c2.states[ea.index as int] == c.states[ea.index as int]);
                    } else {
                        assert(v2.clients[ka] == v1.clients[ka]);
                    }
                }
                assert forall|a: int| 0 <= a < v2.workers.len() && (#[trigger] v2.workers[a]).job is Some
                    implies job_ok(v2, v2.workers[a].job->0) by {
                    let jb = v1.workers[a].job->0;
                    assert(job_ok(v1, jb));
                    lemma_client_pos(v1, jb.client);
                    let kb = client_pos(v1, jb.client);
                    if kb == k {
                        assert(jb.client == c.uuid);
                        assert(c2.states[jb.index as int] == c.states[jb.index as int]);
                    } else if kb >= 0 {
                        assert(v2.clients[kb] == v1.clients[kb]);
                    }
                }
            }
        }
    }
}

/// The files of the stack fail for client `k`, the top one (the last) first: the client is told
/// about a watched file, the groups waiting for it are skipped, and the files they would have
/// written go on the stack, the first on top, so that each failure is followed through before
/// the next one.
pub open spec fn fail_run(v: SchedulerView, k: int, stack: Seq<FileUuid>) -> (SchedulerView, Seq<SchedulerAction>)
    decreases (if 0 <= k < v.clients.len() { waiting_count(v.clients[k].states) } else { 0 }), stack.len(),
{
    if stack.len() == 0 || !(0 <= k < v.clients.len()) {
        (v, Seq::empty())
    } else {
        let f = stack.last();
        let a1 = send_file_acts(v, v.clients[k].uuid, f, false);
        let r = skip_upto(v, k, f, v.clients[k].states.len() as int);
        proof {
            lemma_skip_upto(v, k, f, v.clients[k].states.len() as int);
        }
        let r2 = fail_run(r.0, k, stack.drop_last() + r.2.reverse());
        (r2.0, a1 + r.1 + r2.1)
    }
}

/// The file `f` of client `c` could not be produced: it fails, and so does what depends on it.
pub open spec fn failed_spec(v: SchedulerView, c: ClientUuid, f: FileUuid) -> (SchedulerView, Seq<SchedulerAction>) {
    let k = client_pos(v, c);
    if k < 0 {
        (v, send_file_acts(v, c, f, false))
    } else {
        fail_run(v, k, seq![f])
    }
}

pub proof fn lemma_fail_run(v: SchedulerView, k: int, stack: Seq<FileUuid>)
    requires
        sched_wf(v),
        0 <= k < v.clients.len(),
    ensures
        sched_wf(fail_run(v, k, stack).0),
        fail_run(v, k, stack).0.clients.len() == v.clients.len(),
        fail_run(v, k, stack).0.clients[k].uuid == v.clients[k].uuid,
        keeps(v, fail_run(v, k, stack).0),
    decreases waiting_count(v.clients[k].states), stack.len(),
{
    if stack.len() > 0 {
        let f = stack.last();
        lemma_skip_upto(v, k, f, v.clients[k].states.len() as int);
        let r = skip_upto(v, k, f, v.clients[k].states.len() as int);
        lemma_fail_run(r.0, k, stack.drop_last() + r.2.reverse());
        lemma_keeps_trans(v, r.0, fail_run(r.0, k, stack.drop_last() + r.2.reverse()).0);
    }
}

/// Appends the files written by the executions, in order.
fn push_outputs(execs: &Vec<crate::check_dag::ExecutionInfo>, outs: &mut Vec<FileUuid>)
    ensures
        final(outs)@ == old(outs)@ + exec_outputs(execs@),
{
    let ghost o0 = outs@;
    let mut j: usize = 0;
    while j < execs.len()
        invariant
            j <= execs@.len(),
            outs@ == o0 + exec_outputs(execs@.take(j as int)),
        decreases execs@.len() - j,
    {
        let ghost oj = outs@;
        let e = &execs[j];
        let mut t: usize = 0;
        while t < e.outputs.len()
            invariant
                t <= e.outputs@.len(),
                outs@ == oj + e.outputs@.take(t as int),
            decreases e.outputs@.len() - t,
        {
            outs.push(e.outputs[t]);
            proof {
                assert(outs@ =~= oj + e.outputs@.take(t + 1));
            }
            t += 1;
        }
        proof {
            assert(e.outputs@.take(e.outputs@.len() as int) =~= e.outputs@);
            assert(execs@.take(j + 1).drop_last() =~= execs@.take(j as int));
            assert(outs@ =~= o0 + exec_outputs(execs@.take(j + 1)));
        }
        j += 1;
    }
    proof {
        assert(execs@.take(execs@.len() as int) =~= execs@);
    }
}

pub proof fn lemma_success(v: SchedulerView, c: ClientUuid, f: FileUuid)
    requires
        sched_wf(v),
        client_pos(v, c) >= 0 ==> v.clients[client_pos(v, c)].known.contains(f),
    ensures
        sched_wf(success_spec(v, c, f).0),
        keeps(v, success_spec(v, c, f).0),
{
    lemma_client_pos(v, c);
    let k = client_pos(v, c);
    if k >= 0 && needed(v.clients[k], f) {
        assert(client_wf(v.clients[k]));
        let n = v.clients[k].states.len() as int;
        lemma_release_upto(v, k, f, n);
        let v2 = release_upto(v, k, f, n);
        lemma_assign_from(v2, v2.workers.len() as int, 0);
        lemma_keeps_trans(v, v2, assign_spec(v2).0);
    }
}

pub proof fn lemma_failed(v: SchedulerView, c: ClientUuid, f: FileUuid)
    requires
        sched_wf(v),
    ensures
        sched_wf(failed_spec(v, c, f).0),
        keeps(v, failed_spec(v, c, f).0),
{
    lemma_client_pos(v, c);
    let k = client_pos(v, c);
    if k >= 0 {
        lemma_fail_run(v, k, seq![f]);
    }
}

/// The files of the list are produced for client `c`, in order.
pub open spec fn succeed_all(v: SchedulerView, c: ClientUuid, fs: Seq<FileUuid>) -> (SchedulerView, Seq<SchedulerAction>)
    decreases fs.len(),
{
    if fs.len() == 0 {
        (v, Seq::empty())
    } else {
        let r1 = succeed_all(v, c, fs.drop_last());
        let r2 = success_spec(r1.0, c, fs.last());
        (r2.0, r1.1 + r2.1)
    }
}

/// The files of the list fail for client `c`, in order.
pub open spec fn fail_all(v: SchedulerView, c: ClientUuid, fs: Seq<FileUuid>) -> (SchedulerView, Seq<SchedulerAction>)
    decreases fs.len(),
{
    if fs.len() == 0 {
        (v, Seq::empty())
    } else {
        let r1 = fail_all(v, c, fs.drop_last());
        let r2 = failed_spec(r1.0, c, fs.last());
        (r2.0, r1.1 + r2.1)
    }
}

pub proof fn lemma_succeed_all(v: SchedulerView, c: ClientUuid, fs: Seq<FileUuid>)
    requires
        sched_wf(v),
        client_pos(v, c) >= 0 ==> forall|j: int| 0 <= j < fs.len() ==> v.clients[client_pos(v, c)].known.contains(#[trigger] fs[j]),
    ensures
        sched_wf(succeed_all(v, c, fs).0),
        keeps(v, succeed_all(v, c, fs).0),
    decreases fs.len(),
{
    if fs.len() > 0 {
        lemma_succeed_all(v, c, fs.drop_last());
        let v1 = succeed_all(v, c, fs.drop_last()).0;
        lemma_keeps_pos(v, v1);
        lemma_client_pos(v, c);
        if client_pos(v, c) >= 0 {
            assert(v.clients[client_pos(v, c)].known.contains(fs[fs.len() - 1]));
        }
        lemma_success(v1, c, fs.last());
        lemma_keeps_trans(v, v1, success_spec(v1, c, fs.last()).0);
    }
}

pub proof fn lemma_fail_all(v: SchedulerView, c: ClientUuid, fs: Seq<FileUuid>)
    requires
        sched_wf(v),
    ensures
        sched_wf(fail_all(v, c, fs).0),
        keeps(v, fail_all(v, c, fs).0),
    decreases fs.len(),
{
    if fs.len() > 0 {
        lemma_fail_all(v, c, fs.drop_last());
        let v1 = fail_all(v, c, fs.drop_last()).0;
        lemma_failed(v1, c, fs.last());
        lemma_keeps_trans(v, v1, failed_spec(v1, c, fs.last()).0);
    }
}

/// Client `k` with more files in the store.
pub open spec fn add_known(v: SchedulerView, k: int, files: Seq<FileUuid>) -> SchedulerView {
    let c = v.clients[k];
    with_client(v, k, ClientView {
        uuid: c.uuid,
        name: c.name,
        dag: c.dag,
        callbacks: c.callbacks,
        states: c.states,
        known: c.known + files,
    })
}

pub proof fn lemma_add_known(v: SchedulerView, k: int, files: Seq<FileUuid>)
    requires
        sched_wf(v),
        0 <= k < v.clients.len(),
    ensures
        sched_wf(add_known(v, k, files)),
        forall|x: ClientUuid| client_pos(add_known(v, k, files), x) == client_pos(v, x),
        add_known(v, k, files).clients[k].known == v.clients[k].known + files,
{
    let c = v.clients[k];
    let v2 = add_known(v, k, files);
    let c2 = v2.clients[k];
    lemma_same_uuids(v.clients, k, c2);
    assert(forall|x: ClientUuid| client_pos(v2, x) == client_pos(v, x));
    assert forall|a: int, b: int| 0 <= a < b < v2.clients.len() implies v2.clients[a].uuid != v2.clients[b].uuid by {
        assert(v2.clients[a].uuid == v.clients[a].uuid) by {
            if a == k {} else {}
        }
        assert(v2.clients[b].uuid == v.clients[b].uuid) by {
            if b == k {} else {}
        }
    }
    assert forall|kk: int| 0 <= kk < v2.clients.len() implies client_wf(#[trigger] v2.clients[kk]) by {
        assert(client_wf(v.clients[kk]));
        if kk == k {
            assert forall|ii: int| 0 <= ii < c2.states.len() implies #[trigger] state_ok(c2, ii) by {
                assert(state_ok(c, ii));
                assert(group_at(c2, ii) == group_at(c, ii));
                assert forall|d: FileUuid| c.known.contains(d) implies c2.known.contains(d) by {
                    let j = choose|j: int| 0 <= j < c.known.len() && c.known[j] == d;
                    assert(c2.known[j] == d);
                }
            }
        }
    }
    assert forall|a: int| 0 <= a < v2.ready.len() implies entry_ok(v2, #[trigger] v2.ready[a]) by {
        let ea = v.ready[a];
        assert(entry_ok(v, ea));
        lemma_client_pos(v, ea.client);
        let ka = client_pos(v, ea.client);
        if ka != k {
            assert(v2.clients[ka] == v.clients[ka]);
        }
    }
    assert forall|a: int| 0 <= a < v2.workers.len() && (#[trigger] v2.workers[a]).job is Some
        implies job_ok(v2, v2.workers[a].job->0) by {
        let jb = v.workers[a].job->0;
        assert(job_ok(v, jb));
        lemma_client_pos(v, jb.client);
        let kb = client_pos(v, jb.client);
        if kb >= 0 && kb != k {
            assert(v2.clients[kb] == v.clients[kb]);
        }
    }
}

/// Group `i` of client `k` ran on a worker, successfully or not, and the worker sent the files
/// of `produced`: the client is told about its watched executions, the files go in the store, and
/// then the files the group writes are produced, or fail, one after the other.
pub open spec fn completed_spec(v: SchedulerView, k: int, i: int, ok: bool, produced: Seq<FileUuid>) -> (SchedulerView, Seq<SchedulerAction>) {
    let c = v.clients[k];
    let g = group_at(c, i);
    let a1 = watched_acts(g.executions@, c.callbacks.executions@, ExecEvent::Done, c.uuid);
    let v1 = add_known(v, k, produced);
    let r = if ok {
        succeed_all(v1, c.uuid, exec_outputs(g.executions@))
    } else {
        fail_all(v1, c.uuid, exec_outputs(g.executions@))
    };
    (r.0, a1 + r.1)
}

/// The worker sent every file that the group it ran writes, when it ran it successfully for a
/// client that is still there.
pub open spec fn result_complete(v: SchedulerView, w: WorkerUuid, ok: bool, produced: Seq<FileUuid>) -> bool {
    let p = worker_pos(v, w);
    p >= 0 && ok && v.workers[p].job is Some && client_pos(v, v.workers[p].job->0.client) >= 0 ==> {
        let e = v.workers[p].job->0;
        let c = v.clients[client_pos(v, e.client)];
        forall|j: int| 0 <= j < exec_outputs(group_at(c, e.index as int).executions@).len()
            ==> produced.contains(#[trigger] exec_outputs(group_at(c, e.index as int).executions@)[j])
    }
}

/// The scheduler once worker `p` answered: it is taken out of the workers, and the group it ran,
/// if its client is still there, is finished.
pub open spec fn job_finished(v: SchedulerView, p: int) -> SchedulerView {
    let v1 = SchedulerView { ready: v.ready, clients: v.clients, workers: v.workers.remove(p) };
    match v.workers[p].job {
        None => v1,
        Some(e) => {
            let k = client_pos(v, e.client);
            if k < 0 {
                v1
            } else {
                with_client(v1, k, update_state(v.clients[k], e.index as int, GroupStatus::Finished))
            }
        },
    }
}

/// Worker `w` finished its job, successfully or not, and sent the files of `produced`: it is no
/// longer free nor busy until it connects again; its group is finished, the consequences follow,
/// the free workers get the ready groups, and the client is told if its evaluation is over.
pub open spec fn result_spec(v: SchedulerView, w: WorkerUuid, ok: bool, produced: Seq<FileUuid>) -> (SchedulerView, Seq<SchedulerAction>) {
    let p = worker_pos(v, w);
    if p < 0 {
        (v, Seq::empty())
    } else {
        let v1 = job_finished(v, p);
        match v.workers[p].job {
            None => (v1, Seq::empty()),
            Some(e) => {
                let k = client_pos(v, e.client);
                if k < 0 {
                    let r = assign_spec(v1);
                    (r.0, r.1 + completion_acts(r.0, e.client))
                } else {
                    let r1 = completed_spec(v1, k, e.index as int, ok, produced);
                    let r2 = assign_spec(r1.0);
                    (r2.0, r1.1 + r2.1 + completion_acts(r2.0, e.client))
                }
            },
        }
    }
}

pub proof fn lemma_job_finished(v: SchedulerView, p: int)
    requires
        sched_wf(v),
        0 <= p < v.workers.len(),
    ensures
        sched_wf(job_finished(v, p)),
        keeps(v, job_finished(v, p)),
        job_finished(v, p).workers.len() + 1 == v.workers.len(),
{
    let v2 = job_finished(v, p);
    assert(v2.workers == v.workers.remove(p));
    assert(forall|x: ClientUuid| client_pos(v2, x) == client_pos(v, x)) by {
        match v.workers[p].job {
            Some(e) => {
                lemma_client_pos(v, e.client);
                let k = client_pos(v, e.client);
                if k >= 0 {
                    lemma_same_uuids(v.clients, k, update_state(v.clients[k], e.index as int, GroupStatus::Finished));
                }
            },
            None => {},
        }
    }
    assert forall|a: int, b: int| 0 <= a < b < v2.workers.len() implies v2.workers[a].uuid != v2.workers[b].uuid by {
        let ja = if a < p { a } else { a + 1 };
        let jb = if b < p { b } else { b + 1 };
        assert(v2.workers[a] == v.workers[ja]);
        assert(v2.workers[b] == v.workers[jb]);
    }
    assert forall|a: int, b: int| 0 <= a < v2.workers.len() && 0 <= b < v2.workers.len() && a != b
        && v2.workers[a].job is Some && v2.workers[b].job is Some
        && client_pos(v2, v2.workers[a].job->0.client) >= 0
        implies !same_group(v2.workers[a].job->0, v2.workers[b].job->0) by {
        let ja = if a < p { a } else { a + 1 };
        let jb = if b < p { b } else { b + 1 };
        assert(v2.workers[a] == v.workers[ja]);
        assert(v2.workers[b] == v.workers[jb]);
    }
    match v.workers[p].job {
        None => {
            assert forall|a: int| 0 <= a < v2.workers.len() && (#[trigger] v2.workers[a]).job is Some
                implies job_ok(v2, v2.workers[a].job->0) by {
                let ja = if a < p { a } else { a + 1 };
                assert(v2.workers[a] == v.workers[ja]);
            }
        },
        Some(e) => {
            lemma_client_pos(v, e.client);
            let k = client_pos(v, e.client);
            if k < 0 {
                assert forall|a: int| 0 <= a < v2.workers.len() && (#[trigger] v2.workers[a]).job is Some
                    implies job_ok(v2, v2.workers[a].job->0) by {
                    let ja = if a < p { a } else { a + 1 };
                    assert(v2.workers[a] == v.workers[ja]);
                }
            } else {
                let c = v.clients[k];
                let c2 = update_state(c, e.index as int, GroupStatus::Finished);
                assert(job_ok(v, e));
                lemma_same_uuids(v.clients, k, c2);
                assert(v2.clients == v.clients.update(k, c2));
                assert(forall|x: ClientUuid| client_pos(v2, x) == client_pos(v, x));
                assert forall|a: int, b: int| 0 <= a < b < v2.clients.len() implies v2.clients[a].uuid != v2.clients[b].uuid by {
                    assert(v2.clients[a].uuid == v.clients[a].uuid) by {
                        if a == k {} else {}
                    }
                    assert(v2.clients[b].uuid == v.clients[b].uuid) by {
                        if b == k {} else {}
                    }
                }
                assert forall|kk: int| 0 <= kk < v2.clients.len() implies client_wf(#[trigger] v2.clients[kk]) by {
                    assert(client_wf(v.clients[kk]));
                    if kk == k {
                        assert forall|ii: int| 0 <= ii < c2.states.len() implies #[trigger] state_ok(c2, ii) by {
                            assert(state_ok(c, ii));
                            assert(group_at(c2, ii) == group_at(c, ii));
                            if ii != e.index as int {
                                assert(c2.states[ii] == c.states[ii]);
                            }
                        }
                    }
                }
                assert forall|a: int| 0 <= a < v2.ready.len() implies entry_ok(v2, #[trigger] v2.ready[a]) by {
                    let ea = v.ready[a];
                    assert(entry_ok(v, ea));
                    lemma_client_pos(v, ea.client);
                    let ka = client_pos(v, ea.client);
                    if ka == k {
                        assert(ea.client == e.client);
                        if ea.index == e.index {
                            assert(c.states[e.index as int] is Running);
                        }
                        assert(c2.states[ea.index as int] == c.states[ea.index as int]);
                    } else {
                        assert(v2.clients[ka] == v.clients[ka]);
                    }
                }
                assert forall|a: int| 0 <= a < v2.workers.len() && (#[trigger] v2.workers[a]).job is Some
                    implies job_ok(v2, v2.workers[a].job->0) by {
                    let ja = if a < p { a } else { a + 1 };
                    assert(v2.workers[a] == v.workers[ja]);
                    let jb = v.workers[ja].job->0;
                    assert(job_ok(v, jb));
                    lemma_client_pos(v, jb.client);
                    let kb = client_pos(v, jb.client);
                    if kb == k {
                        assert(jb.client == e.client);
                        assert(!same_group(v.workers[ja].job->0, v.workers[p].job->0));
                        assert(c2.states[jb.index as int] == c.states[jb.index as int]);
                    } else if kb >= 0 {
                        assert(v2.clients[kb] == v.clients[kb]);
                    }
                }
            }
        },
    }
}

/// A file of client `c` arrived in the store: it is produced, and the client is told if its
/// evaluation is over.
pub open spec fn file_ready_spec(v: SchedulerView, c: ClientUuid, f: FileUuid) -> (SchedulerView, Seq<SchedulerAction>) {
    let k = client_pos(v, c);
    if k < 0 {
        (v, Seq::empty())
    } else {
        let r = success_spec(add_known(v, k, seq![f]), c, f);
        (r.0, r.1 + completion_acts(r.0, c))
    }
}

/// The files read by the executions, in order.
pub open spec fn exec_deps(execs: Seq<crate::check_dag::ExecutionInfo>) -> Seq<FileUuid>
    decreases execs.len(),
{
    if execs.len() == 0 {
        Seq::empty()
    } else {
        exec_deps(execs.drop_last()) + execs.last().dependencies@
    }
}

pub proof fn lemma_exec_deps(g: ExecutionGroupInfo, n: int)
    requires
        0 <= n <= g.executions@.len(),
    ensures
        forall|j: int, d: FileUuid| 0 <= j < n && #[trigger] dep(g, j, d) ==> exec_deps(g.executions@.take(n)).contains(d),
    decreases n,
{
    if n > 0 {
        lemma_exec_deps(g, n - 1);
        let t = g.executions@.take(n);
        assert(t.drop_last() =~= g.executions@.take(n - 1));
        let prev = exec_deps(g.executions@.take(n - 1));
        let last = g.executions@[n - 1].dependencies@;
        assert(exec_deps(t) == prev + last);
        assert forall|j: int, d: FileUuid| 0 <= j < n && #[trigger] dep(g, j, d) implies exec_deps(t).contains(d) by {
            if j < n - 1 {
                let a = choose|a: int| 0 <= a < prev.len() && prev[a] == d;
                assert(exec_deps(t)[a] == d);
            } else {
                let a = choose|a: int| 0 <= a < last.len() && last[a] == d;
                assert(exec_deps(t)[prev.len() + a] == d);
            }
        }
    }
}

/// Each group of a new DAG waits for all the files its executions read.
pub open spec fn initial_states(dag: ExecutionDAGData) -> Seq<GroupStatus> {
    Seq::new(dag.execution_groups@.len(), |i: int| GroupStatus::Waiting(exec_deps(dag.execution_groups@[i].executions@)))
}

/// A client with a new DAG and nothing in the store.
pub open spec fn new_client(c: ClientUuid, name: Seq<char>, dag: ExecutionDAGData, callbacks: ExecutionDAGWatchSet) -> ClientView {
    ClientView { uuid: c, name: name, dag: dag, callbacks: callbacks, states: initial_states(dag), known: Seq::empty() }
}

/// The identifier is the one of a connected client, or of the client of a job of a worker.
pub open spec fn in_use(v: SchedulerView, c: ClientUuid) -> bool {
    ||| client_pos(v, c) >= 0
    ||| exists|a: int| 0 <= a < v.workers.len() && (#[trigger] v.workers[a]).job is Some && v.workers[a].job->0.client == c
}

/// A new client asks for the evaluation of its DAG: the client is told at once if there is
/// nothing to do, and the free workers get the ready groups.
pub open spec fn evaluate_spec(v: SchedulerView, c: ClientUuid, name: Seq<char>, dag: ExecutionDAGData, callbacks: ExecutionDAGWatchSet) -> (SchedulerView, Seq<SchedulerAction>) {
    let v1 = SchedulerView { ready: v.ready, clients: v.clients.push(new_client(c, name, dag, callbacks)), workers: v.workers };
    let r = assign_spec(v1);
    (r.0, completion_acts(v1, c) + r.1)
}

pub proof fn lemma_new_client(v: SchedulerView, c: ClientUuid, name: Seq<char>, dag: ExecutionDAGData, callbacks: ExecutionDAGWatchSet)
    requires
        sched_wf(v),
        !in_use(v, c),
        dag.execution_groups@.len() <= usize::MAX,
    ensures
        sched_wf(SchedulerView { ready: v.ready, clients: v.clients.push(new_client(c, name, dag, callbacks)), workers: v.workers }),
        client_pos(SchedulerView { ready: v.ready, clients: v.clients.push(new_client(c, name, dag, callbacks)), workers: v.workers }, c) == v.clients.len(),
{
    let nc = new_client(c, name, dag, callbacks);
    let v1 = SchedulerView { ready: v.ready, clients: v.clients.push(nc), workers: v.workers };
    lemma_client_pos(v, c);
    assert forall|a: int, b: int| 0 <= a < b < v1.clients.len() implies v1.clients[a].uuid != v1.clients[b].uuid by {
        assert(v1.clients[a] == v.clients[a]);
        if b < v.clients.len() {
            assert(v1.clients[b] == v.clients[b]);
        }
    }
    assert forall|x: ClientUuid| x != c implies client_pos(v1, x) == client_pos(v, x) by {
        lemma_client_pos(v, x);
        lemma_client_pos(v1, x);
        if client_pos(v, x) >= 0 {
            assert(v1.clients[client_pos(v, x)] == v.clients[client_pos(v, x)]);
        } else {
            if client_pos(v1, x) >= 0 {
                let q = client_pos(v1, x);
                if q < v.clients.len() {
                    assert(v1.clients[q] == v.clients[q]);
                }
            }
        }
    }
    lemma_client_pos(v1, c);
    assert(v1.clients[v.clients.len() as int].uuid == c);
    assert forall|kk: int| 0 <= kk < v1.clients.len() implies client_wf(#[trigger] v1.clients[kk]) by {
        if kk < v.clients.len() {
            assert(v1.clients[kk] == v.clients[kk]);
        } else {
            assert(v1.clients[kk] == nc);
            assert forall|ii: int| 0 <= ii < nc.states.len() implies #[trigger] state_ok(nc, ii) by {
                let g = group_at(nc, ii);
                lemma_exec_deps(g, g.executions@.len() as int);
                assert(g.executions@.take(g.executions@.len() as int) =~= g.executions@);
            }
        }
    }
    assert forall|a: int| 0 <= a < v1.ready.len() implies entry_ok(v1, #[trigger] v1.ready[a]) by {
        let ea = v.ready[a];
        assert(entry_ok(v, ea));
        lemma_client_pos(v, ea.client);
        assert(ea.client != c);
        assert(v1.clients[client_pos(v, ea.client)] == v.clients[client_pos(v, ea.client)]);
    }
    assert forall|a: int| 0 <= a < v1.workers.len() && (#[trigger] v1.workers[a]).job is Some
        implies job_ok(v1, v1.workers[a].job->0) by {
        let jb = v.workers[a].job->0;
        assert(job_ok(v, jb));
        assert(jb.client != c);
        lemma_client_pos(v, jb.client);
        if client_pos(v, jb.client) >= 0 {
            assert(v1.clients[client_pos(v, jb.client)] == v.clients[client_pos(v, jb.client)]);
        }
    }
    assert forall|a: int, b: int| 0 <= a < v1.workers.len() && 0 <= b < v1.workers.len() && a != b
        && v1.workers[a].job is Some && v1.workers[b].job is Some
        && client_pos(v1, v1.workers[a].job->0.client) >= 0
        implies !same_group(v1.workers[a].job->0, v1.workers[b].job->0) by {
        assert(v1.workers[a].job->0.client != c);
    }
}

/// The number of groups in a state, ready ones when `ready` holds, waiting ones otherwise.
pub open spec fn count_state(states: Seq<GroupStatus>, ready: bool) -> nat
    decreases states.len(),
{
    if states.len() == 0 {
        0
    } else {
        count_state(states.drop_last(), ready) + if (ready && states.last() is Ready) || (!ready && states.last() is Waiting) { 1nat } else { 0nat }
    }
}

/// The number of groups in a state over all the clients.
pub open spec fn count_all(cs: Seq<ClientView>, ready: bool) -> nat
    decreases cs.len(),
{
    if cs.len() == 0 {
        0
    } else {
        count_all(cs.drop_last(), ready) + count_state(cs.last().states, ready)
    }
}

/// A count, or the greatest `usize` when it does not fit.
pub open spec fn capped(n: nat) -> int {
    if n <= usize::MAX { n as int } else { usize::MAX as int }
}

/// The job of a worker, as reported in the status of the scheduler.
#[derive(Debug, Clone)]
pub struct WorkerJobStatus {
    /// The description of the group it runs.
    pub job: String,
    /// The client of the group.
    pub client: ClientUuid,
    /// The name of the client.
    pub client_name: String,
}

/// A worker, as reported in the status of the scheduler.
#[derive(Debug, Clone)]
pub struct WorkerStatusInfo {
    pub uuid: WorkerUuid,
    pub name: String,
    /// What it runs, when it runs a group of a client still there.
    pub current_job: Option<WorkerJobStatus>,
}

/// The status of the scheduler.
#[derive(Debug, Clone)]
pub struct SchedulerStatus {
    pub connected_workers: Vec<WorkerStatusInfo>,
    /// The number of groups ready to run, over all the clients.
    pub ready_execs: usize,
    /// The number of groups waiting for some file, over all the clients.
    pub waiting_execs: usize,
}

/// The status reported for a worker.
pub open spec fn worker_status_ok(v: SchedulerView, w: WorkerView, st: WorkerStatusInfo) -> bool {
    &&& st.uuid == w.uuid
    &&& st.name@ == w.name
    &&& match w.job {
        Some(e) => if client_pos(v, e.client) >= 0 {
            let c = v.clients[client_pos(v, e.client)];
            st.current_job matches Some(js) && js.job@ == group_at(c, e.index as int).description@
                && js.client == e.client && js.client_name@ == c.name
        } else {
            st.current_job is None
        },
        None => st.current_job is None,
    }
}

/// The status of the scheduler: its workers, in order, and the number of ready and waiting
/// groups.
pub open spec fn status_ok(v: SchedulerView, st: SchedulerStatus) -> bool {
    &&& st.ready_execs == capped(count_all(v.clients, true))
    &&& st.waiting_execs == capped(count_all(v.clients, false))
    &&& st.connected_workers@.len() == v.workers.len()
    &&& forall|a: int| 0 <= a < v.workers.len() ==> worker_status_ok(v, v.workers[a], #[trigger] st.connected_workers@[a])
}

/// Appends the files read by the executions, in order.
fn push_deps(execs: &Vec<crate::check_dag::ExecutionInfo>, outs: &mut Vec<FileUuid>)
    ensures
        final(outs)@ == old(outs)@ + exec_deps(execs@),
{
    let ghost o0 = outs@;
    let mut j: usize = 0;
    while j < execs.len()
        invariant
            j <= execs@.len(),
            outs@ == o0 + exec_deps(execs@.take(j as int)),
        decreases execs@.len() - j,
    {
        let ghost oj = outs@;
        let e = &execs[j];
        let mut t: usize = 0;
        while t < e.dependencies.len()
            invariant
                t <= e.dependencies@.len(),
                outs@ == oj + e.dependencies@.take(t as int),
            decreases e.dependencies@.len() - t,
        {
            outs.push(e.dependencies[t]);
            proof {
                assert(outs@ =~= oj + e.dependencies@.take(t + 1));
            }
            t += 1;
        }
        proof {
            assert(e.dependencies@.take(e.dependencies@.len() as int) =~= e.dependencies@);
            assert(execs@.take(j + 1).drop_last() =~= execs@.take(j as int));
            assert(outs@ =~= o0 + exec_deps(execs@.take(j + 1)));
        }
        j += 1;
    }
    proof {
        assert(execs@.take(execs@.len() as int) =~= execs@);
    }
}

/// A message for the scheduler, from the executor or from the worker manager.
#[derive(Debug)]
pub enum SchedulerInMessage {
    /// A client asks for the evaluation of a DAG, with the executions and files it watches.
    EvaluateDAG { client: ClientUuid, name: String, dag: ExecutionDAGData, callbacks: ExecutionDAGWatchSet },
    /// A client went away.
    ClientDisconnected { client: ClientUuid },
    /// A file of a client is in the store.
    FileReady { client: ClientUuid, uuid: FileUuid },
    /// A worker answered, successfully or not, with the files it produced.
    WorkerResult { worker: WorkerUuid, successful: bool, outputs: Vec<FileUuid> },
    /// A worker is ready to work.
    WorkerConnected { uuid: WorkerUuid, name: String },
    /// A worker went away.
    WorkerDisconnected { uuid: WorkerUuid },
    /// A client asks for the status of the scheduler.
    Status { client: ClientUuid },
    /// The scheduler should stop.
    Exit,
}

/// What the scheduler answers to a message: the messages to send, in order, the status asked
/// by a client, and whether it stops (then the worker manager is told to stop too).
#[derive(Debug)]
pub struct SchedulerOutcome {
    pub actions: Vec<SchedulerAction>,
    pub status: Option<(ClientUuid, SchedulerStatus)>,
    pub exit: bool,
}

/// What a message needs: a new client has an identifier not in use, and a worker that ran a
/// group successfully sent all the files it writes.
pub open spec fn message_ok(v: SchedulerView, m: SchedulerInMessage) -> bool {
    match m {
        SchedulerInMessage::EvaluateDAG { client, .. } => !in_use(v, client),
        SchedulerInMessage::WorkerResult { worker, successful, outputs } => result_complete(v, worker, successful, outputs@),
        _ => true,
    }
}

/// The scheduler and the messages to send after a message, but for the status and the stop.
pub open spec fn message_spec(v: SchedulerView, m: SchedulerInMessage) -> (SchedulerView, Seq<SchedulerAction>) {
    match m {
        SchedulerInMessage::EvaluateDAG { client, name, dag, callbacks } => evaluate_spec(v, client, name@, dag, callbacks),
        SchedulerInMessage::ClientDisconnected { client } => client_disconnect_spec(v, client),
        SchedulerInMessage::FileReady { client, uuid } => file_ready_spec(v, client, uuid),
        SchedulerInMessage::WorkerResult { worker, successful, outputs } => result_spec(v, worker, successful, outputs@),
        SchedulerInMessage::WorkerConnected { uuid, name } => assign_spec(connect_spec(v, uuid, name@)),
        SchedulerInMessage::WorkerDisconnected { uuid } => (disconnect_spec(v, uuid), Seq::empty()),
        SchedulerInMessage::Status { .. } => (v, Seq::empty()),
        SchedulerInMessage::Exit => (v, Seq::empty()),
    }
}

pub proof fn lemma_assign_from_fills(v: SchedulerView, n: int, i: int)
    requires
        n == v.workers.len(),
        0 <= i <= n,
    ensures
        assign_from(v, n, i).0.workers.len() == v.workers.len(),
        forall|j: int| 0 <= j < i ==> assign_from(v, n, i).0.workers[j] == v.workers[j],
        forall|j: int| i <= j < n ==> (#[trigger] assign_from(v, n, i).0.workers[j]).job is Some
            || assign_from(v, n, i).0.ready.len() == 0,
    decreases n - i,
{
    if i < n {
        let (v1, a1, stop) = assign_step(v, i);
        if !stop {
            assert(v1.workers.len() == v.workers.len());
            assert(forall|j: int| 0 <= j < i ==> v1.workers[j] == v.workers[j]);
            lemma_assign_from_fills(v1, n, i + 1);
            assert(v1.workers[i].job is Some);
        }
    }
}

/// Once the jobs are assigned, every worker has a job, or no group is left in the queue.
pub proof fn law_assign_fills_workers(v: SchedulerView)
    ensures
        forall|j: int| 0 <= j < assign_spec(v).0.workers.len() ==> (#[trigger] assign_spec(v).0.workers[j]).job is Some
            || assign_spec(v).0.ready.len() == 0,
{
    lemma_assign_from_fills(v, v.workers.len() as int, 0);
}

/// A free worker gets a group of the highest priority in the queue, among those of equal
/// priority the greatest by group and client.
pub proof fn law_assign_takes_highest(v: SchedulerView, i: int)
    requires
        0 <= i < v.workers.len(),
        v.workers[i].job is None,
        v.ready.len() > 0,
    ensures
        assign_step(v, i).0.workers[i].job matches Some(e)
            && v.ready.contains(e)
            && forall|j: int| 0 <= j < v.ready.len() ==> !entry_lt(e, #[trigger] v.ready[j]),
        assign_step(v, i).0.workers[i].job matches Some(e)
            && forall|j: int| 0 <= j < v.ready.len() ==> (#[trigger] v.ready[j]).priority <= e.priority,
{
    lemma_max_pos(v.ready);
}

/// No group of the client waits while needing the file.
pub open spec fn none_waits_for(c: ClientView, f: FileUuid) -> bool {
    forall|i: int| 0 <= i < c.states.len() && (#[trigger] c.states[i]) is Waiting ==> !depends_on(group_at(c, i), f)
}

pub proof fn lemma_skip_upto_closed(v: SchedulerView, k: int, f: FileUuid, n: int)
    requires
        0 <= k < v.clients.len(),
        0 <= n <= v.clients[k].states.len(),
    ensures
        ({
            let r = skip_upto(v, k, f, n);
            let c0 = v.clients[k];
            let c1 = r.0.clients[k];
            &&& forall|i: int| n <= i < c0.states.len() ==> c1.states[i] == c0.states[i]
            &&& forall|i: int| 0 <= i < c0.states.len() && (#[trigger] c1.states[i]) is Waiting ==> c1.states[i] == c0.states[i]
            &&& forall|i: int| 0 <= i < n && c0.states[i] is Waiting && depends_on(group_at(c0, i), f)
                ==> !(#[trigger] c1.states[i] is Waiting)
            &&& forall|i: int, j: int| #![trigger c1.states[i], exec_outputs(group_at(c0, i).executions@)[j]] 0 <= i < c0.states.len() && c0.states[i] is Waiting && !(c1.states[i] is Waiting)
                && 0 <= j < exec_outputs(group_at(c0, i).executions@).len()
                ==> r.2.contains(exec_outputs(group_at(c0, i).executions@)[j])
        }),
    decreases n,
{
    lemma_skip_upto(v, k, f, n);
    if n > 0 {
        lemma_skip_upto_closed(v, k, f, n - 1);
        lemma_skip_upto(v, k, f, n - 1);
        let r1 = skip_upto(v, k, f, n - 1);
        let r = skip_upto(v, k, f, n);
        let c0 = v.clients[k];
        let cm = r1.0.clients[k];
        let c1 = r.0.clients[k];
        let i0 = n - 1;
        assert(cm.states[i0] == c0.states[i0]);
        assert(group_at(cm, i0) == group_at(c0, i0));
        if cm.states[i0] is Waiting && depends_on(group_at(cm, i0), f) {
            assert(c1 == update_state(cm, i0, GroupStatus::Finished));
            assert(r.2 == r1.2 + exec_outputs(group_at(cm, i0).executions@));
            assert forall|i: int, j: int| #![trigger c1.states[i], exec_outputs(group_at(c0, i).executions@)[j]] 0 <= i < c0.states.len() && c0.states[i] is Waiting && !(c1.states[i] is Waiting)
                && 0 <= j < exec_outputs(group_at(c0, i).executions@).len()
                implies r.2.contains(exec_outputs(group_at(c0, i).executions@)[j]) by {
                let o = exec_outputs(group_at(c0, i).executions@)[j];
                if i == i0 {
                    assert(r.2[r1.2.len() + j] == o);
                } else {
                    assert(c1.states[i] == cm.states[i]);
                    assert(r1.2.contains(o));
                    let t = choose|t: int| 0 <= t < r1.2.len() && r1.2[t] == o;
                    assert(r.2[t] == o);
                }
            }
            assert forall|i: int| 0 <= i < c0.states.len() && (#[trigger] c1.states[i]) is Waiting implies c1.states[i] == c0.states[i] by {
                assert(c1.states[i] == cm.states[i]);
            }
        } else {
            assert(r.0 == r1.0);
            assert(r.2 =~= r1.2);
        }
    }
}

/// The failure of the files of the stack leaves no group waiting for one of them, nor for a file
/// that a skipped group would have written; a group still waiting is as it was.
pub proof fn lemma_fail_run_closed(v: SchedulerView, k: int, stack: Seq<FileUuid>)
    requires
        0 <= k < v.clients.len(),
    ensures
        ({
            let c0 = v.clients[k];
            let c1 = fail_run(v, k, stack).0.clients[k];
            &&& c1.states.len() == c0.states.len()
            &&& c1.dag == c0.dag
            &&& forall|i: int| 0 <= i < c0.states.len() && (#[trigger] c1.states[i]) is Waiting ==> c1.states[i] == c0.states[i]
            &&& forall|t: int| 0 <= t < stack.len() ==> none_waits_for(c1, #[trigger] stack[t])
            &&& forall|i: int, j: int| #![trigger c1.states[i], exec_outputs(group_at(c0, i).executions@)[j]] 0 <= i < c0.states.len() && c0.states[i] is Waiting && !(c1.states[i] is Waiting)
                && 0 <= j < exec_outputs(group_at(c0, i).executions@).len()
                ==> none_waits_for(c1, exec_outputs(group_at(c0, i).executions@)[j])
        }),
    decreases waiting_count(v.clients[k].states), stack.len(),
{
    let c0 = v.clients[k];
    if stack.len() > 0 {
        let f = stack.last();
        let n = c0.states.len() as int;
        lemma_skip_upto(v, k, f, n);
        lemma_skip_upto_closed(v, k, f, n);
        let r = skip_upto(v, k, f, n);
        let st2 = stack.drop_last() + r.2.reverse();
        lemma_fail_run_closed(r.0, k, st2);
        let c2 = r.0.clients[k];
        let c1 = fail_run(v, k, stack).0.clients[k];
        assert(c1 == fail_run(r.0, k, st2).0.clients[k]);
        assert(forall|i: int| 0 <= i < n ==> group_at(c2, i) == group_at(c0, i));
        assert(forall|i: int| 0 <= i < n ==> group_at(c1, i) == group_at(c0, i));
        assert forall|t: int| 0 <= t < stack.len() implies none_waits_for(c1, #[trigger] stack[t]) by {
            if t == stack.len() - 1 {
                assert forall|i: int| 0 <= i < c1.states.len() && (#[trigger] c1.states[i]) is Waiting
                    implies !depends_on(group_at(c1, i), stack[t]) by {
                    assert(c2.states[i] is Waiting);
                    assert(c2.states[i] == c0.states[i]);
                }
            } else {
                assert(st2[t] == stack[t]);
            }
        }
        assert forall|i: int, j: int| #![trigger c1.states[i], exec_outputs(group_at(c0, i).executions@)[j]] 0 <= i < c0.states.len() && c0.states[i] is Waiting && !(c1.states[i] is Waiting)
            && 0 <= j < exec_outputs(group_at(c0, i).executions@).len()
            implies none_waits_for(c1, exec_outputs(group_at(c0, i).executions@)[j]) by {
            let o = exec_outputs(group_at(c0, i).executions@)[j];
            if c2.states[i] is Waiting {
                assert(c2.states[i] == c0.states[i]);
                assert(group_at(c2, i) == group_at(c0, i));
            } else {
                assert(r.2.contains(o));
                let a = choose|a: int| 0 <= a < r.2.len() && r.2[a] == o;
                let b = stack.drop_last().len() + (r.2.len() - 1 - a);
                assert(st2[b] == o);
            }
        }
    }
}

/// A file that fails makes every group waiting for it finish without running, and so on through
/// the files those groups would have written: afterwards no group of the client waits for the
/// failed file, nor for a file that a skipped group would have written.
pub proof fn law_failure_skips_dependents(v: SchedulerView, c: ClientUuid, f: FileUuid)
    requires
        client_pos(v, c) >= 0,
    ensures
        ({
            let k = client_pos(v, c);
            let c0 = v.clients[k];
            let c1 = failed_spec(v, c, f).0.clients[k];
            &&& none_waits_for(c1, f)
            &&& forall|i: int, j: int| #![trigger c1.states[i], exec_outputs(group_at(c0, i).executions@)[j]] 0 <= i < c0.states.len() && c0.states[i] is Waiting && !(c1.states[i] is Waiting)
                && 0 <= j < exec_outputs(group_at(c0, i).executions@).len()
                ==> none_waits_for(c1, exec_outputs(group_at(c0, i).executions@)[j])
        }),
{
    lemma_client_pos(v, c);
    let k = client_pos(v, c);
    lemma_fail_run_closed(v, k, seq![f]);
    assert(seq![f][0] == f);
}

/// The first entry comes before the second in the queue.
fn entry_less(a: &ReadyExec, b: &ReadyExec) -> (res: bool)
    ensures
        res == entry_lt(*a, *b),
{
    a.priority < b.priority || (a.priority == b.priority && (a.group < b.group || (a.group == b.group && a.client < b.client)))
}

/// Appends the messages about the watched executions among `execs`.
fn push_watched(
    execs: &Vec<crate::check_dag::ExecutionInfo>,
    watched: &Vec<ExecutionUuid>,
    kind: ExecEvent,
    c: ClientUuid,
    acts: &mut Vec<SchedulerAction>,
)
    ensures
        final(acts)@ == old(acts)@ + watched_acts(execs@, watched@, kind, c),
{
    let ghost a0 = acts@;
    let mut j: usize = 0;
    while j < execs.len()
        invariant
            j <= execs@.len(),
            acts@ == a0 + watched_acts(execs@.take(j as int), watched@, kind, c),
        decreases execs@.len() - j,
    {
        let x = execs[j].uuid;
        proof {
            assert(execs@.take(j + 1).drop_last() =~= execs@.take(j as int));
        }
        if crate::text::vec_contains(watched, x) {
            let act = match kind {
                ExecEvent::Started(w) => SchedulerAction::ExecutionStarted { client: c, execution: x, worker: w },
                ExecEvent::Done => SchedulerAction::ExecutionDone { client: c, execution: x },
                ExecEvent::Skipped => SchedulerAction::ExecutionSkipped { client: c, execution: x },
            };
            acts.push(act);
            proof {
                assert(acts@ =~= a0 + watched_acts(execs@.take(j + 1), watched@, kind, c));
            }
        } else {
            proof {
                assert(acts@ =~= a0 + watched_acts(execs@.take(j + 1), watched@, kind, c));
            }
        }
        j += 1;
    }
    proof {
        assert(execs@.take(execs@.len() as int) =~= execs@);
    }
}

impl Scheduler {
    /// The invariant holds.
    pub open spec fn wf(&self) -> bool {
        sched_wf(self@)
    }

    /// A scheduler with no clients, no workers and nothing to do.
    pub fn new() -> (res: Scheduler)
        ensures
            res.wf(),
            res@.ready.len() == 0,
            res@.clients.len() == 0,
            res@.workers.len() == 0,
    {
        let res = Scheduler { ready_execs: Vec::new(), clients: Vec::new(), connected_workers: Vec::new() };
        assert(res@.clients =~= Seq::<ClientView>::empty());
        assert(res@.workers =~= Seq::<WorkerView>::empty());
        res
    }


    /// Puts group `i` of client `k` in state `st`.
    fn set_state(&mut self, k: usize, i: usize, st: GroupState)
        requires
            k < old(self)@.clients.len(),
            i < old(self)@.clients[k as int].states.len(),
        ensures
            final(self)@ == with_client(old(self)@, k as int, update_state(old(self)@.clients[k as int], i as int, st@)),
    {
        let ghost v0 = self@;
        let ghost sv = st@;
        let mut cl = self.clients.remove(k);
        proof {
            assert(cl@ == v0.clients[k as int]);
        }
        cl.states.set(i, st);
        proof {
            assert(cl@.states =~= v0.clients[k as int].states.update(i as int, sv));
        }
        let ghost clv = cl@;
        self.clients.insert(k, cl);
        proof {
            assert(self@.clients =~= v0.clients.update(k as int, clv));
        }
    }

    /// Gives worker `i` the job `e`.
    fn set_job(&mut self, i: usize, e: ReadyExec)
        requires
            i < old(self)@.workers.len(),
        ensures
            final(self)@ == (SchedulerView {
                ready: old(self)@.ready,
                clients: old(self)@.clients,
                workers: old(self)@.workers.update(i as int, WorkerView {
                    uuid: old(self)@.workers[i as int].uuid,
                    name: old(self)@.workers[i as int].name,
                    job: Some(e),
                }),
            }),
    {
        let ghost v0 = self@;
        let mut w = self.connected_workers.remove(i);
        w.current_job = Some(e);
        let ghost wv = w@;
        self.connected_workers.insert(i, w);
        proof {
            assert(self@.workers =~= v0.workers.update(i as int, wv));
        }
    }

    /// Takes the first greatest entry out of the queue.
    fn pop_max(&mut self) -> (res: ReadyExec)
        requires
            old(self)@.ready.len() > 0,
        ensures
            res == old(self)@.ready[max_pos(old(self)@.ready)],
            final(self)@ == (SchedulerView {
                ready: old(self)@.ready.remove(max_pos(old(self)@.ready)),
                clients: old(self)@.clients,
                workers: old(self)@.workers,
            }),
    {
        let ghost q = self.ready_execs@;
        let mut best: usize = 0;
        let mut i: usize = 1;
        proof {
            lemma_max_pos(q.take(1));
        }
        while i < self.ready_execs.len()
            invariant
                1 <= i <= q.len(),
                self.ready_execs@ == q,
                best as int == max_pos(q.take(i as int)),
                best < i,
            decreases q.len() - i,
        {
            proof {
                assert(q.take(i + 1).drop_last() =~= q.take(i as int));
                lemma_max_pos(q.take(i as int));
            }
            if entry_less(&self.ready_execs[best], &self.ready_execs[i]) {
                best = i;
            }
            i += 1;
        }
        proof {
            assert(q.take(q.len() as int) =~= q);
        }
        self.ready_execs.remove(best)
    }

    /// Sends a file to its client, if the client watches it and it is in the store.
    fn send_file(&self, c: ClientUuid, f: FileUuid, ok: bool, acts: &mut Vec<SchedulerAction>)
        ensures
            final(acts)@ == old(acts)@ + send_file_acts(self@, c, f, ok),
    {
        match self.find_client(c) {
            None => {
                assert(send_file_acts(self@, c, f, ok) =~= Seq::<SchedulerAction>::empty());
                assert(acts@ =~= acts@ + Seq::<SchedulerAction>::empty());
            },
            Some(k) => {
                let cl = &self.clients[k];
                assert(cl@ == self@.clients[k as int]);
                if crate::text::vec_contains(&cl.callbacks.files, f) && crate::text::vec_contains(&cl.known_files, f) {
                    let urgent = crate::text::vec_contains(&cl.callbacks.urgent_files, f);
                    acts.push(SchedulerAction::FileReady { client: c, file: f, successful: ok, urgent });
                } else {
                    assert(acts@ =~= acts@ + Seq::<SchedulerAction>::empty());
                }
            },
        }
    }

    /// Tells a client that its evaluation is over, when it is.
    fn check_completion(&self, c: ClientUuid, acts: &mut Vec<SchedulerAction>)
        ensures
            final(acts)@ == old(acts)@ + completion_acts(self@, c),
    {
        match self.find_client(c) {
            None => {
                assert(acts@ =~= acts@ + Seq::<SchedulerAction>::empty());
            },
            Some(k) => {
                let cl = &self.clients[k];
                assert(cl@ == self@.clients[k as int]);
                let mut done = true;
                let mut i: usize = 0;
                while i < cl.states.len()
                    invariant
                        i <= cl.states@.len(),
                        cl@ == self@.clients[k as int],
                        cl@.states.len() == cl.states@.len(),
                        done <==> forall|j: int| 0 <= j < i ==> cl@.states[j] is Finished,
                    decreases cl.states@.len() - i,
                {
                    assert(cl@.states[i as int] == cl.states@[i as int]@);
                    match &cl.states[i] {
                        GroupState::Finished => {},
                        _ => {
                            done = false;
                        },
                    }
                    i += 1;
                }
                if done {
                    acts.push(SchedulerAction::EvaluationDone { client: c });
                } else {
                    assert(acts@ =~= acts@ + Seq::<SchedulerAction>::empty());
                }
            },
        }
    }

    /// Looks for the ready groups whose result is in the cache. The cache of the executions is
    /// not used, so the queue keeps, in its order, the groups whose client is still connected,
    /// and drops the others; while the invariant holds, that is every group of the queue.
    fn schedule_cached(&mut self)
        ensures
            final(self)@.ready == old(self)@.ready.filter(|e: ReadyExec| client_pos(old(self)@, e.client) >= 0),
            final(self)@.clients == old(self)@.clients,
            final(self)@.workers == old(self)@.workers,
            old(self).wf() ==> final(self)@ == old(self)@,
    {
        let ghost v0 = self@;
        let ghost keep = |e: ReadyExec| client_pos(v0, e.client) >= 0;
        let mut kept: Vec<ReadyExec> = Vec::new();
        let mut i: usize = 0;
        proof {
            reveal(Seq::filter);
            assert(v0.ready.take(0).filter(keep) =~= Seq::<ReadyExec>::empty());
        }
        while i < self.ready_execs.len()
            invariant
                self@ == v0,
                keep == (|e: ReadyExec| client_pos(v0, e.client) >= 0),
                i <= v0.ready.len(),
                kept@ == v0.ready.take(i as int).filter(keep),
                sched_wf(v0) ==> kept@ == v0.ready.take(i as int),
            decreases v0.ready.len() - i,
        {
            let e = self.ready_execs[i];
            let ghost f = v0.ready.take(i as int).filter(keep);
            proof {
                reveal(Seq::filter);
                assert(v0.ready.take(i + 1).drop_last() =~= v0.ready.take(i as int));
                assert(v0.ready.take(i + 1).last() == e);
                assert(v0.ready.take(i + 1).filter(keep) == if keep(e) { f.push(e) } else { f });
                if sched_wf(v0) {
                    assert(entry_ok(v0, v0.ready[i as int]));
                }
            }
            match self.find_client(e.client) {
                Some(_) => {
                    kept.push(e);
                },
                None => {},
            }
            proof {
                assert(kept@ == v0.ready.take(i + 1).filter(keep));
                if sched_wf(v0) {
                    assert(kept@ =~= v0.ready.take(i + 1));
                }
            }
            i += 1;
        }
        proof {
            assert(v0.ready.take(v0.ready.len() as int) =~= v0.ready);
        }
        self.ready_execs = kept;
        proof {
            assert(self@.clients == v0.clients);
            assert(self@.workers == v0.workers);
        }
    }

    /// Gives a job to each free worker, taking the ready groups by priority.
    fn assign_jobs(&mut self, acts: &mut Vec<SchedulerAction>)
        requires
            old(self).wf(),
        ensures
            final(self).wf(),
            final(self)@ == assign_spec(old(self)@).0,
            final(acts)@ == old(acts)@ + assign_spec(old(self)@).1,
    {
        let ghost v0 = self@;
        let ghost a0 = acts@;
        let n = self.connected_workers.len();
        let mut i: usize = 0;
        let mut stop = false;
        while i < n && !stop
            invariant
                self.wf(),
                i <= n,
                n == self@.workers.len(),
                n == v0.workers.len(),
                !stop ==> assign_from(self@, n as int, i as int).0 == assign_spec(v0).0,
                !stop ==> acts@ + assign_from(self@, n as int, i as int).1 == a0 + assign_spec(v0).1,
                stop ==> self@ == assign_spec(v0).0 && acts@ == a0 + assign_spec(v0).1,
            decreases (n - i) as int + if stop { 0int } else { 1int },
        {
            let ghost vi = self@;
            let ghost ai = acts@;
            proof {
                lemma_assign_step(vi, i as int);
            }
            assert(self.connected_workers@[i as int]@ == vi.workers[i as int]);
            if self.connected_workers[i].current_job.is_some() {
                assert(assign_step(vi, i as int).1 =~= Seq::<SchedulerAction>::empty());
                i += 1;
            } else if self.ready_execs.len() == 0 {
                assert(acts@ =~= acts@ + Seq::<SchedulerAction>::empty());
                stop = true;
            } else {
                let wid = self.connected_workers[i].uuid;
                let e = self.pop_max();
                self.set_job(i, e);
                proof {
                    lemma_max_pos(vi.ready);
                    assert(entry_ok(vi, e));
                    lemma_client_pos(vi, e.client);
                }
                match self.find_client(e.client) {
                    None => {},
                    Some(k) => {
                        self.set_state(k, e.index, GroupState::Running);
                        acts.push(SchedulerAction::WorkerJob { worker: wid, client: e.client, group: e.group });
                        let cl = &self.clients[k];
                        assert(cl@ == self@.clients[k as int]);
                        push_watched(&cl.dag.execution_groups[e.index].executions, &cl.callbacks.executions,
                            ExecEvent::Started(wid), e.client, acts);
                    },
                }
                proof {
                    assert(self@ == assign_step(vi, i as int).0);
                    assert(acts@ =~= ai + assign_step(vi, i as int).1);
                }
                i += 1;
            }
        }
    }


    /// A worker connected: it is free, and the free workers get the ready groups.
    pub fn handle_worker_connected(&mut self, w: WorkerUuid, name: String, acts: &mut Vec<SchedulerAction>)
        requires
            old(self).wf(),
        ensures
            final(self).wf(),
            final(self)@ == assign_spec(connect_spec(old(self)@, w, name@)).0,
            final(acts)@ == old(acts)@ + assign_spec(connect_spec(old(self)@, w, name@)).1,
    {
        let ghost v0 = self@;
        let ghost nv = name@;
        let worker = ConnectedWorker { uuid: w, name, current_job: None };
        let ghost wv = worker@;
        match self.find_worker(w) {
            Some(p) => {
                self.connected_workers.remove(p);
                self.connected_workers.insert(p, worker);
                proof {
                    assert(self@.workers =~= v0.workers.update(p as int, wv));
                }
            },
            None => {
                self.connected_workers.push(worker);
                proof {
                    assert(self@.workers =~= v0.workers.push(wv));
                }
            },
        }
        proof {
            assert(self@ == connect_spec(v0, w, nv));
            lemma_connect(v0, w, nv);
        }
        self.assign_jobs(acts);
    }

    /// A worker went away: its job, if its client is still there, waits for another worker.
    pub fn handle_worker_disconnected(&mut self, w: WorkerUuid)
        requires
            old(self).wf(),
        ensures
            final(self).wf(),
            final(self)@ == disconnect_spec(old(self)@, w),
    {
        let ghost v0 = self@;
        proof {
            lemma_disconnect(v0, w);
            lemma_worker_pos(v0, w);
        }
        match self.find_worker(w) {
            None => {},
            Some(p) => {
                let worker = self.connected_workers.remove(p);
                proof {
                    assert(self@.workers =~= v0.workers.remove(p as int));
                    assert(worker@ == v0.workers[p as int]);
                }
                match worker.current_job {
                    None => {},
                    Some(e) => {
                        proof {
                            assert(job_ok(v0, e));
                            lemma_client_pos(v0, e.client);
                        }
                        match self.find_client(e.client) {
                            None => {},
                            Some(k) => {
                                self.ready_execs.push(e);
                                self.set_state(k, e.index, GroupState::Ready);
                            },
                        }
                    },
                }
            },
        }
        proof {
            assert(self@ == disconnect_spec(v0, w));
        }
    }

    /// A client went away: its groups leave the queue, and the workers running them are told to
    /// stop.
    pub fn handle_client_disconnected(&mut self, c: ClientUuid, acts: &mut Vec<SchedulerAction>)
        requires
            old(self).wf(),
        ensures
            final(self).wf(),
            final(self)@ == client_disconnect_spec(old(self)@, c).0,
            final(acts)@ == old(acts)@ + client_disconnect_spec(old(self)@, c).1,
    {
        let ghost v0 = self@;
        let ghost a0 = acts@;
        proof {
            lemma_client_disconnect(v0, c);
            lemma_client_pos(v0, c);
        }
        match self.find_client(c) {
            Some(k) => {
                self.clients.remove(k);
                proof {
                    assert(self@.clients =~= v0.clients.remove(k as int));
                }
            },
            None => {},
        }
        let ghost v1 = self@;
        proof {
            lemma_client_pos(v1, c);
            if client_pos(v0, c) >= 0 {
                assert forall|kk: int| 0 <= kk < v1.clients.len() implies v1.clients[kk].uuid != c by {
                    let k = client_pos(v0, c);
                    let j = if kk < k { kk } else { kk + 1 };
                    assert(v1.clients[kk] == v0.clients[j]);
                }
            }
            assert forall|x: ClientUuid| x != c implies (client_pos(v0, x) >= 0 ==> client_pos(v1, x) >= 0) by {
                if client_pos(v0, c) >= 0 {
                    lemma_remove_client(v0, client_pos(v0, c), x);
                } else {
                    assert(v1.clients == v0.clients);
                }
            }
        }
        // keep the entries of the clients still connected
        let mut kept: Vec<ReadyExec> = Vec::new();
        let mut i: usize = 0;
        while i < self.ready_execs.len()
            invariant
                self@ == v1,
                sched_wf(v0),
                v1.ready == v0.ready,
                v1.workers == v0.workers,
                client_pos(v1, c) < 0,
                forall|x: ClientUuid| x != c ==> (client_pos(v0, x) >= 0 ==> client_pos(v1, x) >= 0),
                i <= v0.ready.len(),
                kept@ == drop_client_entries(v0.ready.take(i as int), c),
            decreases v0.ready.len() - i,
        {
            let e = self.ready_execs[i];
            proof {
                assert(entry_ok(v0, v0.ready[i as int]));
                assert(v0.ready.take(i + 1).drop_last() =~= v0.ready.take(i as int));
            }
            match self.find_client(e.client) {
                Some(_) => {
                    kept.push(e);
                },
                None => {},
            }
            proof {
                assert(kept@ =~= drop_client_entries(v0.ready.take(i + 1), c));
            }
            i += 1;
        }
        proof {
            assert(v0.ready.take(v0.ready.len() as int) =~= v0.ready);
        }
        self.ready_execs = kept;
        // stop the jobs of the client
        let mut j: usize = 0;
        while j < self.connected_workers.len()
            invariant
                self@.workers == v0.workers,
                j <= v0.workers.len(),
                acts@ == a0 + stop_acts(v0.workers.take(j as int), c),
            decreases v0.workers.len() - j,
        {
            proof {
                assert(v0.workers.take(j + 1).drop_last() =~= v0.workers.take(j as int));
                assert(self.connected_workers@[j as int]@ == v0.workers[j as int]);
            }
            match self.connected_workers[j].current_job {
                Some(e) => {
                    if e.client == c {
                        acts.push(SchedulerAction::StopWorkerJob { worker: self.connected_workers[j].uuid, group: e.group });
                    }
                },
                None => {},
            }
            proof {
                assert(acts@ =~= a0 + stop_acts(v0.workers.take(j + 1), c));
            }
            j += 1;
        }
        proof {
            assert(v0.workers.take(v0.workers.len() as int) =~= v0.workers);
            assert(self@ == client_disconnect_spec(v0, c).0);
        }
    }


    /// A file of client `c` was produced, and it is in the store: the client is told if it
    /// watches it; when some group needs it, the groups waiting for it get it and the free
    /// workers get the ready groups.
    fn file_success(&mut self, c: ClientUuid, f: FileUuid, acts: &mut Vec<SchedulerAction>)
        requires
            old(self).wf(),
            client_pos(old(self)@, c) >= 0 ==> old(self)@.clients[client_pos(old(self)@, c)].known.contains(f),
        ensures
            final(self).wf(),
            final(self)@ == success_spec(old(self)@, c, f).0,
            final(acts)@ == old(acts)@ + success_spec(old(self)@, c, f).1,
    {
        let ghost v0 = self@;
        let ghost a0 = acts@;
        self.send_file(c, f, true, acts);
        let k = match self.find_client(c) {
            None => {
                return;
            },
            Some(k) => k,
        };
        proof {
            lemma_client_pos(v0, c);
            assert(client_wf(v0.clients[k as int]));
        }
        let n = self.clients[k].states.len();
        assert(self.clients@[k as int]@ == v0.clients[k as int]);
        let mut any = false;
        let mut i: usize = 0;
        while i < n
            invariant
                self@ == v0,
                k < v0.clients.len(),
                self.clients@[k as int]@ == v0.clients[k as int],
                n == v0.clients[k as int].states.len(),
                n == v0.clients[k as int].dag.execution_groups@.len(),
                i <= n,
                any <==> exists|ii: int| 0 <= ii < i && #[trigger] depends_on(group_at(v0.clients[k as int], ii), f),
            decreases n - i,
        {
            assert(self.clients@[k as int].dag.execution_groups@[i as int] == group_at(v0.clients[k as int], i as int));
            if group_needs(&self.clients[k].dag.execution_groups[i], f) {
                any = true;
            }
            i += 1;
        }
        if !any {
            return;
        }
        let ghost at1 = acts@;
        i = 0;
        while i < n
            invariant
                k < v0.clients.len(),
                sched_wf(v0),
                v0.clients[k as int].known.contains(f),
                v0.clients[k as int].uuid == c,
                n == v0.clients[k as int].states.len(),
                i <= n,
                self@ == release_upto(v0, k as int, f, i as int),
                self.wf(),
            decreases n - i,
        {
            let ghost vi = self@;
            proof {
                lemma_release_upto(v0, k as int, f, i as int);
                lemma_release_one(vi, k as int, f, i as int);
                lemma_client_pos(vi, c);
            }
            assert(self.clients@[k as int]@ == vi.clients[k as int]);
            assert(self.clients@[k as int].dag.execution_groups@[i as int] == group_at(vi.clients[k as int], i as int));
            let needs = group_needs(&self.clients[k].dag.execution_groups[i], f);
            let next: Option<Vec<FileUuid>> = if needs {
                match &self.clients[k].states[i] {
                    GroupState::Waiting(m) => Some(without_vec(m, f)),
                    _ => None,
                }
            } else {
                None
            };
            proof {
                assert(vi.clients[k as int].states[i as int] == self.clients@[k as int].states@[i as int]@);
            }
            match next {
                None => {},
                Some(m2) => {
                    assert(needs);
                    assert(vi.clients[k as int].states[i as int] is Waiting);
                    assert(m2@ == without(vi.clients[k as int].states[i as int]->0, f));
                    if m2.len() == 0 {
                        let g = &self.clients[k].dag.execution_groups[i];
                        let e = ReadyExec { priority: g.priority, group: g.uuid, client: c, index: i };
                        assert(e == (ReadyExec { priority: group_at(vi.clients[k as int], i as int).priority, group: group_at(vi.clients[k as int], i as int).uuid, client: vi.clients[k as int].uuid, index: (i as int) as usize }));
                        self.ready_execs.push(e);
                        self.set_state(k, i, GroupState::Ready);
                        assert(self@.ready == vi.ready.push(e));
                        assert(self@.clients == vi.clients.update(k as int, update_state(vi.clients[k as int], i as int, GroupStatus::Ready)));
                        assert(self@.workers == vi.workers);
                    } else {
                        self.set_state(k, i, GroupState::Waiting(m2));
                    }
                },
            }
            proof {
                assert(self@ == release_one(vi, k as int, f, i as int));
            }
            i += 1;
        }
        self.schedule_cached();
        self.assign_jobs(acts);
    }


    /// A file of client `c` could not be produced: the client is told if it watches it, the
    /// groups waiting for it are skipped, and the files they would have written fail in turn.
    fn file_failed(&mut self, c: ClientUuid, f: FileUuid, acts: &mut Vec<SchedulerAction>)
        requires
            old(self).wf(),
        ensures
            final(self).wf(),
            final(self)@ == failed_spec(old(self)@, c, f).0,
            final(acts)@ == old(acts)@ + failed_spec(old(self)@, c, f).1,
    {
        let ghost v0 = self@;
        let ghost a0 = acts@;
        let k = match self.find_client(c) {
            None => {
                self.send_file(c, f, false, acts);
                return;
            },
            Some(k) => k,
        };
        proof {
            lemma_client_pos(v0, c);
        }
        let mut stack: Vec<FileUuid> = Vec::new();
        stack.push(f);
        proof {
            assert(stack@ =~= seq![f]);
        }
        while stack.len() > 0
            invariant
                self.wf(),
                k < self@.clients.len(),
                self@.clients[k as int].uuid == c,
                fail_run(self@, k as int, stack@).0 == fail_run(v0, k as int, seq![f]).0,
                acts@ + fail_run(self@, k as int, stack@).1 == a0 + fail_run(v0, k as int, seq![f]).1,
            decreases waiting_count(self@.clients[k as int].states), stack@.len(),
        {
            let ghost vi = self@;
            let ghost ai = acts@;
            let ghost si = stack@;
            let g = stack.pop().unwrap();
            self.send_file(c, g, false, acts);
            let ghost a1 = acts@;
            proof {
                lemma_skip_upto(vi, k as int, g, vi.clients[k as int].states.len() as int);
                assert(client_wf(vi.clients[k as int]));
            }
            assert(self.clients@[k as int]@ == vi.clients[k as int]);
            let n = self.clients[k].states.len();
            let mut outs: Vec<FileUuid> = Vec::new();
            let mut i: usize = 0;
            while i < n
                invariant
                    k < vi.clients.len(),
                    sched_wf(vi),
                    vi.clients[k as int].uuid == c,
                    n == vi.clients[k as int].states.len(),
                    i <= n,
                    self@ == skip_upto(vi, k as int, g, i as int).0,
                    acts@ == a1 + skip_upto(vi, k as int, g, i as int).1,
                    outs@ == skip_upto(vi, k as int, g, i as int).2,
                    self.wf(),
                decreases n - i,
            {
                let ghost vj = self@;
                let ghost aj = acts@;
                let ghost oj = outs@;
                proof {
                    lemma_skip_upto(vi, k as int, g, i as int);
                    lemma_skip_upto(vi, k as int, g, i + 1);
                }
                assert(self.clients@[k as int]@ == vj.clients[k as int]);
                assert(self.clients@[k as int].dag.execution_groups@[i as int] == group_at(vj.clients[k as int], i as int));
                assert(vj.clients[k as int].states[i as int] == self.clients@[k as int].states@[i as int]@);
                let skip = match &self.clients[k].states[i] {
                    GroupState::Waiting(_) => group_needs(&self.clients[k].dag.execution_groups[i], g),
                    _ => false,
                };
                if skip {
                    self.set_state(k, i, GroupState::Finished);
                    let cl = &self.clients[k];
                    assert(cl@ == self@.clients[k as int]);
                    assert(cl.dag.execution_groups@[i as int] == group_at(vj.clients[k as int], i as int));
                    push_watched(&cl.dag.execution_groups[i].executions, &cl.callbacks.executions,
                        ExecEvent::Skipped, c, acts);
                    push_outputs(&cl.dag.execution_groups[i].executions, &mut outs);
                }
                proof {
                    assert(self@ == skip_one(vj, k as int, g, i as int).0);
                    assert(acts@ =~= aj + skip_one(vj, k as int, g, i as int).1);
                    assert(outs@ =~= oj + skip_one(vj, k as int, g, i as int).2);
                }
                i += 1;
            }
            let ghost r = skip_upto(vi, k as int, g, n as int);
            let mut j = outs.len();
            while j > 0
                invariant
                    j <= outs@.len(),
                    outs@ == r.2,
                    stack@ == si.drop_last() + outs@.subrange(j as int, outs@.len() as int).reverse(),
                decreases j,
            {
                j -= 1;
                stack.push(outs[j]);
                proof {
                    assert(stack@ =~= si.drop_last() + outs@.subrange(j as int, outs@.len() as int).reverse());
                }
            }
            proof {
                assert(outs@.subrange(0, outs@.len() as int) =~= outs@);
                assert(stack@ == si.drop_last() + r.2.reverse());
                assert(acts@ == a1 + r.1);
            }
        }
        proof {
            assert(failed_spec(v0, c, f) == fail_run(v0, k as int, seq![f]));
        }
    }


    /// Client `k` has more files in the store.
    fn add_known_files(&mut self, k: usize, files: &Vec<FileUuid>)
        requires
            k < old(self)@.clients.len(),
        ensures
            final(self)@ == add_known(old(self)@, k as int, files@),
    {
        let ghost v0 = self@;
        let mut cl = self.clients.remove(k);
        proof {
            assert(cl@ == v0.clients[k as int]);
        }
        let ghost kn0 = cl.known_files@;
        let mut i: usize = 0;
        while i < files.len()
            invariant
                i <= files@.len(),
                cl.known_files@ == kn0 + files@.take(i as int),
                cl.uuid == v0.clients[k as int].uuid,
                cl.name@ == v0.clients[k as int].name,
                cl.dag == v0.clients[k as int].dag,
                cl.callbacks == v0.clients[k as int].callbacks,
                cl.states@.map_values(|s: GroupState| s@) == v0.clients[k as int].states,
            decreases files@.len() - i,
        {
            cl.known_files.push(files[i]);
            proof {
                assert(cl.known_files@ =~= kn0 + files@.take(i + 1));
            }
            i += 1;
        }
        proof {
            assert(files@.take(files@.len() as int) =~= files@);
        }
        let ghost clv = cl@;
        self.clients.insert(k, cl);
        proof {
            assert(self@.clients =~= v0.clients.update(k as int, clv));
        }
    }

    /// Group `i` of client `k` ran, successfully or not, and the worker sent the files of
    /// `produced`.
    #[verifier::spinoff_prover]
    #[verifier::rlimit(40)]
    fn exec_completed(&mut self, k: usize, i: usize, ok: bool, produced: &Vec<FileUuid>, acts: &mut Vec<SchedulerAction>)
        requires
            old(self).wf(),
            k < old(self)@.clients.len(),
            i < old(self)@.clients[k as int].states.len(),
            ok ==> forall|j: int| 0 <= j < exec_outputs(group_at(old(self)@.clients[k as int], i as int).executions@).len()
                ==> produced@.contains(#[trigger] exec_outputs(group_at(old(self)@.clients[k as int], i as int).executions@)[j]),
        ensures
            final(self).wf(),
            final(self)@ == completed_spec(old(self)@, k as int, i as int, ok, produced@).0,
            final(acts)@ == old(acts)@ + completed_spec(old(self)@, k as int, i as int, ok, produced@).1,
    {
        let ghost v0 = self@;
        let ghost a0 = acts@;
        let c = self.clients[k].uuid;
        assert(self.clients@[k as int]@ == v0.clients[k as int]);
        proof {
            lemma_client_pos(v0, c);
            assert(client_wf(v0.clients[k as int]));
        }
        {
            let cl = &self.clients[k];
            push_watched(&cl.dag.execution_groups[i].executions, &cl.callbacks.executions, ExecEvent::Done, c, acts);
        }
        let ghost a1 = acts@;
        self.add_known_files(k, produced);
        let ghost v1 = self@;
        proof {
            lemma_add_known(v0, k as int, produced@);
        }
        let mut outs: Vec<FileUuid> = Vec::new();
        {
            let cl = &self.clients[k];
            assert(cl@ == v1.clients[k as int]);
            push_outputs(&cl.dag.execution_groups[i].executions, &mut outs);
        }
        let ghost os = outs@;
        assert(os == exec_outputs(group_at(v0.clients[k as int], i as int).executions@));
        proof {
            assert forall|j: int| 0 <= j < os.len() && ok implies v1.clients[k as int].known.contains(#[trigger] os[j]) by {
                assert(produced@.contains(os[j]));
                let t = choose|t: int| 0 <= t < produced@.len() && produced@[t] == os[j];
                assert(v1.clients[k as int].known[v0.clients[k as int].known.len() + t] == os[j]);
            }
            lemma_client_pos(v1, c);
        }
        let mut j: usize = 0;
        while j < outs.len()
            invariant
                sched_wf(v1),
                k < v1.clients.len(),
                v1.clients[k as int].uuid == c,
                client_pos(v1, c) == k,
                outs@ == os,
                j <= os.len(),
                ok ==> forall|t: int| 0 <= t < os.len() ==> v1.clients[k as int].known.contains(#[trigger] os[t]),
                ok ==> self@ == succeed_all(v1, c, os.take(j as int)).0,
                ok ==> acts@ == a1 + succeed_all(v1, c, os.take(j as int)).1,
                !ok ==> self@ == fail_all(v1, c, os.take(j as int)).0,
                !ok ==> acts@ == a1 + fail_all(v1, c, os.take(j as int)).1,
                self.wf(),
            decreases os.len() - j,
        {
            let f = outs[j];
            let ghost vj = self@;
            proof {
                assert(os.take(j + 1).drop_last() =~= os.take(j as int));
            }
            if ok {
                proof {
                    lemma_succeed_all(v1, c, os.take(j as int));
                    lemma_keeps_pos(v1, vj);
                    assert(os[j as int] == f);
                }
                self.file_success(c, f, acts);
            } else {
                self.file_failed(c, f, acts);
            }
            j += 1;
        }
        proof {
            assert(os.take(os.len() as int) =~= os);
        }
        self.schedule_cached();
    }

    /// Worker `w` answered, successfully or not, having produced the files of `produced`.
    pub fn handle_worker_result(&mut self, w: WorkerUuid, ok: bool, produced: Vec<FileUuid>, acts: &mut Vec<SchedulerAction>)
        requires
            old(self).wf(),
            result_complete(old(self)@, w, ok, produced@),
        ensures
            final(self).wf(),
            final(self)@ == result_spec(old(self)@, w, ok, produced@).0,
            final(acts)@ == old(acts)@ + result_spec(old(self)@, w, ok, produced@).1,
    {
        let ghost v0 = self@;
        let p = match self.find_worker(w) {
            None => {
                return;
            },
            Some(p) => p,
        };
        proof {
            lemma_worker_pos(v0, w);
            lemma_job_finished(v0, p as int);
        }
        let worker = self.connected_workers.remove(p);
        proof {
            assert(self@.workers =~= v0.workers.remove(p as int));
            assert(worker@ == v0.workers[p as int]);
        }
        let e = match worker.current_job {
            None => {
                return;
            },
            Some(e) => e,
        };
        proof {
            lemma_client_pos(v0, e.client);
            assert(job_ok(v0, e));
        }
        match self.find_client(e.client) {
            None => {
                self.assign_jobs(acts);
                self.check_completion(e.client, acts);
            },
            Some(k) => {
                self.set_state(k, e.index, GroupState::Finished);
                assert(self@ == job_finished(v0, p as int));
                proof {
                    lemma_keeps_pos(v0, self@);
                }
                self.exec_completed(k, e.index, ok, &produced, acts);
                self.assign_jobs(acts);
                self.check_completion(e.client, acts);
            },
        }
    }

    /// A file of client `c` arrived in the store.
    pub fn handle_file_ready(&mut self, c: ClientUuid, f: FileUuid, acts: &mut Vec<SchedulerAction>)
        requires
            old(self).wf(),
        ensures
            final(self).wf(),
            final(self)@ == file_ready_spec(old(self)@, c, f).0,
            final(acts)@ == old(acts)@ + file_ready_spec(old(self)@, c, f).1,
    {
        let ghost v0 = self@;
        match self.find_client(c) {
            None => {
                assert(acts@ =~= acts@ + Seq::<SchedulerAction>::empty());
            },
            Some(k) => {
                let mut files: Vec<FileUuid> = Vec::new();
                files.push(f);
                assert(files@ =~= seq![f]);
                self.add_known_files(k, &files);
                proof {
                    lemma_add_known(v0, k as int, seq![f]);
                    lemma_client_pos(v0, c);
                    let kn = self@.clients[k as int].known;
                    assert(kn[kn.len() - 1] == f);
                }
                self.file_success(c, f, acts);
                self.check_completion(c, acts);
            },
        }
    }

    /// Whether worker `w` sent every file that the group it ran writes, when it ran it
    /// successfully for a client that is still there.
    pub fn result_is_complete(&self, w: WorkerUuid, ok: bool, produced: &Vec<FileUuid>) -> (res: bool)
        requires
            self.wf(),
        ensures
            res == result_complete(self@, w, ok, produced@),
    {
        if !ok {
            return true;
        }
        let p = match self.find_worker(w) {
            None => {
                return true;
            },
            Some(p) => p,
        };
        assert(self.connected_workers@[p as int]@ == self@.workers[p as int]);
        let e = match self.connected_workers[p].current_job {
            None => {
                return true;
            },
            Some(e) => e,
        };
        let k = match self.find_client(e.client) {
            None => {
                return true;
            },
            Some(k) => k,
        };
        proof {
            assert(job_ok(self@, e));
        }
        let cl = &self.clients[k];
        assert(cl@ == self@.clients[k as int]);
        let mut outs: Vec<FileUuid> = Vec::new();
        push_outputs(&cl.dag.execution_groups[e.index].executions, &mut outs);
        let ghost os = exec_outputs(group_at(self@.clients[k as int], e.index as int).executions@);
        assert(outs@ == os);
        assert(self@.workers[p as int].job == Some(e));
        let mut j: usize = 0;
        while j < outs.len()
            invariant
                j <= outs@.len(),
                outs@ == os,
                ok,
                worker_pos(self@, w) == p as int,
                client_pos(self@, e.client) == k as int,
                k < self@.clients.len(),
                self@.workers[p as int].job == Some(e),
                os == exec_outputs(group_at(self@.clients[k as int], e.index as int).executions@),
                forall|t: int| 0 <= t < j ==> produced@.contains(#[trigger] outs@[t]),
            decreases outs@.len() - j,
        {
            if !crate::text::vec_contains(produced, outs[j]) {
                assert(!produced@.contains(os[j as int]));
                assert(worker_pos(self@, w) == p as int);
                assert(client_pos(self@, e.client) == k as int);
                assert(self@.clients[client_pos(self@, e.client)] == self@.clients[k as int]);
                assert(!result_complete(self@, w, ok, produced@));
                return false;
            }
            j += 1;
        }
        true
    }


    /// Whether the identifier is the one of a connected client, or of the client of a job of a
    /// worker.
    pub fn client_in_use(&self, c: ClientUuid) -> (res: bool)
        ensures
            res == in_use(self@, c),
    {
        if self.find_client(c).is_some() {
            return true;
        }
        let mut a: usize = 0;
        while a < self.connected_workers.len()
            invariant
                a <= self@.workers.len(),
                self@.workers.len() == self.connected_workers@.len(),
                forall|b: int| 0 <= b < a ==> !((#[trigger] self@.workers[b]).job is Some && self@.workers[b].job->0.client == c),
            decreases self@.workers.len() - a,
        {
            assert(self.connected_workers@[a as int]@ == self@.workers[a as int]);
            match self.connected_workers[a].current_job {
                Some(e) => {
                    if e.client == c {
                        return true;
                    }
                },
                None => {},
            }
            a += 1;
        }
        false
    }

    /// A new client asks for the evaluation of its DAG (checked before): each group waits for
    /// the files its executions read, the client is told at once when there is nothing to do, and
    /// the free workers get the ready groups.
    pub fn handle_evaluate_dag(
        &mut self,
        c: ClientUuid,
        name: String,
        dag: ExecutionDAGData,
        callbacks: ExecutionDAGWatchSet,
        acts: &mut Vec<SchedulerAction>,
    )
        requires
            old(self).wf(),
            !in_use(old(self)@, c),
        ensures
            final(self).wf(),
            final(self)@ == evaluate_spec(old(self)@, c, name@, dag, callbacks).0,
            final(acts)@ == old(acts)@ + evaluate_spec(old(self)@, c, name@, dag, callbacks).1,
    {
        let ghost v0 = self@;
        let n = dag.execution_groups.len();
        let mut states: Vec<GroupState> = Vec::new();
        let mut i: usize = 0;
        while i < n
            invariant
                i <= n,
                n == dag.execution_groups@.len(),
                states@.len() == i,
                forall|ii: int| 0 <= ii < i ==> (#[trigger] states@[ii])@ == initial_states(dag)[ii],
            decreases n - i,
        {
            let mut m: Vec<FileUuid> = Vec::new();
            push_deps(&dag.execution_groups[i].executions, &mut m);
            assert(m@ =~= exec_deps(dag.execution_groups@[i as int].executions@));
            states.push(GroupState::Waiting(m));
            i += 1;
        }
        let ghost nv = name@;
        let data = SchedulerClientData { uuid: c, name, dag, callbacks, states, known_files: Vec::new() };
        proof {
            assert(data@.states =~= initial_states(data.dag));
            assert(data@.known =~= Seq::<FileUuid>::empty());
            assert(data@ == new_client(c, nv, data.dag, data.callbacks));
        }
        let ghost dv = data@;
        self.clients.push(data);
        proof {
            assert(self@.clients =~= v0.clients.push(dv));
            lemma_new_client(v0, c, nv, dv.dag, dv.callbacks);
        }
        self.check_completion(c, acts);
        self.schedule_cached();
        self.assign_jobs(acts);
    }

    /// The status of the scheduler.
    pub fn status(&self) -> (res: SchedulerStatus)
        requires
            self.wf(),
        ensures
            status_ok(self@, res),
    {
        let ghost v = self@;
        let mut ready: usize = 0;
        let mut waiting: usize = 0;
        let mut k: usize = 0;
        while k < self.clients.len()
            invariant
                v == self@,
                k <= v.clients.len(),
                ready == capped(count_all(v.clients.take(k as int), true)),
                waiting == capped(count_all(v.clients.take(k as int), false)),
            decreases v.clients.len() - k,
        {
            let cl = &self.clients[k];
            assert(cl@ == v.clients[k as int]);
            let ghost r0 = count_all(v.clients.take(k as int), true);
            let ghost w0 = count_all(v.clients.take(k as int), false);
            let mut i: usize = 0;
            while i < cl.states.len()
                invariant
                    i <= cl.states@.len(),
                    cl@.states.len() == cl.states@.len(),
                    ready == capped(r0 + count_state(cl@.states.take(i as int), true)),
                    waiting == capped(w0 + count_state(cl@.states.take(i as int), false)),
                decreases cl.states@.len() - i,
            {
                assert(cl@.states[i as int] == cl.states@[i as int]@);
                assert(cl@.states.take(i + 1).drop_last() =~= cl@.states.take(i as int));
                match &cl.states[i] {
                    GroupState::Ready => {
                        if ready < usize::MAX {
                            ready += 1;
                        }
                    },
                    GroupState::Waiting(_) => {
                        if waiting < usize::MAX {
                            waiting += 1;
                        }
                    },
                    _ => {},
                }
                i += 1;
            }
            proof {
                assert(cl@.states.take(cl@.states.len() as int) =~= cl@.states);
                assert(v.clients.take(k + 1).drop_last() =~= v.clients.take(k as int));
            }
            k += 1;
        }
        proof {
            assert(v.clients.take(v.clients.len() as int) =~= v.clients);
        }
        let mut workers: Vec<WorkerStatusInfo> = Vec::new();
        let mut a: usize = 0;
        while a < self.connected_workers.len()
            invariant
                v == self@,
                self.wf(),
                a <= v.workers.len(),
                workers@.len() == a,
                forall|b: int| 0 <= b < a ==> worker_status_ok(v, v.workers[b], #[trigger] workers@[b]),
            decreases v.workers.len() - a,
        {
            let w = &self.connected_workers[a];
            assert(w@ == v.workers[a as int]);
            let current_job = match w.current_job {
                None => None,
                Some(e) => match self.find_client(e.client) {
                    None => None,
                    Some(k) => {
                        proof {
                            assert(job_ok(v, e));
                        }
                        let cl = &self.clients[k];
                        assert(cl@ == v.clients[k as int]);
                        Some(WorkerJobStatus {
                            job: cl.dag.execution_groups[e.index].description.clone(),
                            client: e.client,
                            client_name: cl.name.clone(),
                        })
                    },
                },
            };
            workers.push(WorkerStatusInfo { uuid: w.uuid, name: w.name.clone(), current_job });
            a += 1;
        }
        SchedulerStatus { connected_workers: workers, ready_execs: ready, waiting_execs: waiting }
    }


    /// Handles a message.
    pub fn handle_message(&mut self, m: SchedulerInMessage) -> (res: SchedulerOutcome)
        requires
            old(self).wf(),
            message_ok(old(self)@, m),
        ensures
            final(self).wf(),
            final(self)@ == message_spec(old(self)@, m).0,
            res.actions@ == message_spec(old(self)@, m).1,
            res.exit == (m is Exit),
            match m {
                SchedulerInMessage::Status { client } => res.status matches Some((c, st)) && c == client && status_ok(old(self)@, st),
                _ => res.status is None,
            },
    {
        let ghost v0 = self@;
        let mut acts: Vec<SchedulerAction> = Vec::new();
        match m {
            SchedulerInMessage::EvaluateDAG { client, name, dag, callbacks } => {
                self.handle_evaluate_dag(client, name, dag, callbacks, &mut acts);
                SchedulerOutcome { actions: acts, status: None, exit: false }
            },
            SchedulerInMessage::ClientDisconnected { client } => {
                self.handle_client_disconnected(client, &mut acts);
                SchedulerOutcome { actions: acts, status: None, exit: false }
            },
            SchedulerInMessage::FileReady { client, uuid } => {
                self.handle_file_ready(client, uuid, &mut acts);
                SchedulerOutcome { actions: acts, status: None, exit: false }
            },
            SchedulerInMessage::WorkerResult { worker, successful, outputs } => {
                self.handle_worker_result(worker, successful, outputs, &mut acts);
                SchedulerOutcome { actions: acts, status: None, exit: false }
            },
            SchedulerInMessage::WorkerConnected { uuid, name } => {
                self.handle_worker_connected(uuid, name, &mut acts);
                SchedulerOutcome { actions: acts, status: None, exit: false }
            },
            SchedulerInMessage::WorkerDisconnected { uuid } => {
                self.handle_worker_disconnected(uuid);
                assert(acts@ =~= Seq::<SchedulerAction>::empty());
                SchedulerOutcome { actions: acts, status: None, exit: false }
            },
            SchedulerInMessage::Status { client } => {
                let st = self.status();
                assert(acts@ =~= Seq::<SchedulerAction>::empty());
                SchedulerOutcome { actions: acts, status: Some((client, st)), exit: false }
            },
            SchedulerInMessage::Exit => {
                assert(acts@ =~= Seq::<SchedulerAction>::empty());
                SchedulerOutcome { actions: acts, status: None, exit: true }
            },
        }
    }

    /// Whether the message can be handled: a new client has an identifier not in use, and a
    /// worker that ran a group successfully sent all the files it writes.
    pub fn accepts(&self, m: &SchedulerInMessage) -> (res: bool)
        requires
            self.wf(),
        ensures
            res == message_ok(self@, *m),
    {
        match m {
            SchedulerInMessage::EvaluateDAG { client, .. } => !self.client_in_use(*client),
            SchedulerInMessage::WorkerResult { worker, successful, outputs } => self.result_is_complete(*worker, *successful, outputs),
            _ => true,
        }
    }

    /// The position of a client.
    fn find_client(&self, c: ClientUuid) -> (res: Option<usize>)
        ensures
            match res {
                Some(k) => k as int == client_pos(self@, c) && k < self.clients@.len(),
                None => client_pos(self@, c) == -1,
            },
    {
        let ghost s = client_uuids(self@.clients);
        proof { lemma_pos_of(s, c); }
        let mut k: usize = 0;
        while k < self.clients.len()
            invariant
                k <= self.clients@.len(),
                s == client_uuids(self@.clients),
                s.len() == self.clients@.len(),
                forall|j: int| 0 <= j < k ==> s[j] != c,
                pos_of(s, c) < 0 <==> !s.contains(c),
                pos_of(s, c) < 0 ==> pos_of(s, c) == -1,
                pos_of(s, c) >= 0 ==> pos_of(s, c) < s.len() && s[pos_of(s, c)] == c,
                pos_of(s, c) >= 0 ==> forall|j: int| 0 <= j < pos_of(s, c) ==> s[j] != c,
            decreases self.clients@.len() - k,
        {
            assert(s[k as int] == self.clients@[k as int]@.uuid);
            if self.clients[k].uuid == c {
                return Some(k);
            }
            k += 1;
        }
        None
    }

    /// The position of a worker.
    fn find_worker(&self, w: WorkerUuid) -> (res: Option<usize>)
        ensures
            match res {
                Some(k) => k as int == worker_pos(self@, w) && k < self.connected_workers@.len(),
                None => worker_pos(self@, w) == -1,
            },
    {
        let ghost s = worker_uuids(self@.workers);
        proof { lemma_pos_of(s, w); }
        let mut k: usize = 0;
        while k < self.connected_workers.len()
            invariant
                k <= self.connected_workers@.len(),
                s == worker_uuids(self@.workers),
                s.len() == self.connected_workers@.len(),
                forall|j: int| 0 <= j < k ==> s[j] != w,
                pos_of(s, w) < 0 <==> !s.contains(w),
                pos_of(s, w) < 0 ==> pos_of(s, w) == -1,
                pos_of(s, w) >= 0 ==> pos_of(s, w) < s.len() && s[pos_of(s, w)] == w,
                pos_of(s, w) >= 0 ==> forall|j: int| 0 <= j < pos_of(s, w) ==> s[j] != w,
            decreases self.connected_workers@.len() - k,
        {
            assert(s[k as int] == self.connected_workers@[k as int]@.uuid);
            if self.connected_workers[k].uuid == w {
                return Some(k);
            }
            k += 1;
        }
        None
    }
}

} // verus!
