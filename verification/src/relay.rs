//! The relay of the messages of the scheduler to the clients of an executor: the notices about
//! executions go through at once, a watched file goes through at once only when it is urgent, and
//! the other files of a client are held until its evaluation is over, when they are all sent
//! with the end of the evaluation.

use vstd::prelude::*;

use crate::check_dag::{ExecutionUuid, FileUuid};
use crate::scheduler::{ClientUuid, SchedulerAction, WorkerUuid};

verus! {

/// What is sent to a client.
#[derive(Debug, Clone, PartialEq, Eq)]
pub enum ClientNotice {
    /// An execution started on a worker.
    NotifyStart { execution: ExecutionUuid, worker: WorkerUuid },
    /// An execution was skipped.
    NotifySkip { execution: ExecutionUuid },
    /// An execution completed.
    NotifyDone { execution: ExecutionUuid },
    /// A file follows, produced successfully or not.
    ProvideFile { file: FileUuid, successful: bool },
    /// The evaluation is over; the files held for the client, each with whether it was produced
    /// successfully, in the order they came.
    Done { files: Vec<(FileUuid, bool)> },
}

/// The files held for the clients, in the order they came.
pub struct Relay {
    held: Vec<(ClientUuid, FileUuid, bool)>,
}

/// The files held for client `c`, in order.
pub open spec fn held_for(h: Seq<(ClientUuid, FileUuid, bool)>, c: ClientUuid) -> Seq<(FileUuid, bool)>
    decreases h.len(),
{
    if h.len() == 0 {
        Seq::empty()
    } else {
        held_for(h.drop_last(), c) + if h.last().0 == c { seq![(h.last().1, h.last().2)] } else { Seq::empty() }
    }
}

/// The held files of the clients other than `c`, in order.
pub open spec fn held_except(h: Seq<(ClientUuid, FileUuid, bool)>, c: ClientUuid) -> Seq<(ClientUuid, FileUuid, bool)>
    decreases h.len(),
{
    if h.len() == 0 {
        Seq::empty()
    } else {
        held_except(h.drop_last(), c) + if h.last().0 == c { Seq::empty() } else { seq![h.last()] }
    }
}

impl View for Relay {
    type V = Seq<(ClientUuid, FileUuid, bool)>;

    closed spec fn view(&self) -> Seq<(ClientUuid, FileUuid, bool)> {
        self.held@
    }
}

impl Relay {
    /// A relay that holds nothing.
    pub fn new() -> (res: Relay)
        ensures
            res@ == Seq::<(ClientUuid, FileUuid, bool)>::empty(),
    {
        Relay { held: Vec::new() }
    }

    /// Relays a message of the scheduler, for a client still connected when `connected` holds:
    /// it returns the client and what to send it, if anything. The messages to the workers are
    /// not for the clients.
    pub fn relay(&mut self, a: SchedulerAction, connected: bool) -> (res: Option<(ClientUuid, ClientNotice)>)
        ensures
            !connected ==> res is None && final(self)@ == old(self)@,
            connected ==> match a {
                SchedulerAction::ExecutionStarted { client, execution, worker } =>
                    res == Some((client, ClientNotice::NotifyStart { execution, worker })) && final(self)@ == old(self)@,
                SchedulerAction::ExecutionDone { client, execution } =>
                    res == Some((client, ClientNotice::NotifyDone { execution })) && final(self)@ == old(self)@,
                SchedulerAction::ExecutionSkipped { client, execution } =>
                    res == Some((client, ClientNotice::NotifySkip { execution })) && final(self)@ == old(self)@,
                SchedulerAction::FileReady { client, file, successful, urgent } => if urgent {
                    res == Some((client, ClientNotice::ProvideFile { file, successful })) && final(self)@ == old(self)@
                } else {
                    res is None && final(self)@ == old(self)@.push((client, file, successful))
                },
                SchedulerAction::EvaluationDone { client } =>
                    (res matches Some((c, ClientNotice::Done { files })) && c == client
                        && files@ == held_for(old(self)@, client))
                    && final(self)@ == held_except(old(self)@, client),
                _ => res is None && final(self)@ == old(self)@,
            },
    {
        if !connected {
            return None;
        }
        match a {
            SchedulerAction::ExecutionStarted { client, execution, worker } =>
                Some((client, ClientNotice::NotifyStart { execution, worker })),
            SchedulerAction::ExecutionDone { client, execution } =>
                Some((client, ClientNotice::NotifyDone { execution })),
            SchedulerAction::ExecutionSkipped { client, execution } =>
                Some((client, ClientNotice::NotifySkip { execution })),
            SchedulerAction::FileReady { client, file, successful, urgent } => {
                if urgent {
                    Some((client, ClientNotice::ProvideFile { file, successful }))
                } else {
                    self.held.push((client, file, successful));
                    None
                }
            },
            SchedulerAction::EvaluationDone { client } => {
                let ghost h = self.held@;
                let mut files: Vec<(FileUuid, bool)> = Vec::new();
                let mut rest: Vec<(ClientUuid, FileUuid, bool)> = Vec::new();
                let mut i: usize = 0;
                while i < self.held.len()
                    invariant
                        self.held@ == h,
                        i <= h.len(),
                        files@ == held_for(h.take(i as int), client),
                        rest@ == held_except(h.take(i as int), client),
                    decreases h.len() - i,
                {
                    let e = self.held[i];
                    proof {
                        assert(h.take(i + 1).drop_last() =~= h.take(i as int));
                    }
                    if e.0 == client {
                        files.push((e.1, e.2));
                    } else {
                        rest.push(e);
                    }
                    proof {
                        assert(files@ =~= held_for(h.take(i + 1), client));
                        assert(rest@ =~= held_except(h.take(i + 1), client));
                    }
                    i += 1;
                }
                proof {
                    assert(h.take(h.len() as int) =~= h);
                }
                self.held = rest;
                Some((client, ClientNotice::Done { files }))
            },
            _ => None,
        }
    }
}

} // verus!
