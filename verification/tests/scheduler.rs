use task_maker::check_dag::{ExecutionDAGData, ExecutionDAGWatchSet, ExecutionGroupInfo, ExecutionInfo};
use task_maker::relay::{ClientNotice, Relay};
use task_maker::scheduler::{Scheduler, SchedulerAction, SchedulerInMessage, SchedulerOutcome};

fn execution(uuid: u128, dependencies: Vec<u128>, outputs: Vec<u128>) -> ExecutionInfo {
    ExecutionInfo {
        uuid,
        description: format!("exec {}", uuid),
        dependencies,
        outputs,
        capture_stdout: false,
        has_stdout: false,
        capture_stderr: false,
        has_stderr: false,
    }
}

fn group(uuid: u128, priority: i64, executions: Vec<ExecutionInfo>) -> ExecutionGroupInfo {
    ExecutionGroupInfo {
        uuid,
        description: format!("group {}", uuid),
        executions,
        fifos: vec![],
        priority,
    }
}

fn watch_all(executions: Vec<u128>, files: Vec<u128>) -> ExecutionDAGWatchSet {
    ExecutionDAGWatchSet { executions, files, urgent_files: vec![] }
}

fn send(s: &mut Scheduler, m: SchedulerInMessage) -> SchedulerOutcome {
    assert!(s.accepts(&m));
    s.handle_message(m)
}

/// Group 100 reads file 1 and writes file 2, group 200 reads file 2 and writes file 3.
fn chain_dag() -> ExecutionDAGData {
    ExecutionDAGData {
        execution_groups: vec![
            group(100, 10, vec![execution(10, vec![1], vec![2])]),
            group(200, 5, vec![execution(20, vec![2], vec![3])]),
        ],
        provided_files: vec![1],
    }
}

#[test]
fn chain_runs_to_completion() {
    let mut s = Scheduler::new();
    let out = send(&mut s, SchedulerInMessage::EvaluateDAG {
        client: 7,
        name: "client".to_string(),
        dag: chain_dag(),
        callbacks: watch_all(vec![10, 20], vec![3]),
    });
    assert!(out.actions.is_empty());
    let out = send(&mut s, SchedulerInMessage::WorkerConnected { uuid: 1000, name: "w".to_string() });
    assert!(out.actions.is_empty());
    let out = send(&mut s, SchedulerInMessage::FileReady { client: 7, uuid: 1 });
    assert_eq!(
        out.actions,
        vec![
            SchedulerAction::WorkerJob { worker: 1000, client: 7, group: 100 },
            SchedulerAction::ExecutionStarted { client: 7, execution: 10, worker: 1000 },
        ]
    );
    let out = send(&mut s, SchedulerInMessage::WorkerResult { worker: 1000, successful: true, outputs: vec![2] });
    // the worker is gone until it connects again
    assert_eq!(out.actions, vec![SchedulerAction::ExecutionDone { client: 7, execution: 10 }]);
    let status = send(&mut s, SchedulerInMessage::Status { client: 7 }).status.unwrap().1;
    assert_eq!(status.ready_execs, 1);
    assert_eq!(status.waiting_execs, 0);
    assert!(status.connected_workers.is_empty());
    let out = send(&mut s, SchedulerInMessage::WorkerConnected { uuid: 1000, name: "w".to_string() });
    assert_eq!(
        out.actions,
        vec![
            SchedulerAction::WorkerJob { worker: 1000, client: 7, group: 200 },
            SchedulerAction::ExecutionStarted { client: 7, execution: 20, worker: 1000 },
        ]
    );
    let out = send(&mut s, SchedulerInMessage::WorkerResult { worker: 1000, successful: true, outputs: vec![3] });
    assert_eq!(
        out.actions,
        vec![
            SchedulerAction::ExecutionDone { client: 7, execution: 20 },
            SchedulerAction::FileReady { client: 7, file: 3, successful: true, urgent: false },
            SchedulerAction::EvaluationDone { client: 7 },
        ]
    );
}

#[test]
fn failure_skips_dependents_transitively() {
    let mut s = Scheduler::new();
    send(&mut s, SchedulerInMessage::EvaluateDAG {
        client: 7,
        name: "client".to_string(),
        dag: chain_dag(),
        callbacks: watch_all(vec![10, 20], vec![2, 3]),
    });
    send(&mut s, SchedulerInMessage::WorkerConnected { uuid: 1000, name: "w".to_string() });
    send(&mut s, SchedulerInMessage::FileReady { client: 7, uuid: 1 });
    let out = send(&mut s, SchedulerInMessage::WorkerResult { worker: 1000, successful: false, outputs: vec![2] });
    assert_eq!(
        out.actions,
        vec![
            SchedulerAction::ExecutionDone { client: 7, execution: 10 },
            SchedulerAction::FileReady { client: 7, file: 2, successful: false, urgent: false },
            SchedulerAction::ExecutionSkipped { client: 7, execution: 20 },
            SchedulerAction::EvaluationDone { client: 7 },
        ]
    );
}

#[test]
fn empty_dag_is_done_at_once() {
    let mut s = Scheduler::new();
    let out = send(&mut s, SchedulerInMessage::EvaluateDAG {
        client: 3,
        name: "c".to_string(),
        dag: ExecutionDAGData { execution_groups: vec![], provided_files: vec![] },
        callbacks: watch_all(vec![], vec![]),
    });
    assert_eq!(out.actions, vec![SchedulerAction::EvaluationDone { client: 3 }]);
}

#[test]
fn higher_priority_runs_first() {
    let mut s = Scheduler::new();
    let dag = ExecutionDAGData {
        execution_groups: vec![
            group(100, 1, vec![execution(10, vec![1], vec![])]),
            group(200, 9, vec![execution(20, vec![1], vec![])]),
            group(300, 5, vec![execution(30, vec![1], vec![])]),
        ],
        provided_files: vec![1],
    };
    send(&mut s, SchedulerInMessage::EvaluateDAG { client: 1, name: "c".to_string(), dag, callbacks: watch_all(vec![], vec![]) });
    send(&mut s, SchedulerInMessage::FileReady { client: 1, uuid: 1 });
    let out = send(&mut s, SchedulerInMessage::WorkerConnected { uuid: 50, name: "a".to_string() });
    assert_eq!(out.actions, vec![SchedulerAction::WorkerJob { worker: 50, client: 1, group: 200 }]);
    let out = send(&mut s, SchedulerInMessage::WorkerConnected { uuid: 51, name: "b".to_string() });
    assert_eq!(out.actions, vec![SchedulerAction::WorkerJob { worker: 51, client: 1, group: 300 }]);
    let status = send(&mut s, SchedulerInMessage::Status { client: 1 }).status.unwrap().1;
    assert_eq!(status.ready_execs, 1);
    assert_eq!(status.connected_workers.len(), 2);
    let job = status.connected_workers[0].current_job.clone().unwrap();
    assert_eq!(job.job, "group 200");
    assert_eq!(job.client_name, "c");
}

#[test]
fn lost_worker_job_is_given_again() {
    let mut s = Scheduler::new();
    send(&mut s, SchedulerInMessage::EvaluateDAG { client: 1, name: "c".to_string(), dag: chain_dag(), callbacks: watch_all(vec![], vec![]) });
    send(&mut s, SchedulerInMessage::WorkerConnected { uuid: 50, name: "a".to_string() });
    send(&mut s, SchedulerInMessage::FileReady { client: 1, uuid: 1 });
    let out = send(&mut s, SchedulerInMessage::WorkerDisconnected { uuid: 50 });
    assert!(out.actions.is_empty());
    let out = send(&mut s, SchedulerInMessage::WorkerConnected { uuid: 51, name: "b".to_string() });
    assert_eq!(out.actions, vec![SchedulerAction::WorkerJob { worker: 51, client: 1, group: 100 }]);
}

#[test]
fn gone_client_jobs_are_stopped() {
    let mut s = Scheduler::new();
    send(&mut s, SchedulerInMessage::EvaluateDAG { client: 1, name: "c".to_string(), dag: chain_dag(), callbacks: watch_all(vec![], vec![]) });
    send(&mut s, SchedulerInMessage::WorkerConnected { uuid: 50, name: "a".to_string() });
    send(&mut s, SchedulerInMessage::FileReady { client: 1, uuid: 1 });
    let out = send(&mut s, SchedulerInMessage::ClientDisconnected { client: 1 });
    assert_eq!(out.actions, vec![SchedulerAction::StopWorkerJob { worker: 50, group: 100 }]);
    // the client identifier stays in use while the worker holds its job
    assert!(!s.accepts(&SchedulerInMessage::EvaluateDAG {
        client: 1,
        name: "c".to_string(),
        dag: chain_dag(),
        callbacks: watch_all(vec![], vec![]),
    }));
    let out = send(&mut s, SchedulerInMessage::WorkerResult { worker: 50, successful: true, outputs: vec![2] });
    assert!(out.actions.is_empty());
}

#[test]
fn incomplete_results_are_refused() {
    let mut s = Scheduler::new();
    send(&mut s, SchedulerInMessage::EvaluateDAG { client: 1, name: "c".to_string(), dag: chain_dag(), callbacks: watch_all(vec![], vec![]) });
    send(&mut s, SchedulerInMessage::WorkerConnected { uuid: 50, name: "a".to_string() });
    send(&mut s, SchedulerInMessage::FileReady { client: 1, uuid: 1 });
    assert!(!s.accepts(&SchedulerInMessage::WorkerResult { worker: 50, successful: true, outputs: vec![] }));
    assert!(s.accepts(&SchedulerInMessage::WorkerResult { worker: 50, successful: false, outputs: vec![] }));
}

#[test]
fn exit_stops() {
    let mut s = Scheduler::new();
    let out = send(&mut s, SchedulerInMessage::Exit);
    assert!(out.exit);
    assert!(out.actions.is_empty());
}

#[test]
fn relay_holds_files_until_done() {
    let mut r = Relay::new();
    assert_eq!(
        r.relay(SchedulerAction::ExecutionStarted { client: 1, execution: 10, worker: 5 }, true),
        Some((1, ClientNotice::NotifyStart { execution: 10, worker: 5 }))
    );
    assert_eq!(r.relay(SchedulerAction::FileReady { client: 1, file: 2, successful: true, urgent: false }, true), None);
    assert_eq!(r.relay(SchedulerAction::FileReady { client: 2, file: 9, successful: true, urgent: false }, true), None);
    assert_eq!(
        r.relay(SchedulerAction::FileReady { client: 1, file: 3, successful: false, urgent: true }, true),
        Some((1, ClientNotice::ProvideFile { file: 3, successful: false }))
    );
    assert_eq!(r.relay(SchedulerAction::FileReady { client: 1, file: 4, successful: false, urgent: false }, true), None);
    assert_eq!(r.relay(SchedulerAction::FileReady { client: 1, file: 7, successful: true, urgent: false }, false), None);
    assert_eq!(
        r.relay(SchedulerAction::EvaluationDone { client: 1 }, true),
        Some((1, ClientNotice::Done { files: vec![(2, true), (4, false)] }))
    );
    assert_eq!(
        r.relay(SchedulerAction::EvaluationDone { client: 2 }, true),
        Some((2, ClientNotice::Done { files: vec![(9, true)] }))
    );
    assert_eq!(r.relay(SchedulerAction::WorkerJob { worker: 5, client: 1, group: 3 }, true), None);
}
