use task_maker::check_dag::{
    check_dag, DAGError, ExecutionDAGData, ExecutionDAGWatchSet, ExecutionGroupInfo, ExecutionInfo,
};

fn execution(uuid: u128, dependencies: Vec<u128>, outputs: Vec<u128>) -> ExecutionInfo {
    ExecutionInfo {
        uuid,
        description: "exec".to_string(),
        dependencies,
        outputs,
        capture_stdout: false,
        has_stdout: false,
        capture_stderr: false,
        has_stderr: false,
    }
}

fn group(uuid: u128, executions: Vec<ExecutionInfo>) -> ExecutionGroupInfo {
    ExecutionGroupInfo {
        uuid,
        description: "exec".to_string(),
        executions,
        fifos: vec![],
        priority: 0,
    }
}

fn dag(groups: Vec<ExecutionGroupInfo>, provided: Vec<u128>) -> ExecutionDAGData {
    ExecutionDAGData {
        execution_groups: groups,
        provided_files: provided,
    }
}

#[test]
fn test_missing_file() {
    let d = dag(vec![group(100, vec![execution(1, vec![10], vec![])])], vec![]);
    assert!(check_dag(&d, &ExecutionDAGWatchSet::default()).is_err());
}

#[test]
fn test_missing_file_callback() {
    let d = dag(vec![], vec![]);
    let watch = ExecutionDAGWatchSet {
        executions: vec![],
        files: vec![10],
        urgent_files: vec![],
    };
    assert!(check_dag(&d, &watch).is_err());
}

#[test]
fn test_missing_execution_callback() {
    let d = dag(vec![], vec![]);
    let watch = ExecutionDAGWatchSet {
        executions: vec![1],
        files: vec![],
        urgent_files: vec![],
    };
    assert!(check_dag(&d, &watch).is_err());
}

#[test]
fn test_cycle_self() {
    // the execution reads its own standard output
    let mut e = execution(1, vec![10], vec![10]);
    e.has_stdout = true;
    let d = dag(vec![group(100, vec![e])], vec![]);
    assert!(check_dag(&d, &ExecutionDAGWatchSet::default()).is_err());
}

#[test]
fn test_cycle_double() {
    let mut e1 = execution(1, vec![20], vec![10]);
    e1.has_stdout = true;
    let mut e2 = execution(2, vec![10], vec![20]);
    e2.has_stdout = true;
    let d = dag(vec![group(100, vec![e1]), group(200, vec![e2])], vec![]);
    assert!(check_dag(&d, &ExecutionDAGWatchSet::default()).is_err());
}

#[test]
fn test_duplicate_file() {
    let mut e1 = execution(1, vec![], vec![10]);
    e1.has_stdout = true;
    let mut e2 = execution(2, vec![], vec![10]);
    e2.has_stdout = true;
    let d = dag(vec![group(100, vec![e1]), group(200, vec![e2])], vec![]);
    assert!(check_dag(&d, &ExecutionDAGWatchSet::default()).is_err());
}

#[test]
fn test_duplicate_file_provided() {
    let mut e = execution(1, vec![], vec![10]);
    e.has_stdout = true;
    let d = dag(vec![group(100, vec![e])], vec![10]);
    assert!(check_dag(&d, &ExecutionDAGWatchSet::default()).is_err());
}

#[test]
fn valid_chain_passes() {
    let mut e1 = execution(1, vec![5], vec![10]);
    e1.has_stdout = true;
    let e2 = execution(2, vec![10], vec![]);
    let d = dag(vec![group(100, vec![e1]), group(200, vec![e2])], vec![5]);
    let watch = ExecutionDAGWatchSet {
        executions: vec![1, 2],
        files: vec![5, 10],
        urgent_files: vec![10],
    };
    assert!(check_dag(&d, &watch).is_ok());
}

#[test]
fn empty_group_is_reported() {
    let d = dag(vec![group(100, vec![])], vec![]);
    match check_dag(&d, &ExecutionDAGWatchSet::default()) {
        Err(DAGError::EmptyGroup { uuid }) => assert_eq!(uuid, 100),
        other => panic!("unexpected result: {:?}", other),
    }
}

#[test]
fn duplicate_execution_is_reported() {
    let d = dag(
        vec![group(100, vec![execution(1, vec![], vec![])]), group(200, vec![execution(1, vec![], vec![])])],
        vec![],
    );
    match check_dag(&d, &ExecutionDAGWatchSet::default()) {
        Err(DAGError::DuplicateExecutionUUID { uuid }) => assert_eq!(uuid, 1),
        other => panic!("unexpected result: {:?}", other),
    }
}

#[test]
fn capture_without_stdout_is_reported() {
    let mut e = execution(1, vec![], vec![]);
    e.capture_stdout = true;
    let d = dag(vec![group(100, vec![e])], vec![]);
    match check_dag(&d, &ExecutionDAGWatchSet::default()) {
        Err(DAGError::InvalidCapture { stream, uuid, .. }) => {
            assert_eq!(stream, "stdout");
            assert_eq!(uuid, 1);
        }
        other => panic!("unexpected result: {:?}", other),
    }
}

#[test]
fn missing_dependency_is_reported_as_missing_file() {
    let d = dag(vec![group(100, vec![execution(1, vec![10], vec![])])], vec![]);
    match check_dag(&d, &ExecutionDAGWatchSet::default()) {
        Err(DAGError::MissingFile { uuid, description }) => {
            assert_eq!(uuid, 10);
            assert_eq!(description, "Dependency of 'exec'");
        }
        other => panic!("unexpected result {:?}", other),
    }
}

#[test]
fn mutual_dependency_is_a_cycle() {
    let d = dag(
        vec![
            group(100, vec![execution(1, vec![11], vec![10])]),
            group(101, vec![execution(2, vec![10], vec![11])]),
        ],
        vec![],
    );
    assert!(matches!(
        check_dag(&d, &ExecutionDAGWatchSet::default()),
        Err(DAGError::CycleDetected { .. })
    ));
}
