use task_maker::client::{should_write_file, ClientState, ContentPrefix};
use task_maker::evaluation::{
    evaluation_description, manager_args, manager_description, memory_limit_kib, process_description, solution_args,
};
use task_maker::ioi::UserIo;

#[test]
fn descriptions() {
    assert_eq!(evaluation_description("sol.cpp", 3, 1), "Evaluation of sol.cpp on testcase 3, subtask 1");
    assert_eq!(
        process_description("sol.cpp", 0, 2, 3, 1),
        "Evaluation of sol.cpp (process 1/2) on testcase 3, subtask 1"
    );
    assert_eq!(manager_description("sol.cpp", 3, 1), "Manager of sol.cpp on testcase 3, subtask 1");
    assert_eq!(memory_limit_kib(256), 262144);
}

#[test]
fn communication_command_lines() {
    let m2s = vec!["/fifo/0".to_string(), "/fifo/2".to_string()];
    let s2m = vec!["/fifo/1".to_string(), "/fifo/3".to_string()];
    assert_eq!(solution_args(UserIo::FifoIo, &m2s, &s2m, 1, 2), vec!["/fifo/2", "/fifo/3", "1"]);
    assert_eq!(solution_args(UserIo::FifoIo, &m2s, &s2m, 0, 1), vec!["/fifo/0", "/fifo/1"]);
    assert_eq!(solution_args(UserIo::StdIo, &m2s, &s2m, 0, 1), Vec::<String>::new());
    assert_eq!(solution_args(UserIo::StdIo, &m2s, &s2m, 1, 2), vec!["1"]);
    assert_eq!(manager_args(&m2s, &s2m, 2), vec!["/fifo/1", "/fifo/0", "/fifo/3", "/fifo/2"]);
}

#[test]
fn client_waits_for_missing_files() {
    let mut state = ClientState::new();
    assert!(state.waiting());
    state.file_received();
    assert!(state.waiting());
    let ask = state.evaluation_done(&vec![true, false, true, false]);
    assert_eq!(ask, vec![1, 3]);
    assert_eq!(state.missing_files, Some(2));
    state.file_received();
    assert!(state.waiting());
    state.file_received();
    assert!(!state.waiting());
    let mut state = ClientState::new();
    assert!(state.evaluation_done(&vec![true]).is_empty());
    assert!(!state.waiting());
}

#[test]
fn content_prefix_keeps_the_beginning() {
    let mut p = ContentPrefix::new(5);
    p.add_chunk(b"abc");
    assert_eq!(p.content(), &b"abc".to_vec());
    p.add_chunk(b"defgh");
    assert_eq!(p.content(), &b"abcde".to_vec());
    p.add_chunk(b"xyz");
    assert_eq!(p.content(), &b"abcde".to_vec());
    let mut none = ContentPrefix::new(0);
    none.add_chunk(b"abc");
    assert!(none.content().is_empty());
}

#[test]
fn failed_files_are_written_only_when_allowed() {
    assert!(should_write_file(true, false));
    assert!(should_write_file(false, true));
    assert!(!should_write_file(false, false));
}
