use task_maker::ioi::{
    Checker, InputGenerator, InputValidator, OutputGenerator, SubtaskInfo, TaskInputEntry, TestcaseInfo,
    TestcaseScoreAggregator, UserIo,
};
use task_maker::task::{assemble_subtasks, select_aggregator, TaskError};

fn subtask(id: u32) -> TaskInputEntry {
    TaskInputEntry::Subtask(SubtaskInfo { id, description: None, max_score: "50".to_string(), testcases: vec![] })
}

fn testcase(id: u32) -> TaskInputEntry {
    TaskInputEntry::Testcase(TestcaseInfo {
        id,
        input_generator: InputGenerator::StaticFile(format!("input/input{}.txt", id)),
        input_validator: InputValidator::AssumeValid,
        output_generator: OutputGenerator::NotAvailable,
    })
}

#[test]
fn checker_messages_are_translated() {
    assert_eq!(Checker::translate_checker_message("translate:success".to_string()), "Output is correct");
    assert_eq!(Checker::translate_checker_message("translate:partial".to_string()), "Output is partially correct");
    assert_eq!(Checker::translate_checker_message("translate:wrong".to_string()), "Output is incorrect");
    assert_eq!(Checker::translate_checker_message("Ok!".to_string()), "Ok!");
}

#[test]
fn aggregators() {
    assert!(matches!(TestcaseScoreAggregator::from_str("min"), Ok(TestcaseScoreAggregator::Min)));
    assert!(matches!(TestcaseScoreAggregator::from_str("sum"), Ok(TestcaseScoreAggregator::Sum)));
    assert!(matches!(TestcaseScoreAggregator::from_str("max"), Err(TaskError::InvalidScoreAggregator(s)) if s == "max"));
    assert!(matches!(select_aggregator(None, 1), Ok(TestcaseScoreAggregator::Sum)));
    assert!(matches!(select_aggregator(None, 3), Ok(TestcaseScoreAggregator::Min)));
    assert!(matches!(select_aggregator(Some("sum"), 3), Ok(TestcaseScoreAggregator::Sum)));
}

#[test]
fn user_io() {
    assert!(matches!(UserIo::std_io(), UserIo::StdIo));
    assert!(matches!(UserIo::fifo_io(), UserIo::FifoIo));
    assert!(matches!(UserIo::from_setting(None), Ok(UserIo::FifoIo)));
    assert!(matches!(UserIo::from_setting(Some("std_io")), Ok(UserIo::StdIo)));
    assert!(matches!(UserIo::from_setting(Some("pipes")), Err(TaskError::UnsupportedUserIo(s)) if s == "pipes"));
}

#[test]
fn subtasks_are_assembled() {
    let subs = assemble_subtasks(vec![subtask(0), testcase(0), testcase(1), subtask(1), testcase(2)]).unwrap();
    assert_eq!(subs.len(), 2);
    assert_eq!(subs[0].id, 0);
    assert_eq!(subs[0].testcases.iter().map(|t| t.id).collect::<Vec<_>>(), vec![0, 1]);
    assert_eq!(subs[1].testcases.iter().map(|t| t.id).collect::<Vec<_>>(), vec![2]);
    assert!(matches!(assemble_subtasks(vec![testcase(0), subtask(0)]), Err(TaskError::TestcaseBeforeSubtask)));
    assert!(assemble_subtasks(vec![]).unwrap().is_empty());
}
