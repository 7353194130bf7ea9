use task_maker::ioi::{BatchTypeData, Checker, CommunicationTypeData, SourceFile, TaskType, UserIo};
use task_maker::task::{
    default_infile, default_outfile, display_compilation_errors, parse_python_bool, python_bool_text,
    solution_file,
};

#[test]
fn yaml_defaults_and_booleans() {
    assert_eq!(default_infile(), "");
    assert_eq!(default_outfile(), "");
    assert_eq!(solution_file(String::new()), None);
    assert_eq!(solution_file("input.txt".to_string()), Some("input.txt".to_string()));
    assert_eq!(python_bool_text(true), "True");
    assert_eq!(python_bool_text(false), "False");
    assert_eq!(parse_python_bool("True"), Some(true));
    assert_eq!(parse_python_bool("False"), Some(false));
    assert_eq!(parse_python_bool("true"), None);
}

#[test]
fn compilation_errors() {
    assert_eq!(display_compilation_errors(&vec![]), "\t* ");
    assert_eq!(display_compilation_errors(&vec!["a".to_string()]), "\t* a");
    assert_eq!(
        display_compilation_errors(&vec!["a".to_string(), "b".to_string(), "c".to_string()]),
        "\t* a\n\t* b\n\t* c"
    );
}

#[test]
fn sources_to_prepare() {
    let checker = SourceFile { path: "check/checker.cpp".to_string() };
    let batch = TaskType::Batch(BatchTypeData { output_generator: None, checker: Checker::Custom(checker) });
    assert_eq!(batch.prepare_dag().map(|s| s.path.clone()), Some("check/checker.cpp".to_string()));
    let white = TaskType::Batch(BatchTypeData { output_generator: None, checker: Checker::WhiteDiff });
    assert!(white.prepare_dag().is_none());
    let comm = TaskType::Communication(CommunicationTypeData {
        manager: SourceFile { path: "check/manager.cpp".to_string() },
        num_processes: 2,
        user_io: UserIo::FifoIo,
    });
    assert_eq!(comm.prepare_dag().map(|s| s.path.clone()), Some("check/manager.cpp".to_string()));
    assert!(TaskType::NoTask.prepare_dag().is_none());
}
