use task_maker::sanity::{
    find_subtasks_by_pattern_name, AttGraders, CheckEndWithNewLine, ExpectedScore, IOEndWithNewLine,
    SanityCheckCategory, SolutionsWithSamplesCheck, SubtaskCheck, SubtaskDependencies,
};

fn check_file(chunks: &[&[u8]]) -> Vec<String> {
    let mut check = CheckEndWithNewLine::new("file.txt".to_string(), vec!["before.txt".to_string()]);
    for chunk in chunks {
        check.add_chunk(chunk);
    }
    check.add_chunk(b"");
    check.list().clone()
}

#[test]
fn end_with_new_line() {
    assert_eq!(check_file(&[b"abc"]), vec!["before.txt", "file.txt"]);
    assert_eq!(check_file(&[b"abc\n"]), vec!["before.txt"]);
    assert_eq!(check_file(&[b"abc\n", b"def"]), vec!["before.txt", "file.txt"]);
    assert_eq!(check_file(&[b"abc", b"def\n"]), vec!["before.txt"]);
    assert_eq!(check_file(&[]), vec!["before.txt"]);
    assert_eq!(check_file(&[b"bin\x00ary"]), vec!["before.txt"]);
}

#[test]
fn names_and_categories() {
    assert_eq!(AttGraders.name(), "AttGraders");
    assert_eq!(SolutionsWithSamplesCheck.name(), "SolutionsWithSamplesChecks");
    assert_eq!(SolutionsWithSamplesCheck.category(), SanityCheckCategory::Solutions);
    assert_eq!(SubtaskDependencies.category(), SanityCheckCategory::Task);
    assert_eq!(IOEndWithNewLine::default().category(), SanityCheckCategory::Io);
}

#[test]
fn subtasks_by_pattern() {
    let subtasks = vec![
        (0, Some("st1".to_string())),
        (1, None),
        (2, Some("other".to_string())),
        (3, Some("st2".to_string())),
    ];
    assert_eq!(find_subtasks_by_pattern_name("st*", &subtasks), vec![0, 3]);
    assert_eq!(find_subtasks_by_pattern_name("?t1", &subtasks), vec![0]);
    assert_eq!(find_subtasks_by_pattern_name("*", &subtasks), vec![0, 2, 3]);
    assert_eq!(find_subtasks_by_pattern_name("nothing", &subtasks), Vec::<u32>::new());
    // the pattern is normalized before matching
    assert_eq!(find_subtasks_by_pattern_name("\u{FF53}t2", &subtasks), vec![3]);
}

fn check(expected: ExpectedScore, subtasks: Vec<u32>) -> SubtaskCheck {
    SubtaskCheck { expected, subtasks }
}

#[test]
fn subtask_dependencies() {
    let report = SubtaskDependencies.analyze(&vec![1, 2, 3], &vec![vec![], vec![]]);
    assert!(report.same_solutions.is_empty());
    assert!(report.out_of_order.is_empty());

    let sols = vec![
        vec![check(ExpectedScore::Full, vec![1, 2, 3])],
        vec![check(ExpectedScore::Full, vec![1]), check(ExpectedScore::Zero, vec![2, 3])],
    ];
    let report = SubtaskDependencies.analyze(&vec![1, 2, 3], &sols);
    assert_eq!(report.same_solutions, vec![vec![2, 3]]);
    assert!(report.out_of_order.is_empty());

    let sols = vec![vec![check(ExpectedScore::Zero, vec![1]), check(ExpectedScore::Full, vec![2])]];
    let report = SubtaskDependencies.analyze(&vec![1, 2], &sols);
    assert!(report.same_solutions.is_empty());
    assert_eq!(report.out_of_order, vec![(1, 2)]);
}
