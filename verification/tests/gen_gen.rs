use task_maker::gen_gen::{gen_gen_generator, input_source, parse_gen_gen, static_inputs, GeneratorSearchError, InputSource};
use task_maker::ioi::{InputGenerator, InputValidator, OfficialOutput, OutputGenerator, SourceFile, TaskInputEntry};

fn generator() -> SourceFile {
    SourceFile { path: "gen/generator.py".to_string() }
}

fn official() -> OfficialOutput {
    OfficialOutput::Solution(SourceFile { path: "a.py".to_string() })
}

fn get_entries(content: &str) -> Vec<TaskInputEntry> {
    parse_gen_gen(content, &generator(), &None, &official()).unwrap()
}

fn expect_args(entry: &TaskInputEntry, id: u32, expected: &[&str]) {
    match entry {
        TaskInputEntry::Testcase(testcase) => {
            assert_eq!(testcase.id, id);
            match &testcase.input_generator {
                InputGenerator::Custom(source, args) => {
                    assert_eq!(source.path, "gen/generator.py");
                    let expected: Vec<String> = expected.iter().map(|s| s.to_string()).collect();
                    assert_eq!(args, &expected);
                }
                InputGenerator::StaticFile(_) => panic!("Invalid generator"),
            }
            assert!(matches!(testcase.input_validator, InputValidator::AssumeValid));
            match &testcase.output_generator {
                OutputGenerator::Custom(source, args) => {
                    assert_eq!(source.path, "a.py");
                    assert!(args.is_empty());
                }
                _ => panic!("Invalid output generator"),
            }
        }
        _ => panic!("Wrong entries returned: {:?}", entry),
    }
}

fn expect_copy(entry: &TaskInputEntry, id: u32, path: &str) {
    match entry {
        TaskInputEntry::Testcase(testcase) => {
            assert_eq!(testcase.id, id);
            match &testcase.input_generator {
                InputGenerator::StaticFile(p) => assert_eq!(p, path),
                InputGenerator::Custom(_, _) => panic!("Invalid generator"),
            }
        }
        _ => panic!("Wrong entries returned: {:?}", entry),
    }
}

fn expect_subtask(entry: &TaskInputEntry, id: u32, score: &str) {
    match entry {
        TaskInputEntry::Subtask(subtask) => {
            assert_eq!(subtask.id, id);
            assert_eq!(subtask.max_score, score);
        }
        _ => panic!("Wrong entries returned: {:?}", entry),
    }
}

#[test]
fn test_parser_single_line() {
    let entries = get_entries("1234\n");
    assert_eq!(entries.len(), 2, "Wrong entries returned: {:?}", entries);
    expect_subtask(&entries[0], 0, "100");
    expect_args(&entries[1], 0, &["1234"]);
}

#[test]
fn test_parser_single_line_without_ending_lf() {
    let entries = get_entries("1234");
    assert_eq!(entries.len(), 2, "Wrong entries returned: {:?}", entries);
    expect_subtask(&entries[0], 0, "100");
    expect_args(&entries[1], 0, &["1234"]);
}

#[test]
fn test_parser_single_line_with_comments() {
    let entries = get_entries("# this is a comment\n1234\n# this is a comment too\n");
    assert_eq!(entries.len(), 2, "Wrong entries returned: {:?}", entries);
    expect_subtask(&entries[0], 0, "100");
    expect_args(&entries[1], 0, &["1234"]);
}

#[test]
fn test_parser_comment_empty() {
    let entries = get_entries("#\n1234\n#\n");
    assert_eq!(entries.len(), 2, "Wrong entries returned: {:?}", entries);
    expect_subtask(&entries[0], 0, "100");
    expect_args(&entries[1], 0, &["1234"]);
}

#[test]
fn test_parser_comment_empty_no_ending_lf() {
    let entries = get_entries("#\n1234\n#");
    assert_eq!(entries.len(), 2, "Wrong entries returned: {:?}", entries);
    expect_subtask(&entries[0], 0, "100");
    expect_args(&entries[1], 0, &["1234"]);
}

#[test]
fn test_parser_line_with_comment() {
    let entries = get_entries("1234 # normal comment\n5678 #risky comment");
    assert_eq!(entries.len(), 3, "Wrong entries returned: {:?}", entries);
    expect_subtask(&entries[0], 0, "100");
    expect_args(&entries[1], 0, &["1234"]);
    expect_args(&entries[2], 1, &["5678"]);
}

#[test]
fn test_parser_multiple_lines() {
    let entries = get_entries("1234\n5678\n");
    assert_eq!(entries.len(), 3, "Wrong entries returned: {:?}", entries);
    expect_subtask(&entries[0], 0, "100");
    expect_args(&entries[1], 0, &["1234"]);
    expect_args(&entries[2], 1, &["5678"]);
}

#[test]
fn test_parser_copy() {
    let entries = get_entries("#COPY: random/file\n5678\n");
    assert_eq!(entries.len(), 3, "Wrong entries returned: {:?}", entries);
    expect_subtask(&entries[0], 0, "100");
    expect_copy(&entries[1], 0, "random/file");
    expect_args(&entries[2], 1, &["5678"]);
}

#[test]
fn test_parser_subtasks() {
    let entries = get_entries("#ST: 123\n#COPY: random/file\n5678\n#ST: 321\n1234\n");
    assert_eq!(entries.len(), 5, "Wrong entries returned: {:?}", entries);
    expect_subtask(&entries[0], 0, "123");
    expect_copy(&entries[1], 0, "random/file");
    expect_args(&entries[2], 1, &["5678"]);
    expect_subtask(&entries[3], 1, "321");
    expect_args(&entries[4], 2, &["1234"]);
}

#[test]
fn test_parser_empty_lines() {
    let entries = get_entries("\n\n1234\n\n\n5678\n\n");
    assert_eq!(entries.len(), 3, "Wrong entries returned: {:?}", entries);
    expect_subtask(&entries[0], 0, "100");
    expect_args(&entries[1], 0, &["1234"]);
    expect_args(&entries[2], 1, &["5678"]);
}

#[test]
fn test_parser_spaces_before_and_after() {
    let entries = get_entries("  \t 1234\t  \t\n");
    assert_eq!(entries.len(), 2, "Wrong entries returned: {:?}", entries);
    expect_subtask(&entries[0], 0, "100");
    expect_args(&entries[1], 0, &["1234"]);
}

#[test]
fn generated_testcase_needs_a_solution_when_outputs_are_static() {
    let res = parse_gen_gen("1234\n", &generator(), &None, &OfficialOutput::StaticFiles);
    assert!(res.is_err());
    let res = parse_gen_gen("#COPY: a/b\n", &generator(), &None, &OfficialOutput::StaticFiles).unwrap();
    match &res[1] {
        TaskInputEntry::Testcase(t) => match &t.output_generator {
            OutputGenerator::StaticFile(p) => assert_eq!(p, "output/output0.txt"),
            _ => panic!("expected a static output"),
        },
        _ => panic!("expected a testcase"),
    }
}

#[test]
fn validator_gets_one_based_subtask() {
    let validator = Some(SourceFile { path: "gen/validator.py".to_string() });
    let res = parse_gen_gen("#ST: 10\n1\n#ST: 90\n2\n", &generator(), &validator, &official()).unwrap();
    match &res[3] {
        TaskInputEntry::Testcase(t) => match &t.input_validator {
            InputValidator::Custom(v, args) => {
                assert_eq!(v.path, "gen/validator.py");
                assert_eq!(args, &vec!["tm_validation_file".to_string(), "2".to_string()]);
            }
            _ => panic!("expected a custom validator"),
        },
        _ => panic!("expected a testcase"),
    }
}

#[test]
fn test_some_inputs() {
    let entries = static_inputs(3, &None, &OfficialOutput::StaticFiles);
    assert_eq!(entries.len(), 4, "Wrong entries returned: {:?}", entries);
    expect_subtask(&entries[0], 0, "100");
    expect_copy(&entries[1], 0, "input/input0.txt");
    expect_copy(&entries[2], 1, "input/input1.txt");
    expect_copy(&entries[3], 2, "input/input2.txt");
}

#[test]
fn test_no_input() {
    let entries = static_inputs(0, &None, &OfficialOutput::StaticFiles);
    assert_eq!(entries.len(), 1, "Wrong entries returned: {:?}", entries);
    expect_subtask(&entries[0], 0, "100");
}

#[test]
fn gen_gen_generator_search() {
    let e = gen_gen_generator(vec![]).unwrap_err();
    assert!(matches!(e, GeneratorSearchError::NotFound));
    assert_eq!(e.message(), "No generator found");
    let two = vec![SourceFile { path: "gen/generator.py".to_string() }, SourceFile { path: "gen/generator.cpp".to_string() }];
    let e = gen_gen_generator(two).unwrap_err();
    assert_eq!(e.message(), "Multiple generators found: [\"generator.py\", \"generator.cpp\"]");
    let one = gen_gen_generator(vec![SourceFile { path: "gen/generatore.c".to_string() }]).unwrap();
    assert_eq!(one.path, "gen/generatore.c");
    assert_eq!(input_source(true, true), InputSource::CasesGen);
    assert_eq!(input_source(false, true), InputSource::GenGen);
    assert_eq!(input_source(false, false), InputSource::StaticFiles);
}
