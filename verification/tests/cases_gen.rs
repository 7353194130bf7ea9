use task_maker::cases_gen::{
    check_float, parse_cases_gen, CasesGenError, CasesGenParser, CasesLine, ConstraintOperand, ConstraintOperator,
    ManagerKind, PathFact,
};
use task_maker::ioi::{InputGenerator, InputValidator, OfficialOutput, OutputGenerator, SourceFile, TaskInputEntry};

const EXAMPLE: &str = ": GEN default gen/generator.py N M seed
: GEN line gen/line.py N seed
: GEN hard gen/hard.py

: VAL default gen/validator.py
: VAL line gen/val_line.py $INPUT $ST_NUM # same as default

: CONSTRAINT 1 <= $N <= 1000
: CONSTRAINT 1 <= $M <= 1000000

: SUBTASK 0 Examples
: COPY gen/example1.in
: COPY gen/example2.in

: SUBTASK 30 Nodes are in a line
: GEN line
: VAL line
: CONSTRAINT $N <= 500
500   101
500   102

: SUBTASK 70
1000   1000      201
1000   1000000   202
: RUN hard 1000 1000 95% 12.3 203
";

fn facts() -> Vec<PathFact> {
    [
        "gen/generator.py",
        "gen/line.py",
        "gen/hard.py",
        "gen/validator.py",
        "gen/val_line.py",
        "gen/example1.in",
        "gen/example2.in",
    ]
    .iter()
    .map(|p| PathFact { path: p.to_string(), exists: true, known_language: true })
    .collect()
}

fn official() -> OfficialOutput {
    OfficialOutput::Solution(SourceFile { path: "sol/solution.cpp".to_string() })
}

fn subtask(e: &TaskInputEntry) -> (u32, Option<String>, String) {
    match e {
        TaskInputEntry::Subtask(s) => (s.id, s.description.clone(), s.max_score.clone()),
        _ => panic!("expected a subtask, got {:?}", e),
    }
}

fn testcase(e: &TaskInputEntry) -> (u32, String, Vec<String>, String, Vec<String>) {
    match e {
        TaskInputEntry::Testcase(t) => {
            let (input, args) = match &t.input_generator {
                InputGenerator::StaticFile(p) => (p.clone(), vec![]),
                InputGenerator::Custom(s, a) => (s.path.clone(), a.clone()),
            };
            let (val, val_args) = match &t.input_validator {
                InputValidator::AssumeValid => (String::new(), vec![]),
                InputValidator::Custom(s, a) => (s.path.clone(), a.clone()),
            };
            match &t.output_generator {
                OutputGenerator::Custom(s, a) => {
                    assert_eq!(s.path, "sol/solution.cpp");
                    assert!(a.is_empty());
                }
                _ => panic!("expected the official solution"),
            }
            (t.id, input, args, val, val_args)
        }
        _ => panic!("expected a testcase, got {:?}", e),
    }
}

fn strings(v: &[&str]) -> Vec<String> {
    v.iter().map(|s| s.to_string()).collect()
}

#[test]
fn documented_example() {
    let cases = parse_cases_gen(EXAMPLE, &facts(), &official()).unwrap();
    let r = &cases.result;
    assert_eq!(r.len(), 10);
    assert_eq!(subtask(&r[0]), (0, Some("Examples".to_string()), "0".to_string()));
    let v0 = strings(&["tm_validation_file", "0"]);
    assert_eq!(testcase(&r[1]), (0, "gen/example1.in".to_string(), vec![], "gen/validator.py".to_string(), v0.clone()));
    assert_eq!(testcase(&r[2]), (1, "gen/example2.in".to_string(), vec![], "gen/validator.py".to_string(), v0));
    assert_eq!(subtask(&r[3]), (1, Some("Nodes are in a line".to_string()), "30".to_string()));
    let v1 = strings(&["tm_validation_file", "1"]);
    assert_eq!(testcase(&r[4]), (2, "gen/line.py".to_string(), strings(&["500", "101"]), "gen/val_line.py".to_string(), v1.clone()));
    assert_eq!(testcase(&r[5]), (3, "gen/line.py".to_string(), strings(&["500", "102"]), "gen/val_line.py".to_string(), v1));
    assert_eq!(subtask(&r[6]), (2, None, "70".to_string()));
    let v2 = strings(&["tm_validation_file", "2"]);
    assert_eq!(testcase(&r[7]), (4, "gen/generator.py".to_string(), strings(&["1000", "1000", "201"]), "gen/validator.py".to_string(), v2.clone()));
    assert_eq!(testcase(&r[8]), (5, "gen/generator.py".to_string(), strings(&["1000", "1000000", "202"]), "gen/validator.py".to_string(), v2.clone()));
    assert_eq!(
        testcase(&r[9]),
        (6, "gen/hard.py".to_string(), strings(&["1000", "1000", "95%", "12.3", "203"]), "gen/validator.py".to_string(), v2)
    );
    assert_eq!(cases.constraints.len(), 3);
    let c = &cases.constraints[2];
    assert!(matches!(&c.operands[0], ConstraintOperand::Variable(n) if n == "N"));
    assert!(matches!(c.operands[1], ConstraintOperand::Constant(500)));
    assert_eq!(c.operators, vec![ConstraintOperator::LessEqual]);
    assert_eq!(cases.default_generator.as_deref(), Some("default"));
    assert_eq!(cases.generators.len(), 3);
    assert_eq!(cases.generators[1].1.args, strings(&["N", "seed"]));
}

#[test]
fn lines_are_classified() {
    let lines = CasesGenParser::parse("# comment\n  \n:SUBTASK 5\n: COPY a b\n: FOO\n1 2 # x\n");
    assert_eq!(lines.len(), 7);
    assert!(matches!(lines[0], CasesLine::Empty));
    assert!(matches!(lines[1], CasesLine::Empty));
    assert!(matches!(&lines[2], CasesLine::Subtask { score, description: None } if score == "5"));
    assert!(matches!(lines[3], CasesLine::Invalid));
    assert!(matches!(lines[4], CasesLine::Invalid));
    assert!(matches!(&lines[5], CasesLine::Testcase(t) if t == "1 2 "));
    assert!(matches!(lines[6], CasesLine::Empty));
}

fn error(content: &str) -> CasesGenError {
    match parse_cases_gen(content, &facts(), &official()) {
        Err(e) => e,
        Ok(c) => panic!("expected an error, got {:?}", c),
    }
}

#[test]
fn errors() {
    assert!(matches!(error(": SUBTASK 10\n: FOO bar\n: COPY missing.in\n"), CasesGenError::Syntax { line: 2 }));
    assert!(matches!(error(": SUBTASK 10\n: COPY missing.in\n"), CasesGenError::MissingCopy { path } if path == "missing.in"));
    assert!(matches!(error(": SUBTASK 10\n1 2 3\n"), CasesGenError::NoCurrentGenerator));
    assert!(matches!(error(": RUN nope 1\n"), CasesGenError::UndeclaredGenerator { name } if name == "nope"));
    assert!(matches!(error(": GEN line\n"), CasesGenError::UnknownManager { kind: ManagerKind::Generator, name } if name == "line"));
    assert!(matches!(
        error(": VAL v gen/missing.py\n"),
        CasesGenError::MissingManagerFile { kind: ManagerKind::Validator, name, path } if name == "v" && path == "gen/missing.py"
    ));
    assert!(matches!(error(": CONSTRAINT 1 < $N > 3\n"), CasesGenError::MixedDirections));
    assert!(matches!(error(": CONSTRAINT 1 <= <= 3\n"), CasesGenError::OperatorCount));
    assert!(matches!(error(": CONSTRAINT 5\n"), CasesGenError::TooFewOperands));
    assert!(matches!(
        error(": CONSTRAINT 1 <= 99999999999999999999\n"),
        CasesGenError::InvalidConstant { constant, .. } if constant == "99999999999999999999"
    ));
    assert!(matches!(error(": SUBTASK 1 one\n: SUBTASK abc\n"), CasesGenError::InvalidScore { subtask: 1 }));
    assert!(matches!(
        error(": GEN default gen/generator.py\n: RUN default \"abc\n"),
        CasesGenError::InvalidRunArguments { .. }
    ));
    let unknown = vec![PathFact { path: "gen/g.xyz".to_string(), exists: true, known_language: false }];
    assert!(matches!(
        parse_cases_gen(": GEN g gen/g.xyz\n", &unknown, &official()),
        Err(CasesGenError::UnknownLanguage { kind: ManagerKind::Generator, .. })
    ));
}

#[test]
fn float_scores() {
    for ok in ["0", "30", "12.5", ".5", "5.", "+1e3", "-2.5E-3", "inf", "-Infinity", "NaN"] {
        assert!(check_float(ok), "{} should be a number", ok);
        assert!(ok.parse::<f64>().is_ok());
    }
    for bad in ["", ".", "e5", "1e", "1.2.3", "abc", "1 2", "--1", "infinit"] {
        assert!(!check_float(bad), "{} should not be a number", bad);
        assert!(bad.parse::<f64>().is_err());
    }
}
