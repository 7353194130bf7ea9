use task_maker::gen_toml::{
    default_generator, default_repeat, default_validator, default_validator_args, detect_validator, file_name, get_generator,
    CommandLineArguments,
    ConstValue, GenConfig, GroupConfig, SamplesConfig, SourceError, SubtaskConfig, TestCase,
};
use task_maker::ioi::{InputGenerator, InputValidator, OutputGenerator, SourceFile};
use task_maker::toml_resolve::{
    first_undeclared_subtask, generator_names, resolve, stops_at_undeclared_group, validator_names, GenTomlError,
};

fn group(copy: Vec<&str>, testcases: Vec<TestCase>, inclusions: Vec<&str>) -> GroupConfig {
    GroupConfig {
        repeat: default_repeat(),
        generator: None,
        inclusions: inclusions.into_iter().map(|s| s.to_string()).collect(),
        copy: copy.into_iter().map(|s| s.to_string()).collect(),
        testcases,
        local_constants: vec![],
    }
}

fn subtask(score: &str, inclusions: Vec<&str>) -> SubtaskConfig {
    SubtaskConfig { score: score.to_string(), group: group(vec![], vec![], inclusions), validator: None, validator_args: None }
}

fn config() -> GenConfig {
    GenConfig {
        generator: default_generator(),
        validator: default_validator(),
        validator_args: default_validator_args(),
        samples: SamplesConfig::Simple(2),
        group: vec![(
            "small".to_string(),
            group(
                vec!["gen/a.in"],
                vec![
                    TestCase::Args(CommandLineArguments::SpaceSeparated("5 $SEED".to_string())),
                    TestCase::Detailed {
                        generator: None,
                        args: CommandLineArguments::List(vec!["7".to_string(), "$#".to_string()]),
                        group_name: None,
                        repeat: Some(2),
                    },
                ],
                vec![],
            ),
        )],
        subtask: vec![
            ("st1".to_string(), subtask("30", vec!["samples", "small"])),
            ("st2".to_string(), subtask("70", vec!["*"])),
        ],
        constants: vec![("SEED".to_string(), ConstValue::Text("42".to_string()))],
    }
}

fn sources(name: &str, path: &str) -> Vec<(String, Vec<SourceFile>)> {
    vec![(name.to_string(), vec![SourceFile { path: path.to_string() }])]
}

fn static_path(g: &InputGenerator) -> String {
    match g {
        InputGenerator::StaticFile(p) => p.clone(),
        _ => panic!("expected a static input"),
    }
}

fn generated_args(g: &InputGenerator) -> Vec<String> {
    match g {
        InputGenerator::Custom(s, args) => {
            assert_eq!(s.path, "gen/generator.py");
            args.clone()
        }
        _ => panic!("expected a generated input"),
    }
}

#[test]
fn defaults() {
    assert_eq!(default_generator(), "generator");
    assert_eq!(default_validator(), "validator");
    assert_eq!(default_repeat(), 1);
    match default_validator_args() {
        CommandLineArguments::List(v) => assert_eq!(v, vec!["$FILENAME#", "$SUBTASK_NAME#"]),
        _ => panic!("expected a list"),
    }
}

#[test]
fn resolves_testcases_and_subtasks() {
    let cfg = config();
    assert!(first_undeclared_subtask(&cfg, "task").is_none());
    assert_eq!(generator_names(&cfg, "task"), vec!["generator"]);
    assert_eq!(validator_names(&cfg), vec!["validator"]);
    let og = OutputGenerator::Custom(SourceFile { path: "sol/solution.cpp".to_string() }, vec![]);
    assert!(!stops_at_undeclared_group(
        &cfg,
        "task",
        &og,
        &sources("generator", "gen/generator.py"),
        &sources("validator", "gen/validator.py"),
    ));
    let (subs, tcs) = resolve(
        &cfg,
        "task",
        &og,
        &sources("generator", "gen/generator.py"),
        &sources("validator", "gen/validator.py"),
    )
    .unwrap();
    assert_eq!(tcs.len(), 6);
    for (i, tc) in tcs.iter().enumerate() {
        assert_eq!(tc.id as usize, i);
    }
    assert_eq!(static_path(&tcs[0].input_generator), "statement/task.input0.txt");
    assert_eq!(static_path(&tcs[1].input_generator), "statement/task.input1.txt");
    assert_eq!(static_path(&tcs[2].input_generator), "gen/a.in");
    assert_eq!(generated_args(&tcs[3].input_generator), vec!["5", "42"]);
    assert_eq!(generated_args(&tcs[4].input_generator), vec!["7", "4"]);
    assert_eq!(generated_args(&tcs[5].input_generator), vec!["7", "5"]);

    assert_eq!(subs.len(), 2);
    assert_eq!(subs[0].id, 0);
    assert_eq!(subs[0].name.as_deref(), Some("st1"));
    assert_eq!(subs[0].max_score, "30");
    assert_eq!(subs[0].testcases, vec![0, 1, 2, 3, 4, 5]);
    assert_eq!(subs[0].testcases_owned, vec![0, 1, 2, 3, 4, 5]);
    assert_eq!(subs[1].testcases, vec![0, 1, 2, 3, 4, 5]);
    assert!(subs[1].testcases_owned.is_empty());
    match &subs[1].input_validator {
        InputValidator::Custom(v, args) => {
            assert_eq!(v.path, "gen/validator.py");
            assert_eq!(args, &vec!["tm_validation_file".to_string(), "st2".to_string()]);
        }
        _ => panic!("expected a custom validator"),
    }
}

#[test]
fn unused_testcases_and_unknown_groups() {
    let mut cfg = config();
    cfg.subtask = vec![("st1".to_string(), subtask("100", vec!["small"]))];
    let res = resolve(&cfg, "task", &OutputGenerator::NotAvailable, &sources("generator", "g.py"), &sources("validator", "v.py"));
    match res {
        Err(GenTomlError::UnusedTestcase { testcase, group }) => {
            assert_eq!(testcase, 0);
            assert_eq!(group, "samples");
        }
        other => panic!("unexpected result {:?}", other.map(|_| ())),
    }
    cfg.subtask = vec![("st1".to_string(), subtask("100", vec!["samples", "small", "missing"]))];
    let res = resolve(&cfg, "task", &OutputGenerator::NotAvailable, &sources("generator", "g.py"), &sources("validator", "v.py"));
    match res {
        Err(GenTomlError::UnknownGroup { group, subtask }) => {
            assert_eq!(group, "missing");
            assert_eq!(subtask, "st1");
        }
        other => panic!("unexpected result {:?}", other.map(|_| ())),
    }
}

#[test]
fn missing_generator_is_reported() {
    let cfg = config();
    let res = resolve(&cfg, "task", &OutputGenerator::NotAvailable, &vec![], &sources("validator", "v.py"));
    match res {
        Err(GenTomlError::Testcase { index, group, .. }) => {
            assert_eq!(index, 0);
            assert_eq!(group, "small");
        }
        other => panic!("unexpected result {:?}", other.map(|_| ())),
    }
    let e = get_generator("gen", vec![]).unwrap_err();
    assert!(matches!(&e, SourceError::Missing(n) if n == "gen"));
    assert_eq!(e.message("generator"), "No generator `gen` found");
    let two = vec![SourceFile { path: "gen/gen.py".to_string() }, SourceFile { path: "gen/gen.cpp".to_string() }];
    let e = get_generator("gen", two).unwrap_err();
    assert!(matches!(&e, SourceError::Multiple(v) if v == &vec!["gen.py", "gen.cpp"]));
    assert_eq!(e.message("generator"), "Multiple generators found: [\"gen.py\", \"gen.cpp\"]");
    let e = detect_validator("val", vec![]).unwrap_err();
    assert_eq!(e.message("validator"), "No validator `val` found");
    assert_eq!(file_name("a/b/c.txt"), "c.txt");
    assert_eq!(file_name("plain"), "plain");
}

#[test]
fn undeclared_group_stops_only_when_reached_first() {
    let mut cfg = config();
    if let TestCase::Detailed { group_name, .. } = &mut cfg.group[0].1.testcases[1] {
        *group_name = Some("extra".to_string());
    }
    assert_eq!(first_undeclared_subtask(&cfg, "task"), Some(1));
    let og = OutputGenerator::Custom(SourceFile { path: "sol/solution.cpp".to_string() }, vec![]);
    let gens = sources("generator", "gen/generator.py");
    assert!(stops_at_undeclared_group(&cfg, "task", &og, &gens, &sources("validator", "gen/validator.py")));
    // without a validator the first subtask fails before the walk reaches the group
    let none: Vec<(String, Vec<SourceFile>)> = vec![];
    assert!(!stops_at_undeclared_group(&cfg, "task", &og, &gens, &none));
    assert!(matches!(resolve(&cfg, "task", &og, &gens, &none), Err(GenTomlError::Validator { .. })));
}

#[test]
fn repeats_are_written_out_once() {
    let mut g = group(
        vec![],
        vec![
            TestCase::Args(CommandLineArguments::SpaceSeparated("1".to_string())),
            TestCase::Detailed {
                generator: None,
                args: CommandLineArguments::SpaceSeparated("2".to_string()),
                group_name: None,
                repeat: Some(3),
            },
        ],
        vec![],
    );
    g.repeat = 2;
    g.resolve_repeats();
    assert_eq!(g.repeat, 1);
    assert_eq!(g.testcases.len(), 5);
    let first = format!("{:?}", g.testcases);
    g.resolve_repeats();
    assert_eq!(g.repeat, 1);
    assert_eq!(format!("{:?}", g.testcases), first);
}

#[test]
fn resolution_error_messages() {
    let mut cfg = config();
    cfg.subtask = vec![("st1".to_string(), subtask("100", vec!["samples"]))];
    let og = OutputGenerator::NotAvailable;
    let gens = sources("generator", "gen/generator.py");
    let vals = sources("validator", "gen/validator.py");
    let e = resolve(&cfg, "task", &og, &gens, &vals).unwrap_err();
    assert!(matches!(&e, GenTomlError::UnusedTestcase { testcase: 2, .. }));
    assert_eq!(e.message(), "Testcase 2, from group small, is never used.");
    cfg.subtask = vec![("st1".to_string(), subtask("100", vec!["samples", "small", "nope"]))];
    let e = resolve(&cfg, "task", &og, &gens, &vals).unwrap_err();
    assert_eq!(e.message(), "unknown group nope when computing testcases for subtask st1");
}

#[test]
fn names_equal_once_normalized_are_merged() {
    let mut cfg = config();
    cfg.group.push((" small ".to_string(), group(vec!["gen/b.in"], vec![], vec![])));
    cfg.group.push(("big".to_string(), group(vec!["gen/c.in"], vec![], vec![])));
    let cfg = cfg.clean_names().unwrap().merge_names();
    let names: Vec<&str> = cfg.group.iter().map(|g| g.0.as_str()).collect();
    assert_eq!(names, vec!["small", "big"]);
    assert_eq!(cfg.group[0].1.copy, vec!["gen/b.in".to_string()]);
}
