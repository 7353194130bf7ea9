use task_maker::att_samples::{
    check_att_samples, is_sample_file_name, sample_inputs_of_task, unique_sample_inputs, AttSample, SampleInput, Severity,
};
use task_maker::ioi::{InputGenerator, SourceFile};

fn linked(path: &str, resolved: &str) -> AttSample {
    AttSample {
        path: path.to_string(),
        link: Some(format!("../statement/{}", resolved)),
        broken: false,
        resolved: Some(resolved.to_string()),
        is_input: resolved.contains("input"),
    }
}

#[test]
fn samples_match_the_task() {
    let samples = vec![linked("att/input0.txt", "input0.txt"), linked("att/output0.txt", "output0.txt")];
    let task = vec![SampleInput { resolved: "input0.txt".to_string(), shown: "statement/input0.txt".to_string() }];
    let shown = vec!["statement/input0.txt".to_string(), "statement/output0.txt".to_string()];
    assert!(check_att_samples(&samples, &task, &shown).is_empty());
}

#[test]
fn problems_with_samples_are_reported() {
    let samples = vec![
        AttSample {
            path: "att/input1.txt".to_string(),
            link: Some("gone.txt".to_string()),
            broken: true,
            resolved: None,
            is_input: false,
        },
        AttSample {
            path: "att/input2.txt".to_string(),
            link: None,
            broken: false,
            resolved: Some("att/input2.txt".to_string()),
            is_input: true,
        },
    ];
    let task = vec![SampleInput { resolved: "input0.txt".to_string(), shown: "statement/input0.txt".to_string() }];
    let shown = vec!["att/input1.txt".to_string(), "att/input2.txt".to_string()];
    let report = check_att_samples(&samples, &task, &shown);
    assert_eq!(report.len(), 4);
    assert_eq!(report[0].severity, Severity::Error);
    assert_eq!(report[0].message, "Sample case att/input1.txt is a broken link");
    assert_eq!(report[0].note, Some("It points to gone.txt".to_string()));
    assert_eq!(report[1].severity, Severity::Warning);
    assert_eq!(report[1].message, "Sample case att/input2.txt is not a symlink");
    assert_eq!(report[2].message, "Missing samples in att/");
    assert_eq!(report[2].note, Some("Samples in the task, but not in att/: statement/input0.txt".to_string()));
    assert_eq!(report[3].message, "Missing samples in the task");
    assert_eq!(report[3].note, Some("Samples in att/, but not in the task: att/input2.txt".to_string()));
}

#[test]
fn no_samples_at_all() {
    let report = check_att_samples(&vec![], &vec![], &vec![]);
    assert_eq!(report.len(), 1);
    assert_eq!(report[0].message, "No sample file in att/");
}

#[test]
fn sample_inputs_come_from_static_files() {
    let inputs = vec![InputGenerator::StaticFile("a.txt".to_string()), InputGenerator::StaticFile("b.txt".to_string())];
    assert_eq!(sample_inputs_of_task(&inputs), vec!["a.txt".to_string(), "b.txt".to_string()]);
    let generated = vec![
        InputGenerator::StaticFile("a.txt".to_string()),
        InputGenerator::Custom(SourceFile { path: "gen/g.py".to_string() }, vec![]),
    ];
    assert!(sample_inputs_of_task(&generated).is_empty());
}

#[test]
fn sample_file_names_and_unique_inputs() {
    assert!(is_sample_file_name("input0.txt"));
    assert!(is_sample_file_name("task.output1.txt"));
    assert!(!is_sample_file_name("input0.in"));
    assert!(!is_sample_file_name("readme.txt"));
    assert!(!is_sample_file_name("inpu.txt"));
    let inputs = vec![
        SampleInput { resolved: "/t/b".to_string(), shown: "b".to_string() },
        SampleInput { resolved: "/t/a".to_string(), shown: "a1".to_string() },
        SampleInput { resolved: "/t/a".to_string(), shown: "a2".to_string() },
    ];
    let u = unique_sample_inputs(&inputs);
    assert_eq!(u.len(), 2);
    assert_eq!(u[0].resolved, "/t/a");
    assert_eq!(u[0].shown, "a1");
    assert_eq!(u[1].resolved, "/t/b");
}
