use task_maker::samples::{get_sample_files, sample_number_of};

fn strings(v: &[&str]) -> Vec<String> {
    v.iter().map(|s| s.to_string()).collect()
}

#[test]
fn sample_numbers() {
    assert_eq!(sample_number_of("att/input0.txt"), Some(0));
    assert_eq!(sample_number_of("/task/att/output12.txt"), Some(12));
    assert_eq!(sample_number_of("att/sample.input007.txt"), Some(7));
    assert_eq!(sample_number_of("att/inputX.txt"), None);
    assert_eq!(sample_number_of("att/input1.txt.bak"), None);
    assert_eq!(sample_number_of("att/input.txt"), None);
    assert_eq!(sample_number_of("att/in9put1.txt"), None);
    assert_eq!(sample_number_of("att/input\u{663}.txt"), None);
    assert_eq!(sample_number_of("att/input99999999999.txt"), None);
}

#[test]
fn samples_are_paired() {
    let inputs = strings(&["att/input2.txt", "att/input1.txt", "att/input0.txt", "att/sample.input1.txt", "att/inputX.txt"]);
    let outputs = strings(&["att/output3.txt", "att/output0.txt", "att/output2.txt"]);
    let res = get_sample_files(&inputs, &outputs);
    assert_eq!(
        res.pairs,
        vec![
            ("att/input0.txt".to_string(), "att/output0.txt".to_string()),
            ("att/input2.txt".to_string(), "att/output2.txt".to_string()),
        ]
    );
    let diags: Vec<(String, Option<String>)> = res.diagnostics.into_iter().map(|d| (d.message, d.note)).collect();
    assert_eq!(
        diags,
        vec![
            (
                "Sample input 1 is present more than once".to_string(),
                Some("Found at: att/input1.txt, att/sample.input1.txt".to_string())
            ),
            ("Sample input file att/input1.txt does not have its output file".to_string(), None),
            ("Sample output file att/output3.txt does not have its input file".to_string(), None),
        ]
    );
}

#[test]
fn duplicate_outputs() {
    let inputs = strings(&["att/input5.txt"]);
    let outputs = strings(&["att/output5.txt", "att/b.output5.txt", "att/c.output5.txt"]);
    let res = get_sample_files(&inputs, &outputs);
    assert_eq!(res.pairs, vec![("att/input5.txt".to_string(), "att/output5.txt".to_string())]);
    assert_eq!(res.diagnostics.len(), 1);
    assert_eq!(res.diagnostics[0].message, "Sample output 5 is present more than once");
    assert_eq!(
        res.diagnostics[0].note.as_deref(),
        Some("Found at: att/output5.txt, att/b.output5.txt, att/c.output5.txt")
    );
    let res = get_sample_files(&vec![], &vec![]);
    assert!(res.pairs.is_empty() && res.diagnostics.is_empty());
}
