use task_maker::subtask_checks::{
    att_directories, empty_title, invalid_subtask_names, missing_subtask_names, solutions_with_no_checks,
    solutions_with_samples_check, SolutionFacts, SubtaskFacts,
};

fn subtask(id: u32, name: Option<&str>, max_score: &str, has_span: bool) -> SubtaskFacts {
    SubtaskFacts { id, name: name.map(|n| n.to_string()), max_score: max_score.to_string(), has_span }
}

fn solution(path: &str, symlink: bool, patterns: &[&str]) -> SolutionFacts {
    SolutionFacts { path: path.to_string(), symlink, patterns: patterns.iter().map(|p| p.to_string()).collect() }
}

#[test]
fn missing_names_are_listed() {
    let subtasks = vec![subtask(0, Some("samples"), "0", false), subtask(1, None, "30", true), subtask(2, None, "70", false)];
    let (message, help) = missing_subtask_names(&subtasks).unwrap();
    assert_eq!(message, "These subtasks are missing a name: Subtask 1 (30 points), Subtask 2 (70 points)");
    assert!(help);
    assert!(missing_subtask_names(&vec![subtask(0, Some("a"), "100", false)]).is_none());
}

#[test]
fn invalid_names_are_reported() {
    let subtasks = vec![subtask(0, Some("samples"), "0", false), subtask(1, Some("easy"), "100", false)];
    let solutions = vec![solution("sol/a.cpp", false, &["easy", "hard"]), solution("sol/b.cpp", false, &["sam*"])];
    let errors = invalid_subtask_names(&subtasks, &solutions);
    assert_eq!(
        errors,
        vec![(
            "Invalid subtask name 'hard' in solution 'sol/a.cpp'".to_string(),
            "The valid names are: samples, easy".to_string()
        )]
    );
}

#[test]
fn title_must_not_be_empty() {
    assert_eq!(empty_title(""), Some("Missing task's title".to_string()));
    assert_eq!(empty_title("Task"), None);
}

#[test]
fn solutions_without_checks() {
    let subtasks = vec![subtask(0, Some("samples"), "0", false)];
    let solutions = vec![
        solution("sol/a.cpp", false, &[]),
        solution("sol/b.cpp", true, &[]),
        solution("sol/c.cpp", false, &["samples"]),
        solution("sol/d.py", false, &[]),
    ];
    assert_eq!(
        solutions_with_no_checks(&subtasks, &solutions),
        Some("The following solutions are missing the subtask checks: sol/a.cpp, sol/d.py".to_string())
    );
    let unnamed = vec![subtask(0, None, "0", false)];
    assert_eq!(solutions_with_no_checks(&unnamed, &solutions), None);
}

#[test]
fn checks_on_samples() {
    let subtasks = vec![subtask(1, Some("all"), "100", false), subtask(0, Some("samples"), "0", false)];
    let solutions = vec![solution("sol/a.cpp", false, &["samples", "all"]), solution("sol/b.cpp", false, &["all"])];
    assert_eq!(
        solutions_with_samples_check(&subtasks, &solutions),
        Some((
            "The following solutions have solution checks for the samples: sol/a.cpp".to_string(),
            "Subtask checks on samples are rarely useful.".to_string()
        ))
    );
    let no_samples = vec![subtask(1, Some("all"), "100", false)];
    assert_eq!(solutions_with_samples_check(&no_samples, &solutions), None);
}

#[test]
fn directories_in_attachments() {
    let entries = vec![("att/a.txt".to_string(), false), ("att/dir".to_string(), true)];
    assert_eq!(att_directories(&entries), vec!["Only file attachments are supported: att/dir is a directory".to_string()]);
}
