use task_maker::task_checks::{
    find_statement_pdf, has_grader, post_hook, pre_hook, too_many_links_message, FileEntry, GitListing,
    GraderEntry, PostHookFacts, PreHookFacts, SampleEntry, SolutionEntry, SourceEntry, StatementCandidate,
    SymlinkStep, SymlinkWalk,
};

fn facts() -> PreHookFacts {
    PreHookFacts {
        score_warning: None,
        task_name: "task".to_string(),
        graders: vec![],
        att_sources: vec![],
        samples: vec![SampleEntry { path: "att/input0.txt".to_string(), symlink: true, target_exists: true }],
        sol_sources: vec![],
        solutions: vec![SolutionEntry {
            path: "sol/solution.cpp".to_string(),
            file_name: "solution.cpp".to_string(),
            symlink: true,
        }],
    }
}

#[test]
fn clean_task_has_no_warning() {
    assert!(pre_hook(&facts()).is_empty());
}

#[test]
fn every_first_pass_warning_in_order() {
    let mut f = facts();
    f.score_warning = Some("The score of the task is 90 (not 100)".to_string());
    f.graders = vec![
        GraderEntry { extension: "cpp".to_string(), template_exists: true },
        GraderEntry { extension: "py".to_string(), template_exists: false },
    ];
    f.att_sources = vec![
        SourceEntry { stem: "grader".to_string(), grader: Some(("cpp".to_string(), false)) },
        SourceEntry { stem: "task".to_string(), grader: Some(("cpp".to_string(), false)) },
        SourceEntry { stem: "task".to_string(), grader: Some(("py".to_string(), true)) },
        SourceEntry { stem: "notes".to_string(), grader: None },
    ];
    f.samples = vec![
        SampleEntry { path: "att/input0.txt".to_string(), symlink: false, target_exists: false },
        SampleEntry { path: "att/output0.txt".to_string(), symlink: true, target_exists: false },
    ];
    f.sol_sources = vec![SourceEntry { stem: "sol".to_string(), grader: Some(("c".to_string(), false)) }];
    f.solutions = vec![
        SolutionEntry { path: "sol/solution.cpp".to_string(), file_name: "solution.cpp".to_string(), symlink: false },
        SolutionEntry { path: "sol/soluzione.py".to_string(), file_name: "soluzione.py".to_string(), symlink: true },
    ];
    assert!(has_grader(&f.graders));
    assert_eq!(
        pre_hook(&f),
        vec![
            "The score of the task is 90 (not 100)",
            "Missing grader at att/grader.cpp",
            "Missing template at att/task.py",
            "Sample case att/input0.txt is not a symlink",
            "Sample case att/output0.txt is a broken link",
            "Missing grader at sol/grader.c",
            "Solution sol/solution.cpp is not a symlink",
            "More than an official solution found: [\"solution.cpp\", \"soluzione.py\"]",
        ]
    );
}

#[test]
fn no_graders_no_grader_warning_and_no_samples() {
    let mut f = facts();
    f.att_sources = vec![SourceEntry { stem: "task".to_string(), grader: Some(("cpp".to_string(), false)) }];
    f.samples = vec![];
    assert!(!has_grader(&f.graders));
    assert_eq!(pre_hook(&f), vec!["No sample file in att/"]);
}

fn candidate(path: &str, exists: bool, symlink: bool, header: &[u8]) -> StatementCandidate {
    StatementCandidate { path: path.to_string(), exists, symlink, header: header.to_vec() }
}

#[test]
fn statement_checks() {
    let none = vec![
        candidate("statement/statement.pdf", false, false, b""),
        candidate("testo/testo.pdf", false, false, b""),
    ];
    assert_eq!(find_statement_pdf(&none), None);
    let f = PostHookFacts { statement: none, git: GitListing::Unavailable, files: vec![] };
    assert_eq!(post_hook(&f), vec!["Missing statement file (statement/statement.pdf or testo/testo.pdf)"]);

    let second = vec![
        candidate("statement/statement.pdf", false, false, b""),
        candidate("testo/testo.pdf", true, false, b"%PDF"),
    ];
    assert_eq!(find_statement_pdf(&second), Some(1));
    let f = PostHookFacts { statement: second, git: GitListing::Listed { known: false }, files: vec![] };
    assert_eq!(post_hook(&f), vec!["File testo/testo.pdf is not known to git"]);

    let bad = vec![candidate("statement/statement.pdf", true, false, b"%PD")];
    let f = PostHookFacts { statement: bad, git: GitListing::NotRepository, files: vec![] };
    assert_eq!(post_hook(&f), vec!["Invalid PDF file at statement/statement.pdf"]);

    let broken = vec![candidate("statement/statement.pdf", false, true, b"")];
    let files = vec![
        FileEntry { path: "statement/statement.pdf".to_string(), exists: false, symlink: true },
        FileEntry { path: "sol/solution.cpp".to_string(), exists: true, symlink: true },
    ];
    let f = PostHookFacts { statement: broken, git: GitListing::Listed { known: true }, files };
    assert_eq!(
        post_hook(&f),
        vec![
            "Statement statement/statement.pdf is a broken link",
            "statement/statement.pdf is a broken link",
        ]
    );
}

#[test]
fn symlink_walk_stops_after_forty_links() {
    let mut walk = SymlinkWalk::new();
    for _ in 0..40 {
        assert!(matches!(walk.next(true), SymlinkStep::Follow));
    }
    assert!(matches!(walk.next(true), SymlinkStep::TooDeep));
    assert!(matches!(walk.next(false), SymlinkStep::Done));
    assert_eq!(too_many_links_message(), "Too many level of symbolic links");
}
