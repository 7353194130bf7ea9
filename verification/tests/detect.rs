use task_maker::detect_exe::{detect_exe, ExecutableBits, ExecutablePlatform};
use task_maker::detect_format::{find_task, search_error, search_task, DirectoryProbe, SearchAction, TaskFormat, TaskSearch};
use task_maker::subtask_name::{cleanup_subtask_name, NameProblem};

#[test]
fn executables() {
    assert_eq!(detect_exe(b"MZ\x90\x00\x03"), Some((ExecutablePlatform::Windows, ExecutableBits::Unknown)));
    assert_eq!(detect_exe(b"#!/bin"), Some((ExecutablePlatform::Linux, ExecutableBits::Unknown)));
    assert_eq!(detect_exe(b"\x7fELF\x01"), Some((ExecutablePlatform::Linux, ExecutableBits::Bits32)));
    assert_eq!(detect_exe(b"\x7fELF\x02"), Some((ExecutablePlatform::Linux, ExecutableBits::Bits64)));
    assert_eq!(detect_exe(b"\xcf\xfa\xed\xfe\x00"), Some((ExecutablePlatform::MacOs, ExecutableBits::Bits64)));
    assert_eq!(detect_exe(b"\xbe\xba\xfe\xca\x00"), Some((ExecutablePlatform::MacOsFat, ExecutableBits::Bits32)));
    assert_eq!(detect_exe(b"hello"), None);
    // a file too short for a pattern is simply not recognized
    assert_eq!(detect_exe(b"ab"), None);
    assert_eq!(detect_exe(b"\x7f"), None);
    assert_eq!(detect_exe(b"\x7fEL"), None);
    assert_eq!(detect_exe(b""), None);
    assert_eq!(detect_exe(b"#!"), Some((ExecutablePlatform::Linux, ExecutableBits::Unknown)));
}

#[test]
fn subtask_names() {
    assert_eq!(cleanup_subtask_name("  small_n \t").unwrap(), "small_n");
    // compatibility characters are normalized
    assert_eq!(cleanup_subtask_name("\u{FB01}le").unwrap(), "file");
    assert_eq!(cleanup_subtask_name("N\u{2264}10").unwrap(), "N\u{2264}10");
    let e = cleanup_subtask_name("   ").unwrap_err();
    assert_eq!(e.problem, NameProblem::Empty);
    let e = cleanup_subtask_name(" -x").unwrap_err();
    assert_eq!(e.problem, NameProblem::StartsWithDash);
    assert_eq!(e.name, "-x");
    assert_eq!(cleanup_subtask_name("a*").unwrap_err().problem, NameProblem::Asterisk);
    assert_eq!(cleanup_subtask_name("a?").unwrap_err().problem, NameProblem::QuestionMark);
    assert_eq!(cleanup_subtask_name("a b").unwrap_err().problem, NameProblem::InvalidCharacter(' '));
    assert_eq!(cleanup_subtask_name("   ").unwrap_err().message(), "'' is not a valid identifier: must be non-empty");
    assert_eq!(
        cleanup_subtask_name(" -x").unwrap_err().message(),
        "'-x' is not a valid identifier: must not start with a dash (-)"
    );
    assert_eq!(cleanup_subtask_name("a*").unwrap_err().reason, "must not contain asterisks (*)");
    assert_eq!(cleanup_subtask_name("a?").unwrap_err().reason, "must not contain question marks (?)");
    assert_eq!(
        cleanup_subtask_name("a b").unwrap_err().message(),
        "'a b' is not a valid identifier: contains an invalid character ' ' ( )"
    );
    assert_eq!(
        cleanup_subtask_name("a\tb").unwrap_err().reason,
        "contains an invalid character '\t' (\\t)"
    );
    assert_eq!(
        cleanup_subtask_name("a\u{200b}b").unwrap_err().reason,
        format!("contains an invalid character '{}' ({})", '\u{200b}', '\u{200b}'.escape_default())
    );
}

fn probe(path: &str, ioi: Option<Result<(), Vec<String>>>, terry: Option<Result<(), Vec<String>>>, has_parent: bool) -> DirectoryProbe {
    DirectoryProbe { path: path.to_string(), ioi, terry, has_parent }
}

#[test]
fn task_search() {
    let (state, action) = TaskSearch::start(3);
    assert!(matches!(action, SearchAction::Probe));
    let (state, action) = find_task(state, probe("/a/b", None, None, true));
    assert!(matches!(action, SearchAction::Probe));
    let (_, action) = find_task(state, probe("/a", Some(Ok(())), None, true));
    assert!(matches!(action, SearchAction::Found(TaskFormat::Ioi)));

    let (state, _) = TaskSearch::start(2);
    let (state, action) = find_task(state, probe("/x/y", Some(Err(vec!["bad yaml".to_string()])), None, true));
    assert!(matches!(action, SearchAction::Probe));
    let (_, action) = find_task(state, probe("/x", None, Some(Err(vec!["no".to_string(), "why".to_string()])), true));
    match action {
        SearchAction::NotFound(m) => assert_eq!(
            m,
            "\n    - Not a valid IOI task at /x/y\n      Caused by:\n        bad yaml\n    - Not a valid Terry task at /x\n      Caused by:\n        no\n      Caused by:\n        why\n"
        ),
        other => panic!("unexpected action {:?}", other),
    }

    let (state, _) = TaskSearch::start(5);
    let (_, action) = find_task(state, probe("/", Some(Ok(())), Some(Ok(())), false));
    assert!(matches!(action, SearchAction::Ambiguous));
    let (state, _) = TaskSearch::start(5);
    let (_, action) = find_task(state, probe("/", None, Some(Ok(())), false));
    assert!(matches!(action, SearchAction::Found(TaskFormat::Terry)));
    let (state, _) = TaskSearch::start(5);
    let (_, action) = find_task(state, probe("/", None, None, false));
    assert!(matches!(action, SearchAction::NotFound(m) if m == "\n"));
}

#[test]
fn whole_search_stops_at_the_closest_task() {
    let probes = vec![
        probe("/a/b/c", None, None, true),
        probe("/a/b", Some(Err(vec!["bad".to_string()])), None, true),
        probe("/a", None, Some(Ok(())), true),
        probe("/", Some(Ok(())), None, false),
    ];
    assert!(matches!(search_task(5, probes.clone()), SearchAction::Found(TaskFormat::Terry)));
    // the task is beyond the allowed depth
    match search_task(2, probes.clone()) {
        SearchAction::NotFound(m) => assert_eq!(m, "\n    - Not a valid IOI task at /a/b\n      Caused by:\n        bad\n"),
        _ => panic!("expected no task"),
    }
    assert!(matches!(search_task(0, vec![]), SearchAction::NotFound(m) if m == "\n"));
    // the root has no parent
    let short = vec![probe("/", None, None, false)];
    assert!(matches!(search_task(3, short), SearchAction::NotFound(_)));
}

#[test]
fn search_errors() {
    assert_eq!(
        search_error(&SearchAction::Ambiguous).unwrap(),
        "Ambiguous task directory, can be either IOI and terry"
    );
    assert_eq!(
        search_error(&SearchAction::NotFound("\n".to_string())).unwrap(),
        "Cannot find a valid task directory: \n"
    );
    assert!(search_error(&SearchAction::Found(TaskFormat::Ioi)).is_none());
}
