use task_maker::att_samples::Severity;
use task_maker::sanity::CheckEndWithNewLine;
use task_maker::text_order::{sort_unique, text_less};

fn strings(v: &[&str]) -> Vec<String> {
    v.iter().map(|s| s.to_string()).collect()
}

#[test]
fn texts_compare_by_characters() {
    assert!(text_less("a", "b"));
    assert!(text_less("ab", "abc"));
    assert!(!text_less("abc", "ab"));
    assert!(!text_less("same", "same"));
    assert!(text_less("", "x"));
    assert!(text_less("Z", "a"));
}

#[test]
fn sorted_texts_are_unique() {
    let res = sort_unique(&strings(&["c.txt", "a.txt", "c.txt", "b.txt", "a.txt"]));
    assert_eq!(res, strings(&["a.txt", "b.txt", "c.txt"]));
    assert!(sort_unique(&Vec::new()).is_empty());
}

#[test]
fn no_new_line_warning_without_files() {
    assert!(CheckEndWithNewLine::emit_warning(&Vec::new(), "input").is_none());
}

#[test]
fn new_line_warning_lists_files_once_in_order() {
    let files = strings(&["input/b.txt", "input/a.txt", "input/b.txt"]);
    let d = CheckEndWithNewLine::emit_warning(&files, "input").unwrap();
    assert_eq!(d.severity, Severity::Warning);
    assert_eq!(d.message, "These input files don't end with a new line: input/a.txt, input/b.txt");
    assert_eq!(
        d.note.as_deref(),
        Some("It's bad practice to have files that do not end with new-line")
    );
    assert!(d.help.is_none());
}
