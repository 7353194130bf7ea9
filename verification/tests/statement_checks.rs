use task_maker::att_samples::Severity;
use task_maker::statement_checks::{statement_compiled_or_git, statement_valid, OfficialStatement, StatementSlot};

fn slot(shown: &str, exists: bool, valid_pdf: bool) -> StatementSlot {
    StatementSlot { shown: shown.to_string(), exists, valid_pdf }
}

#[test]
fn deprecated_generic_statement() {
    let report = statement_valid(&Some(slot("statement/statement.pdf", true, true)), &vec![], &vec!["english".to_string()]);
    assert_eq!(report.len(), 1);
    assert_eq!(report[0].severity, Severity::Warning);
    assert_eq!(report[0].message, "Found statement at statement/statement.pdf");
    assert_eq!(report[0].note, Some("This is deprecated, use a language specific statement instead".to_string()));
}

#[test]
fn no_valid_statement() {
    let languages = vec!["english".to_string(), "italian".to_string()];
    let report = statement_valid(
        &None,
        &vec![slot("statement/english.pdf", true, false), slot("testo/italian.pdf", false, false)],
        &languages,
    );
    let messages: Vec<String> = report.iter().map(|d| d.message.clone()).collect();
    assert_eq!(
        messages,
        vec![
            "Invalid PDF file at statement/english.pdf".to_string(),
            "Statement testo/italian.pdf is a broken link".to_string(),
            "There is no functioning statement file".to_string(),
        ]
    );
    assert_eq!(
        report[2].note,
        Some("Consider adding a statement in any of the languages supported by CMS (english, italian)".to_string())
    );
}

#[test]
fn one_valid_language_statement_is_enough() {
    let report = statement_valid(&None, &vec![slot("statement/english.pdf", true, true)], &vec!["english".to_string()]);
    assert!(report.is_empty());
}

#[test]
fn official_statement_not_compiled_nor_in_git() {
    let statements = vec![OfficialStatement {
        shown: "statement/english.pdf".to_string(),
        symlink: true,
        known_to_git: false,
        target: Some("other/english.pdf".to_string()),
        compiled: false,
        link_target: "other/english.pdf".to_string(),
        link_target_known: false,
    }];
    let booklets = vec!["build/english.pdf".to_string()];
    let report = statement_compiled_or_git(&statements, &booklets);
    assert_eq!(report.len(), 3);
    assert_eq!(report[0].message, "The official statement at statement/english.pdf is a symbolic link and not known to git");
    assert_eq!(report[0].help, Some("Try git add -f statement/english.pdf".to_string()));
    assert_eq!(report[1].message, "The official statement at other/english.pdf is not the one compiled by task-maker");
    assert_eq!(report[1].help, Some("Maybe it should be a symlink to one of the compiled PDF (build/english.pdf)".to_string()));
    assert_eq!(report[2].message, "The official statement at other/english.pdf is not compiled by task-maker and not known to git");
}

#[test]
fn compiled_statement_is_fine() {
    let statements = vec![OfficialStatement {
        shown: "statement/english.pdf".to_string(),
        symlink: true,
        known_to_git: true,
        target: Some("build/english.pdf".to_string()),
        compiled: true,
        link_target: "build/english.pdf".to_string(),
        link_target_known: true,
    }];
    assert!(statement_compiled_or_git(&statements, &vec!["build/english.pdf".to_string()]).is_empty());
}
