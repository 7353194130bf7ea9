//! The checks on the statement files once the evaluation is over: there must be a valid PDF
//! statement (the generic statement is deprecated in favour of one per language), and each
//! statement should be the one compiled by task-maker or at least be known to git.

use vstd::prelude::*;

use crate::att_samples::{diag_views, Diagnostic, DiagnosticView, Severity};
use crate::samples::{join_comma, join_paths, views};
use crate::text::push_str;

verus! {

/// A statement file that was found (a file, or a link even if it leads nowhere): the path shown
/// for it, whether it leads to a file, and whether that file starts as a PDF does.
#[derive(Debug, Clone)]
pub struct StatementSlot {
    pub shown: String,
    pub exists: bool,
    pub valid_pdf: bool,
}

/// What is said of a statement file, and whether it is a valid statement.
pub open spec fn slot_check(s: StatementSlot) -> (Seq<DiagnosticView>, bool) {
    if s.exists {
        if s.valid_pdf {
            (Seq::empty(), true)
        } else {
            (seq![DiagnosticView { severity: Severity::Error, message: "Invalid PDF file at "@ + s.shown@, note: None, help: None }], false)
        }
    } else {
        (seq![DiagnosticView { severity: Severity::Error, message: "Statement "@ + s.shown@ + " is a broken link"@, note: None, help: None }], false)
    }
}

/// What is said of the statements of the languages, in order.
pub open spec fn slots_diags(ss: Seq<StatementSlot>) -> Seq<DiagnosticView>
    decreases ss.len(),
{
    if ss.len() == 0 {
        Seq::empty()
    } else {
        slots_diags(ss.drop_last()) + slot_check(ss.last()).0
    }
}

/// Some statement of a language is valid.
pub open spec fn some_valid(ss: Seq<StatementSlot>) -> bool {
    exists|i: int| 0 <= i < ss.len() && (#[trigger] slot_check(ss[i])).1
}

/// The report on the statements: the generic statement first, if found (deprecated), then the
/// statements of the languages, and an error when none is valid.
pub open spec fn statement_report(generic: Option<StatementSlot>, by_language: Seq<StatementSlot>, languages: Seq<Seq<char>>) -> Seq<DiagnosticView> {
    let (g, gv) = match generic {
        Some(s) => (
            seq![DiagnosticView {
                severity: Severity::Warning,
                message: "Found statement at "@ + s.shown@,
                note: Some("This is deprecated, use a language specific statement instead"@),
                help: None,
            }] + slot_check(s).0,
            slot_check(s).1,
        ),
        None => (Seq::empty(), false),
    };
    g + slots_diags(by_language) + if gv || some_valid(by_language) {
        Seq::empty()
    } else {
        seq![DiagnosticView {
            severity: Severity::Error,
            message: "There is no functioning statement file"@,
            note: Some("Consider adding a statement in any of the languages supported by CMS ("@ + join_comma(languages) + ")"@),
            help: None,
        }]
    }
}

/// Checks a statement file, appending what is said of it; returns whether it is valid.
fn check_slot(s: &StatementSlot, out: &mut Vec<Diagnostic>) -> (res: bool)
    ensures
        res == slot_check(*s).1,
        diag_views(final(out)@) == diag_views(old(out)@) + slot_check(*s).0,
{
    let ghost before = out@;
    if s.exists {
        if s.valid_pdf {
            proof {
                assert(diag_views(out@) =~= diag_views(before) + slot_check(*s).0);
            }
            true
        } else {
            let mut m = "Invalid PDF file at ".to_owned();
            push_str(&mut m, s.shown.as_str());
            out.push(Diagnostic { severity: Severity::Error, message: m, note: None, help: None });
            proof {
                assert(diag_views(out@) =~= diag_views(before) + slot_check(*s).0);
            }
            false
        }
    } else {
        let mut m = "Statement ".to_owned();
        push_str(&mut m, s.shown.as_str());
        push_str(&mut m, " is a broken link");
        out.push(Diagnostic { severity: Severity::Error, message: m, note: None, help: None });
        proof {
            assert(diag_views(out@) =~= diag_views(before) + slot_check(*s).0);
        }
        false
    }
}

/// The report on the statement files: the generic statement, if found, and the statement of
/// each language that has one, in the order of the languages given.
pub fn statement_valid(generic: &Option<StatementSlot>, by_language: &Vec<StatementSlot>, languages: &Vec<String>) -> (res: Vec<Diagnostic>)
    ensures
        diag_views(res@) == statement_report(*generic, by_language@, views(languages@)),
{
    let mut out: Vec<Diagnostic> = Vec::new();
    let mut found = false;
    match generic {
        Some(s) => {
            let mut m = "Found statement at ".to_owned();
            push_str(&mut m, s.shown.as_str());
            out.push(Diagnostic {
                severity: Severity::Warning,
                message: m,
                note: Some("This is deprecated, use a language specific statement instead".to_owned()),
                help: None,
            });
            let ghost w = out@;
            assert(diag_views(w) =~= seq![DiagnosticView {
                severity: Severity::Warning,
                message: "Found statement at "@ + s.shown@,
                note: Some("This is deprecated, use a language specific statement instead"@),
                help: None,
            }]);
            found = check_slot(s, &mut out);
        },
        None => {
            assert(diag_views(out@) =~= Seq::<DiagnosticView>::empty());
        },
    }
    let ghost g = out@;
    let mut i: usize = 0;
    let mut any = false;
    while i < by_language.len()
        invariant
            i <= by_language@.len(),
            diag_views(out@) == diag_views(g) + slots_diags(by_language@.take(i as int)),
            any == some_valid(by_language@.take(i as int)),
        decreases by_language@.len() - i,
    {
        proof {
            assert(by_language@.take(i + 1).drop_last() =~= by_language@.take(i as int));
        }
        let ghost before = out@;
        let ok = check_slot(&by_language[i], &mut out);
        proof {
            let t = by_language@.take(i + 1);
            assert(diag_views(out@) =~= diag_views(g) + slots_diags(t));
            if ok {
                assert(slot_check(t[i as int]).1);
            }
            if some_valid(t) && !ok {
                let j = choose|j: int| 0 <= j < t.len() && (#[trigger] slot_check(t[j])).1;
                assert(j < i);
                assert(by_language@.take(i as int)[j] == t[j]);
            }
            if some_valid(by_language@.take(i as int)) {
                let j = choose|j: int| 0 <= j < i && (#[trigger] slot_check(by_language@.take(i as int)[j])).1;
                assert(t[j] == by_language@.take(i as int)[j]);
            }
        }
        if ok {
            any = true;
        }
        i += 1;
    }
    proof {
        assert(by_language@.take(by_language@.len() as int) =~= by_language@);
    }
    if !found && !any {
        let mut n = "Consider adding a statement in any of the languages supported by CMS (".to_owned();
        let joined = join_paths(languages);
        push_str(&mut n, joined.as_str());
        push_str(&mut n, ")");
        out.push(Diagnostic {
            severity: Severity::Error,
            message: "There is no functioning statement file".to_owned(),
            note: Some(n),
            help: None,
        });
    }
    proof {
        assert(diag_views(out@) =~= statement_report(*generic, by_language@, views(languages@)));
    }
    out
}

/// What is known of an official statement file: the path shown for it, whether it is a symbolic
/// link, whether git knows it, the path shown for the file it resolves to (none when it leads
/// nowhere), whether that file is one of the booklets compiled by task-maker, and the path shown
/// for where its links lead, with whether git knows it.
#[derive(Debug, Clone)]
pub struct OfficialStatement {
    pub shown: String,
    pub symlink: bool,
    pub known_to_git: bool,
    pub target: Option<String>,
    pub compiled: bool,
    pub link_target: String,
    pub link_target_known: bool,
}

/// What is said of an official statement file; `booklets` lists the compiled booklets.
pub open spec fn official_check(s: OfficialStatement, booklets: Seq<char>) -> Seq<DiagnosticView> {
    let not_in_git = if s.symlink && !s.known_to_git {
        seq![DiagnosticView {
            severity: Severity::Error,
            message: "The official statement at "@ + s.shown@ + " is a symbolic link and not known to git"@,
            note: Some("This means that it won't be available outside of your local directory"@),
            help: Some("Try git add -f "@ + s.shown@),
        }]
    } else {
        Seq::empty()
    };
    not_in_git + match s.target {
        None => Seq::empty(),
        Some(t) => if s.compiled {
            Seq::empty()
        } else {
            seq![DiagnosticView {
                severity: Severity::Warning,
                message: "The official statement at "@ + t@ + " is not the one compiled by task-maker"@,
                note: None,
                help: Some("Maybe it should be a symlink to one of the compiled PDF ("@ + booklets + ")"@),
            }] + if s.link_target_known {
                Seq::empty()
            } else {
                seq![DiagnosticView {
                    severity: Severity::Error,
                    message: "The official statement at "@ + s.link_target@ + " is not compiled by task-maker and not known to git"@,
                    note: Some("This means that it won't be available outside of your local directory"@),
                    help: Some("Try git add -f "@ + s.link_target@),
                }]
            }
        },
    }
}

/// What is said of the official statement files, in order.
pub open spec fn official_checks(ss: Seq<OfficialStatement>, booklets: Seq<char>) -> Seq<DiagnosticView>
    decreases ss.len(),
{
    if ss.len() == 0 {
        Seq::empty()
    } else {
        official_checks(ss.drop_last(), booklets) + official_check(ss.last(), booklets)
    }
}

/// The report on the official statement files (the generic one first, then those of the
/// languages), given the paths shown for the compiled booklets.
pub fn statement_compiled_or_git(statements: &Vec<OfficialStatement>, booklets: &Vec<String>) -> (res: Vec<Diagnostic>)
    ensures
        diag_views(res@) == official_checks(statements@, join_comma(views(booklets@))),
{
    let list = join_paths(booklets);
    let mut out: Vec<Diagnostic> = Vec::new();
    let mut i: usize = 0;
    while i < statements.len()
        invariant
            i <= statements@.len(),
            list@ == join_comma(views(booklets@)),
            diag_views(out@) == official_checks(statements@.take(i as int), list@),
        decreases statements@.len() - i,
    {
        proof {
            assert(statements@.take(i + 1).drop_last() =~= statements@.take(i as int));
        }
        let s = &statements[i];
        let ghost before = out@;
        if s.symlink && !s.known_to_git {
            let mut m = "The official statement at ".to_owned();
            push_str(&mut m, s.shown.as_str());
            push_str(&mut m, " is a symbolic link and not known to git");
            let mut h = "Try git add -f ".to_owned();
            push_str(&mut h, s.shown.as_str());
            out.push(Diagnostic {
                severity: Severity::Error,
                message: m,
                note: Some("This means that it won't be available outside of your local directory".to_owned()),
                help: Some(h),
            });
        }
        match &s.target {
            None => {},
            Some(t) => {
                if !s.compiled {
                    let mut m = "The official statement at ".to_owned();
                    push_str(&mut m, t.as_str());
                    push_str(&mut m, " is not the one compiled by task-maker");
                    let mut h = "Maybe it should be a symlink to one of the compiled PDF (".to_owned();
                    push_str(&mut h, list.as_str());
                    push_str(&mut h, ")");
                    out.push(Diagnostic { severity: Severity::Warning, message: m, note: None, help: Some(h) });
                    if !s.link_target_known {
                        let mut m2 = "The official statement at ".to_owned();
                        push_str(&mut m2, s.link_target.as_str());
                        push_str(&mut m2, " is not compiled by task-maker and not known to git");
                        let mut h2 = "Try git add -f ".to_owned();
                        push_str(&mut h2, s.link_target.as_str());
                        out.push(Diagnostic {
                            severity: Severity::Error,
                            message: m2,
                            note: Some("This means that it won't be available outside of your local directory".to_owned()),
                            help: Some(h2),
                        });
                    }
                }
            },
        }
        proof {
            assert(diag_views(out@) =~= official_checks(statements@.take(i + 1), list@));
        }
        i += 1;
    }
    proof {
        assert(statements@.take(statements@.len() as int) =~= statements@);
    }
    out
}

} // verus!
