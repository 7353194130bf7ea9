//! The checks run on a task directory before and after its evaluation: the graders and templates
//! handed out to the contestants, the sample cases, the official solution, the statement and the
//! symbolic links. What they look at is gathered from the directory by the caller; the checks
//! decide which warnings to emit, in order.

use vstd::prelude::*;

use crate::text::{push_str, str_eq};
use crate::words::string_views;

verus! {

/// The messages present in a sequence of optional messages, in order.
pub open spec fn present(s: Seq<Option<Seq<char>>>) -> Seq<Seq<char>>
    decreases s.len(),
{
    if s.len() == 0 {
        Seq::empty()
    } else {
        let prev = present(s.drop_last());
        match s.last() {
            Some(m) => prev.push(m),
            None => prev,
        }
    }
}

/// Appends `m` to the messages when there is one.
fn push_present(out: &mut Vec<String>, m: Option<String>)
    ensures
        string_views(final(out)@) == match m {
            Some(t) => string_views(old(out)@).push(t@),
            None => string_views(old(out)@),
        },
{
    match m {
        Some(t) => {
            let ghost before = out@;
            let ghost tv = t@;
            out.push(t);
            assert(string_views(out@) =~= string_views(before).push(tv));
        },
        None => {},
    }
}

/// A grader of the task: the extension of its file, and whether the template with that
/// extension is in `att/`.
pub struct GraderEntry {
    pub extension: String,
    pub template_exists: bool,
}

/// A source file in a folder handed to the contestants: its name without the extension and, when
/// its language is known, the first extension of that language and whether a grader with that
/// extension is next to it.
pub struct SourceEntry {
    pub stem: String,
    pub grader: Option<(String, bool)>,
}

/// A sample case in `att/`: its path in the task, whether it is a symbolic link, and whether the
/// target of the link exists.
pub struct SampleEntry {
    pub path: String,
    pub symlink: bool,
    pub target_exists: bool,
}

/// An official solution in `sol/`: its path in the task, its file name, and whether it is a
/// symbolic link.
pub struct SolutionEntry {
    pub path: String,
    pub file_name: String,
    pub symlink: bool,
}

/// A place where the statement may be: its path in the task, whether something exists there
/// (following links), whether it is a symbolic link, and the first bytes of the file (at most
/// four; fewer when the file is shorter).
pub struct StatementCandidate {
    pub path: String,
    pub exists: bool,
    pub symlink: bool,
    pub header: Vec<u8>,
}

/// What `git ls-files` said about the statement.
pub enum GitListing {
    /// git could not be run.
    Unavailable,
    /// git failed, the task is not in a repository.
    NotRepository,
    /// git listed the statement when `known` holds, and printed nothing otherwise.
    Listed { known: bool },
}

/// A file of the task: its path in the task, whether something exists there (following links),
/// and whether it is a symbolic link.
pub struct FileEntry {
    pub path: String,
    pub exists: bool,
    pub symlink: bool,
}

/// What the first pass of checks looks at.
pub struct PreHookFacts {
    /// The warning about the total score of the task, which is computed in fractional points.
    pub score_warning: Option<String>,
    /// The short name of the task.
    pub task_name: String,
    /// The graders of the task.
    pub graders: Vec<GraderEntry>,
    /// The source files in `att/`.
    pub att_sources: Vec<SourceEntry>,
    /// The sample cases in `att/`.
    pub samples: Vec<SampleEntry>,
    /// The source files in `sol/`.
    pub sol_sources: Vec<SourceEntry>,
    /// The official solutions.
    pub solutions: Vec<SolutionEntry>,
}

/// What the checks after the evaluation look at.
pub struct PostHookFacts {
    /// The places where the statement may be, in order of preference.
    pub statement: Vec<StatementCandidate>,
    /// What git said about the statement found.
    pub git: GitListing,
    /// All the files of the task.
    pub files: Vec<FileEntry>,
}

/// The warning about a source file without its grader.
pub open spec fn missing_grader_message(folder: Seq<char>, s: SourceEntry) -> Option<Seq<char>> {
    if s.stem@ == "grader"@ {
        None
    } else {
        match s.grader {
            Some((ext, true)) => None,
            Some((ext, false)) => Some("Missing grader at "@ + folder + "/grader."@ + ext@),
            None => None,
        }
    }
}

/// The warnings about the source files of `folder` without their grader, when the task has
/// graders.
pub open spec fn missing_graders(has_grader: bool, folder: Seq<char>, sources: Seq<SourceEntry>) -> Seq<Seq<char>> {
    if has_grader {
        present(sources.map_values(|s: SourceEntry| missing_grader_message(folder, s)))
    } else {
        Seq::empty()
    }
}

/// The warning about a grader without its template.
pub open spec fn missing_template_message(name: Seq<char>, g: GraderEntry) -> Option<Seq<char>> {
    if g.template_exists {
        None
    } else {
        Some("Missing template at att/"@ + name + "."@ + g.extension@)
    }
}

/// The warning about a sample case that is not a valid symbolic link.
pub open spec fn sample_message(s: SampleEntry) -> Option<Seq<char>> {
    if !s.symlink {
        Some("Sample case "@ + s.path@ + " is not a symlink"@)
    } else if !s.target_exists {
        Some("Sample case "@ + s.path@ + " is a broken link"@)
    } else {
        None
    }
}

/// The warnings about the sample cases, and the one about their absence.
pub open spec fn sample_messages(samples: Seq<SampleEntry>) -> Seq<Seq<char>> {
    let each = present(samples.map_values(|s: SampleEntry| sample_message(s)));
    if samples.len() == 0 {
        each.push("No sample file in att/"@)
    } else {
        each
    }
}

/// The warning about an official solution that is not a symbolic link.
pub open spec fn solution_message(s: SolutionEntry) -> Option<Seq<char>> {
    if s.symlink {
        None
    } else {
        Some("Solution "@ + s.path@ + " is not a symlink"@)
    }
}

/// How `{:?}` writes a string: between double quotes, with the special characters escaped.
pub uninterp spec fn debug_text(s: Seq<char>) -> Seq<char>;

/// `s` between double quotes with its special characters escaped (`format!("{:?}", s)`).
#[verifier::external_body]
fn debug_string(s: &str) -> (res: String)
    ensures
        res@ == debug_text(s@),
{
    format!("{:?}", s)
}

/// How `{:?}` writes a list of strings: between square brackets, separated by a comma and a
/// space.
pub open spec fn debug_list(names: Seq<Seq<char>>) -> Seq<char>
    decreases names.len(),
{
    if names.len() == 0 {
        "[]"@
    } else if names.len() == 1 {
        "["@ + debug_text(names[0]) + "]"@
    } else {
        debug_list(names.drop_last()).drop_last() + ", "@ + debug_text(names.last()) + "]"@
    }
}

/// The warning about more than one official solution.
pub open spec fn unique_solution_messages(solutions: Seq<SolutionEntry>) -> Seq<Seq<char>> {
    if solutions.len() > 1 {
        seq![
            "More than an official solution found: "@ + debug_list(
                solutions.map_values(|s: SolutionEntry| s.file_name@),
            ),
        ]
    } else {
        Seq::empty()
    }
}

/// The warnings of the first pass of checks, in order: the total score, the graders and the
/// templates in `att/`, the sample cases, the graders in `sol/`, the official solution being a
/// symbolic link and being unique.
pub open spec fn pre_hook_messages(f: PreHookFacts) -> Seq<Seq<char>> {
    let has_grader = f.graders@.len() != 0;
    (match f.score_warning {
        Some(w) => seq![w@],
        None => Seq::empty(),
    }) + missing_graders(has_grader, "att"@, f.att_sources@) + present(
        f.graders@.map_values(|g: GraderEntry| missing_template_message(f.task_name@, g)),
    ) + sample_messages(f.samples@) + missing_graders(has_grader, "sol"@, f.sol_sources@) + present(
        f.solutions@.map_values(|s: SolutionEntry| solution_message(s)),
    ) + unique_solution_messages(f.solutions@)
}

/// Whether the task uses graders.
pub fn has_grader(graders: &Vec<GraderEntry>) -> (res: bool)
    ensures
        res == (graders@.len() != 0),
{
    graders.len() != 0
}

/// The warnings about the source files of `folder` without their grader, when the task has
/// graders.
pub fn check_missing_graders(has_grader: bool, folder: &str, sources: &Vec<SourceEntry>) -> (res: Vec<String>)
    ensures
        string_views(res@) == missing_graders(has_grader, folder@, sources@),
{
    let mut out: Vec<String> = Vec::new();
    if !has_grader {
        return out;
    }
    let ghost f = |s: SourceEntry| missing_grader_message(folder@, s);
    let mut i: usize = 0;
    while i < sources.len()
        invariant
            has_grader,
            i <= sources@.len(),
            f == (|s: SourceEntry| missing_grader_message(folder@, s)),
            string_views(out@) == present(sources@.take(i as int).map_values(f)),
        decreases sources@.len() - i,
    {
        let s = &sources[i];
        let m = if str_eq(s.stem.as_str(), "grader") {
            None
        } else {
            match &s.grader {
                Some((ext, exists)) => if *exists {
                    None
                } else {
                    let mut t = "Missing grader at ".to_owned();
                    push_str(&mut t, folder);
                    push_str(&mut t, "/grader.");
                    push_str(&mut t, ext.as_str());
                    Some(t)
                },
                None => None,
            }
        };
        proof {
            assert(sources@.take(i + 1).map_values(f).drop_last() =~= sources@.take(i as int).map_values(f));
            assert(sources@.take(i + 1).map_values(f).last() == f(sources@[i as int]));
        }
        push_present(&mut out, m);
        i += 1;
    }
    assert(sources@.take(i as int) =~= sources@);
    out
}

/// The warnings about the graders without their template in `att/`.
pub fn check_att_templates(task_name: &str, graders: &Vec<GraderEntry>) -> (res: Vec<String>)
    ensures
        string_views(res@) == present(graders@.map_values(|g: GraderEntry| missing_template_message(task_name@, g))),
{
    let mut out: Vec<String> = Vec::new();
    let ghost f = |g: GraderEntry| missing_template_message(task_name@, g);
    let mut i: usize = 0;
    while i < graders.len()
        invariant
            i <= graders@.len(),
            f == (|g: GraderEntry| missing_template_message(task_name@, g)),
            string_views(out@) == present(graders@.take(i as int).map_values(f)),
        decreases graders@.len() - i,
    {
        let g = &graders[i];
        let m = if g.template_exists {
            None
        } else {
            let mut t = "Missing template at att/".to_owned();
            push_str(&mut t, task_name);
            push_str(&mut t, ".");
            push_str(&mut t, g.extension.as_str());
            Some(t)
        };
        proof {
            assert(graders@.take(i + 1).map_values(f).drop_last() =~= graders@.take(i as int).map_values(f));
            assert(graders@.take(i + 1).map_values(f).last() == f(graders@[i as int]));
        }
        push_present(&mut out, m);
        i += 1;
    }
    assert(graders@.take(i as int) =~= graders@);
    out
}

/// The warnings about the sample cases in `att/`.
pub fn check_att_sample_files(samples: &Vec<SampleEntry>) -> (res: Vec<String>)
    ensures
        string_views(res@) == sample_messages(samples@),
{
    let mut out: Vec<String> = Vec::new();
    let ghost f = |s: SampleEntry| sample_message(s);
    let mut i: usize = 0;
    while i < samples.len()
        invariant
            i <= samples@.len(),
            f == (|s: SampleEntry| sample_message(s)),
            string_views(out@) == present(samples@.take(i as int).map_values(f)),
        decreases samples@.len() - i,
    {
        let s = &samples[i];
        let m = if !s.symlink {
            let mut t = "Sample case ".to_owned();
            push_str(&mut t, s.path.as_str());
            push_str(&mut t, " is not a symlink");
            Some(t)
        } else if !s.target_exists {
            let mut t = "Sample case ".to_owned();
            push_str(&mut t, s.path.as_str());
            push_str(&mut t, " is a broken link");
            Some(t)
        } else {
            None
        };
        proof {
            assert(samples@.take(i + 1).map_values(f).drop_last() =~= samples@.take(i as int).map_values(f));
            assert(samples@.take(i + 1).map_values(f).last() == f(samples@[i as int]));
        }
        push_present(&mut out, m);
        i += 1;
    }
    assert(samples@.take(i as int) =~= samples@);
    if samples.len() == 0 {
        let ghost before = out@;
        out.push("No sample file in att/".to_owned());
        assert(string_views(out@) =~= string_views(before).push("No sample file in att/"@));
    }
    out
}

/// The warnings about the official solutions that are not symbolic links.
pub fn check_sol_symlink(solutions: &Vec<SolutionEntry>) -> (res: Vec<String>)
    ensures
        string_views(res@) == present(solutions@.map_values(|s: SolutionEntry| solution_message(s))),
{
    let mut out: Vec<String> = Vec::new();
    let ghost f = |s: SolutionEntry| solution_message(s);
    let mut i: usize = 0;
    while i < solutions.len()
        invariant
            i <= solutions@.len(),
            f == (|s: SolutionEntry| solution_message(s)),
            string_views(out@) == present(solutions@.take(i as int).map_values(f)),
        decreases solutions@.len() - i,
    {
        let s = &solutions[i];
        let m = if s.symlink {
            None
        } else {
            let mut t = "Solution ".to_owned();
            push_str(&mut t, s.path.as_str());
            push_str(&mut t, " is not a symlink");
            Some(t)
        };
        proof {
            assert(solutions@.take(i + 1).map_values(f).drop_last() =~= solutions@.take(i as int).map_values(f));
            assert(solutions@.take(i + 1).map_values(f).last() == f(solutions@[i as int]));
        }
        push_present(&mut out, m);
        i += 1;
    }
    assert(solutions@.take(i as int) =~= solutions@);
    out
}

/// The list of the names of the official solutions as `{:?}` writes it.
fn solution_list(solutions: &Vec<SolutionEntry>) -> (res: String)
    ensures
        res@ == debug_list(solutions@.map_values(|s: SolutionEntry| s.file_name@)),
{
    let ghost names = solutions@.map_values(|s: SolutionEntry| s.file_name@);
    let mut out = "[".to_owned();
    proof {
        reveal_strlit("[");
        reveal_strlit("]");
        reveal_strlit("[]");
        reveal_strlit(", ");
    }
    let mut i: usize = 0;
    while i < solutions.len()
        invariant
            i <= solutions@.len(),
            names == solutions@.map_values(|s: SolutionEntry| s.file_name@),
            out@.len() > 0,
            i == 0 ==> out@ == "["@,
            out@ + "]"@ == debug_list(names.take(i as int)),
        decreases solutions@.len() - i,
    {
        let ghost prev = out@;
        proof {
            reveal_strlit("[");
            reveal_strlit("]");
            reveal_strlit(", ");
        }
        if i > 0 {
            push_str(&mut out, ", ");
        }
        let d = debug_string(solutions[i].file_name.as_str());
        push_str(&mut out, d.as_str());
        proof {
            assert(names.take(i + 1).drop_last() =~= names.take(i as int));
            assert(names.take(i + 1).last() == names[i as int]);
            assert(names[i as int] == solutions@[i as int].file_name@);
            if i > 0 {
                assert((prev + "]"@).drop_last() =~= prev);
                assert(out@ + "]"@ =~= debug_list(names.take(i as int)).drop_last() + ", "@
                    + debug_text(names[i as int]) + "]"@);
            } else {
                assert(names.take(1) =~= seq![names[0]]);
                assert(out@ + "]"@ =~= "["@ + debug_text(names[0]) + "]"@);
            }
        }
        i += 1;
    }
    assert(names.take(i as int) =~= names);
    push_str(&mut out, "]");
    out
}

/// A list of texts as `{:?}` writes it.
pub(crate) fn debug_names(names: &Vec<String>) -> (res: String)
    ensures
        res@ == debug_list(string_views(names@)),
{
    let ghost ns = string_views(names@);
    let mut out = "[".to_owned();
    proof {
        reveal_strlit("[");
        reveal_strlit("]");
        reveal_strlit("[]");
        reveal_strlit(", ");
    }
    let mut i: usize = 0;
    while i < names.len()
        invariant
            i <= names@.len(),
            ns == string_views(names@),
            out@.len() > 0,
            i == 0 ==> out@ == "["@,
            out@ + "]"@ == debug_list(ns.take(i as int)),
        decreases names@.len() - i,
    {
        let ghost prev = out@;
        proof {
            reveal_strlit("[");
            reveal_strlit("]");
            reveal_strlit(", ");
        }
        if i > 0 {
            push_str(&mut out, ", ");
        }
        let d = debug_string(names[i].as_str());
        push_str(&mut out, d.as_str());
        proof {
            assert(ns.take(i + 1).drop_last() =~= ns.take(i as int));
            assert(ns.take(i + 1).last() == ns[i as int]);
            assert(ns[i as int] == names@[i as int]@);
            if i > 0 {
                assert((prev + "]"@).drop_last() =~= prev);
                assert(out@ + "]"@ =~= debug_list(ns.take(i as int)).drop_last() + ", "@
                    + debug_text(ns[i as int]) + "]"@);
            } else {
                assert(ns.take(1) =~= seq![ns[0]]);
                assert(out@ + "]"@ =~= "["@ + debug_text(ns[0]) + "]"@);
            }
        }
        i += 1;
    }
    assert(ns.take(i as int) =~= ns);
    push_str(&mut out, "]");
    out
}

/// The warning about more than one official solution.
pub fn check_sol_unique(solutions: &Vec<SolutionEntry>) -> (res: Vec<String>)
    ensures
        string_views(res@) == unique_solution_messages(solutions@),
{
    let mut out: Vec<String> = Vec::new();
    if solutions.len() > 1 {
        let mut t = "More than an official solution found: ".to_owned();
        let l = solution_list(solutions);
        push_str(&mut t, l.as_str());
        let ghost tv = t@;
        out.push(t);
        assert(string_views(out@) =~= seq![tv]);
    } else {
        assert(string_views(out@) =~= Seq::<Seq<char>>::empty());
    }
    out
}

/// Appends the messages of `more` to those of `out`.
fn append_messages(out: &mut Vec<String>, more: Vec<String>)
    ensures
        string_views(final(out)@) == string_views(old(out)@) + string_views(more@),
{
    let ghost before = out@;
    let ghost added = more@;
    let mut more = more;
    out.append(&mut more);
    assert(string_views(out@) =~= string_views(before) + string_views(added));
}

/// The warnings about the source files of `att/` without their grader, when the task has graders.
pub fn check_att_graders(has_grader: bool, sources: &Vec<SourceEntry>) -> (res: Vec<String>)
    ensures
        string_views(res@) == missing_graders(has_grader, "att"@, sources@),
{
    check_missing_graders(has_grader, "att", sources)
}

/// The warnings about the source files of `sol/` without their grader, when the task has graders.
pub fn check_sol_graders(has_grader: bool, sources: &Vec<SourceEntry>) -> (res: Vec<String>)
    ensures
        string_views(res@) == missing_graders(has_grader, "sol"@, sources@),
{
    check_missing_graders(has_grader, "sol", sources)
}

/// The warnings of the first pass of checks on a task, in order.
pub fn pre_hook(facts: &PreHookFacts) -> (res: Vec<String>)
    ensures
        string_views(res@) == pre_hook_messages(*facts),
{
    let mut out: Vec<String> = Vec::new();
    match &facts.score_warning {
        Some(w) => {
            let ghost wv = w@;
            out.push(w.clone());
            assert(string_views(out@) =~= seq![wv]);
        },
        None => {
            assert(string_views(out@) =~= Seq::<Seq<char>>::empty());
        },
    }
    let g = has_grader(&facts.graders);
    append_messages(&mut out, check_att_graders(g, &facts.att_sources));
    append_messages(&mut out, check_att_templates(facts.task_name.as_str(), &facts.graders));
    append_messages(&mut out, check_att_sample_files(&facts.samples));
    append_messages(&mut out, check_sol_graders(g, &facts.sol_sources));
    append_messages(&mut out, check_sol_symlink(&facts.solutions));
    append_messages(&mut out, check_sol_unique(&facts.solutions));
    proof {
        reveal_strlit("att");
        reveal_strlit("sol");
    }
    out
}

/// The position of the statement among the places where it may be: the first one where
/// something exists or a symbolic link is, even a broken one.
pub open spec fn statement_position(c: Seq<StatementCandidate>) -> Option<int>
    decreases c.len(),
{
    if c.len() == 0 {
        None
    } else if c[0].exists || c[0].symlink {
        Some(0)
    } else {
        match statement_position(c.drop_first()) {
            Some(i) => Some(i + 1),
            None => None,
        }
    }
}

/// The position of the statement among the places where it may be, if any.
pub fn find_statement_pdf(candidates: &Vec<StatementCandidate>) -> (res: Option<usize>)
    ensures
        res matches Some(i) ==> i < candidates@.len() && statement_position(candidates@) == Some(i as int),
        res is None ==> statement_position(candidates@) is None,
{
    let mut i: usize = 0;
    while i < candidates.len()
        invariant
            i <= candidates@.len(),
            forall|j: int| 0 <= j < i ==> !(#[trigger] candidates@[j]).exists && !candidates@[j].symlink,
        decreases candidates@.len() - i,
    {
        if candidates[i].exists || candidates[i].symlink {
            proof { lemma_statement_position(candidates@, i as int); }
            return Some(i);
        }
        i += 1;
    }
    proof { lemma_statement_position(candidates@, i as int); }
    None
}

/// The statement is at the first place where something is.
proof fn lemma_statement_position(c: Seq<StatementCandidate>, i: int)
    requires
        0 <= i <= c.len(),
        forall|j: int| 0 <= j < i ==> !(#[trigger] c[j]).exists && !c[j].symlink,
        i == c.len() || c[i].exists || c[i].symlink,
    ensures
        statement_position(c) == if i == c.len() { None } else { Some(i) },
    decreases c.len(),
{
    if c.len() > 0 && i > 0 {
        assert forall|j: int| 0 <= j < i - 1 implies !(#[trigger] c.drop_first()[j]).exists
            && !c.drop_first()[j].symlink by {
            assert(c.drop_first()[j] == c[j + 1]);
        }
        if i < c.len() {
            assert(c.drop_first()[i - 1] == c[i]);
        }
        lemma_statement_position(c.drop_first(), i - 1);
        assert(!c[0].exists && !c[0].symlink);
    }
}

/// The first four bytes of a PDF file.
pub open spec fn pdf_magic() -> Seq<u8> {
    seq![0x25u8, 0x50u8, 0x44u8, 0x46u8]
}

/// The warnings about the statement file: missing, not a PDF, or a broken link.
pub open spec fn statement_messages(c: Seq<StatementCandidate>) -> Seq<Seq<char>> {
    match statement_position(c) {
        None => seq!["Missing statement file (statement/statement.pdf or testo/testo.pdf)"@],
        Some(i) => if c[i].exists {
            if c[i].header@ != pdf_magic() {
                seq!["Invalid PDF file at "@ + c[i].path@]
            } else {
                Seq::empty()
            }
        } else {
            seq!["Statement "@ + c[i].path@ + " is a broken link"@]
        },
    }
}

/// The warning about a statement that git does not know.
pub open spec fn git_messages(c: Seq<StatementCandidate>, git: GitListing) -> Seq<Seq<char>> {
    match statement_position(c) {
        None => Seq::empty(),
        Some(i) => match git {
            GitListing::Listed { known: false } => seq!["File "@ + c[i].path@ + " is not known to git"@],
            _ => Seq::empty(),
        },
    }
}

/// The warning about a broken symbolic link.
pub open spec fn broken_link_message(f: FileEntry) -> Option<Seq<char>> {
    if !f.exists && f.symlink {
        Some(f.path@ + " is a broken link"@)
    } else {
        None
    }
}

/// The warnings of the checks after the evaluation, in order: the statement file, the statement
/// known to git, the broken links.
pub open spec fn post_hook_messages(f: PostHookFacts) -> Seq<Seq<char>> {
    statement_messages(f.statement@) + git_messages(f.statement@, f.git) + present(
        f.files@.map_values(|e: FileEntry| broken_link_message(e)),
    )
}

/// Whether the first bytes of a file are those of a PDF file.
fn is_pdf_header(header: &Vec<u8>) -> (res: bool)
    ensures
        res == (header@ == pdf_magic()),
{
    let res = header.len() == 4 && header[0] == 0x25 && header[1] == 0x50 && header[2] == 0x44
        && header[3] == 0x46;
    proof {
        if res {
            assert(header@ =~= pdf_magic());
        }
    }
    res
}

/// The warnings about the statement file.
pub fn check_statement(candidates: &Vec<StatementCandidate>) -> (res: Vec<String>)
    ensures
        string_views(res@) == statement_messages(candidates@),
{
    let mut out: Vec<String> = Vec::new();
    match find_statement_pdf(candidates) {
        None => {
            out.push("Missing statement file (statement/statement.pdf or testo/testo.pdf)".to_owned());
            assert(string_views(out@) =~= seq!["Missing statement file (statement/statement.pdf or testo/testo.pdf)"@]);
        },
        Some(i) => {
            let c = &candidates[i];
            if c.exists {
                if !is_pdf_header(&c.header) {
                    let mut t = "Invalid PDF file at ".to_owned();
                    push_str(&mut t, c.path.as_str());
                    let ghost tv = t@;
                    out.push(t);
                    assert(string_views(out@) =~= seq![tv]);
                } else {
                    assert(string_views(out@) =~= Seq::<Seq<char>>::empty());
                }
            } else {
                let mut t = "Statement ".to_owned();
                push_str(&mut t, c.path.as_str());
                push_str(&mut t, " is a broken link");
                let ghost tv = t@;
                out.push(t);
                assert(string_views(out@) =~= seq![tv]);
            }
        },
    }
    out
}

/// The warning about a statement that git does not know.
pub fn check_statement_git(candidates: &Vec<StatementCandidate>, git: &GitListing) -> (res: Vec<String>)
    ensures
        string_views(res@) == git_messages(candidates@, *git),
{
    let mut out: Vec<String> = Vec::new();
    match find_statement_pdf(candidates) {
        None => {
            assert(string_views(out@) =~= Seq::<Seq<char>>::empty());
        },
        Some(i) => match git {
            GitListing::Listed { known: false } => {
                let mut t = "File ".to_owned();
                push_str(&mut t, candidates[i].path.as_str());
                push_str(&mut t, " is not known to git");
                let ghost tv = t@;
                out.push(t);
                assert(string_views(out@) =~= seq![tv]);
            },
            _ => {
                assert(string_views(out@) =~= Seq::<Seq<char>>::empty());
            },
        },
    }
    out
}

/// The warnings about the broken symbolic links of the task.
pub fn check_broken_symlinks(files: &Vec<FileEntry>) -> (res: Vec<String>)
    ensures
        string_views(res@) == present(files@.map_values(|e: FileEntry| broken_link_message(e))),
{
    let mut out: Vec<String> = Vec::new();
    let ghost f = |e: FileEntry| broken_link_message(e);
    let mut i: usize = 0;
    while i < files.len()
        invariant
            i <= files@.len(),
            f == (|e: FileEntry| broken_link_message(e)),
            string_views(out@) == present(files@.take(i as int).map_values(f)),
        decreases files@.len() - i,
    {
        let e = &files[i];
        let m = if !e.exists && e.symlink {
            let mut t = e.path.clone();
            proof { assert(t@ == e.path@); }
            push_str(&mut t, " is a broken link");
            Some(t)
        } else {
            None
        };
        proof {
            assert(files@.take(i + 1).map_values(f).drop_last() =~= files@.take(i as int).map_values(f));
            assert(files@.take(i + 1).map_values(f).last() == f(files@[i as int]));
        }
        push_present(&mut out, m);
        i += 1;
    }
    assert(files@.take(i as int) =~= files@);
    out
}

/// The warnings of the checks after the evaluation of a task, in order.
pub fn post_hook(facts: &PostHookFacts) -> (res: Vec<String>)
    ensures
        string_views(res@) == post_hook_messages(*facts),
{
    let mut out = check_statement(&facts.statement);
    append_messages(&mut out, check_statement_git(&facts.statement, &facts.git));
    append_messages(&mut out, check_broken_symlinks(&facts.files));
    out
}

/// The deepest chain of symbolic links followed.
pub const MAX_SYMLINK_DEPTH: u32 = 40;

/// Where a walk along a chain of symbolic links stands: how many links it followed.
pub struct SymlinkWalk {
    pub depth: u32,
}

/// The next move of a walk along symbolic links.
pub enum SymlinkStep {
    /// The path is not a link: it is the end of the chain.
    Done,
    /// Read the link and go on from its target.
    Follow,
    /// Too many links were followed.
    TooDeep,
}

impl SymlinkWalk {
    /// A walk that followed no link yet.
    pub fn new() -> (res: SymlinkWalk)
        ensures
            res.depth == 0,
    {
        SymlinkWalk { depth: 0 }
    }

    /// The move for a path that is a link when `is_symlink` holds: stop at the first path that is
    /// not a link, and refuse to follow a link after `MAX_SYMLINK_DEPTH` of them.
    pub fn next(&mut self, is_symlink: bool) -> (res: SymlinkStep)
        ensures
            !is_symlink ==> res is Done && final(self).depth == old(self).depth,
            is_symlink && old(self).depth >= MAX_SYMLINK_DEPTH ==> res is TooDeep
                && final(self).depth == old(self).depth,
            is_symlink && old(self).depth < MAX_SYMLINK_DEPTH ==> res is Follow
                && final(self).depth == old(self).depth + 1,
    {
        if !is_symlink {
            SymlinkStep::Done
        } else if self.depth >= MAX_SYMLINK_DEPTH {
            SymlinkStep::TooDeep
        } else {
            self.depth = self.depth + 1;
            SymlinkStep::Follow
        }
    }
}

/// The message of a walk that followed too many links.
pub fn too_many_links_message() -> (res: String)
    ensures
        res@ == "Too many level of symbolic links"@,
{
    "Too many level of symbolic links".to_owned()
}

} // verus!
