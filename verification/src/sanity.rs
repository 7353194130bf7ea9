//! The sanity checks run on an IOI task: their names and categories, and the decisions they take
//! once the facts they look at (the files of the task, the outputs of the programs) are known.

use vstd::prelude::*;

use crate::sorting::{count_of, sorted, sort_ids};
use crate::subtask_name::{nfkc, normalize_nfkc};
use crate::text::{push_str, str_eq};
use crate::words::string_views;
use crate::att_samples::{Diagnostic, Severity};

verus! {

/// The kind of thing a sanity check looks at.
#[derive(Debug, Clone, Copy, PartialEq, Eq, Structural)]
pub enum SanityCheckCategory {
    /// The task as a whole.
    Task,
    /// The input and output files.
    Io,
    /// The solutions.
    Solutions,
    /// The statement.
    Statement,
    /// The checker.
    Checker,
}

/// Check that all the graders are present inside att.
#[derive(Debug, Default, Clone, Copy)]
pub struct AttGraders;
impl AttGraders {
    /// The name of the check.
    pub fn name(&self) -> (res: &'static str)
        ensures
            res@ == "AttGraders"@,
    {
        "AttGraders"
    }
}

/// Check that all the templates are present inside att.
#[derive(Debug, Default, Clone, Copy)]
pub struct AttTemplates;
impl AttTemplates {
    /// The name of the check.
    pub fn name(&self) -> (res: &'static str)
        ensures
            res@ == "AttTemplates"@,
    {
        "AttTemplates"
    }
}

/// Check that the sample cases inside att are valid symlinks.
#[derive(Debug, Default, Clone, Copy)]
pub struct AttSampleFiles;
impl AttSampleFiles {
    /// The name of the check.
    pub fn name(&self) -> (res: &'static str)
        ensures
            res@ == "AttSampleFiles"@,
    {
        "AttSampleFiles"
    }
}

/// The check on the sample files of the att folder that runs programs on them (the validator on
/// the inputs, the official solution and the checker on the outputs). Only its name is kept
/// here: the check consists of executions of the DAG.
#[derive(Debug, Default, Clone, Copy)]
pub struct AttSampleFilesValid;
impl AttSampleFilesValid {
    /// The name of the check.
    pub fn name(&self) -> (res: &'static str)
        ensures
            res@ == "AttSampleFilesValid"@,
    {
        "AttSampleFilesValid"
    }
}

/// The check that the source files in att don't contain @check rules. Only its name is kept
/// here: the rules are read by the checks of the solutions.
#[derive(Debug, Default, Clone, Copy)]
pub struct AttWithNoCheck;
impl AttWithNoCheck {
    /// The name of the check.
    pub fn name(&self) -> (res: &'static str)
        ensures
            res@ == "AttWithNoCheck"@,
    {
        "AttWithNoCheck"
    }
}

/// Check that the attachments end with a new line.
#[derive(Debug, Default, Clone, Copy)]
pub struct AttEndWithNewLine;
impl AttEndWithNewLine {
    /// The name of the check.
    pub fn name(&self) -> (res: &'static str)
        ensures
            res@ == "AttEndWithNewLine"@,
    {
        "AttEndWithNewLine"
    }
}

/// Check that att contains only files, no directories.
#[derive(Debug, Default, Clone, Copy)]
pub struct AttNoDirectory;
impl AttNoDirectory {
    /// The name of the check.
    pub fn name(&self) -> (res: &'static str)
        ensures
            res@ == "AttNoDirectory"@,
    {
        "AttNoDirectory"
    }
}

/// The check that the template and grader in att compile together. Only its name is kept here:
/// the check consists of compilations in the DAG.
#[derive(Debug, Default, Clone, Copy)]
pub struct AttTemplatesShouldCompile;
impl AttTemplatesShouldCompile {
    /// The name of the check.
    pub fn name(&self) -> (res: &'static str)
        ensures
            res@ == "AttTemplatesShouldCompile"@,
    {
        "AttTemplatesShouldCompile"
    }
}

/// The check that runs the custom checker on junk output files and expects it not to crash and
/// to give 0 points. Only its name is kept here: the check consists of executions of the DAG.
#[derive(Debug, Default, Clone, Copy)]
pub struct FuzzCheckerWithJunkOutput;
impl FuzzCheckerWithJunkOutput {
    /// The name of the check.
    pub fn name(&self) -> (res: &'static str)
        ensures
            res@ == "FuzzCheckerWithJunkOutput"@,
    {
        "FuzzCheckerWithJunkOutput"
    }

    /// The category of the check.
    pub fn category(&self) -> (res: SanityCheckCategory)
        ensures
            res == SanityCheckCategory::Checker,
    {
        SanityCheckCategory::Checker
    }
}

/// Check that all the graders inside sol are present.
#[derive(Debug, Default, Clone, Copy)]
pub struct SolGraders;
impl SolGraders {
    /// The name of the check.
    pub fn name(&self) -> (res: &'static str)
        ensures
            res@ == "SolGraders"@,
    {
        "SolGraders"
    }

    /// The category of the check.
    pub fn category(&self) -> (res: SanityCheckCategory)
        ensures
            res == SanityCheckCategory::Solutions,
    {
        SanityCheckCategory::Solutions
    }
}

/// Check that the template is a symlink.
#[derive(Debug, Default, Clone, Copy)]
pub struct SolTemplateSymlink;
impl SolTemplateSymlink {
    /// The name of the check.
    pub fn name(&self) -> (res: &'static str)
        ensures
            res@ == "SolTemplateSymlink"@,
    {
        "SolTemplateSymlink"
    }

    /// The category of the check.
    pub fn category(&self) -> (res: SanityCheckCategory)
        ensures
            res == SanityCheckCategory::Solutions,
    {
        SanityCheckCategory::Solutions
    }
}

/// Check that all the solutions (that are not symlinks) contain at least one check.
#[derive(Debug, Default, Clone, Copy)]
pub struct SolutionsWithNoChecks;
impl SolutionsWithNoChecks {
    /// The name of the check.
    pub fn name(&self) -> (res: &'static str)
        ensures
            res@ == "SolutionsWithNoChecks"@,
    {
        "SolutionsWithNoChecks"
    }

    /// The category of the check.
    pub fn category(&self) -> (res: SanityCheckCategory)
        ensures
            res == SanityCheckCategory::Solutions,
    {
        SanityCheckCategory::Solutions
    }
}

/// Check that no solution has a check on the subtask of the samples.
#[derive(Debug, Default, Clone, Copy)]
pub struct SolutionsWithSamplesCheck;
impl SolutionsWithSamplesCheck {
    /// The name of the check.
    pub fn name(&self) -> (res: &'static str)
        ensures
            res@ == "SolutionsWithSamplesChecks"@,
    {
        "SolutionsWithSamplesChecks"
    }

    /// The category of the check.
    pub fn category(&self) -> (res: SanityCheckCategory)
        ensures
            res == SanityCheckCategory::Solutions,
    {
        SanityCheckCategory::Solutions
    }
}

/// The check that the subtasks in the statement are consistent with the ones of the task. Only
/// its name is kept here: the scores it compares are fractional.
#[derive(Debug, Default, Clone, Copy)]
pub struct StatementSubtasks;
impl StatementSubtasks {
    /// The name of the check.
    pub fn name(&self) -> (res: &'static str)
        ensures
            res@ == "StatementSubtasks"@,
    {
        "StatementSubtasks"
    }

    /// The category of the check.
    pub fn category(&self) -> (res: SanityCheckCategory)
        ensures
            res == SanityCheckCategory::Statement,
    {
        SanityCheckCategory::Statement
    }
}

/// Check that there is at least a statement file, and that all statement files are valid.
#[derive(Debug, Default, Clone, Copy)]
pub struct StatementValid;
impl StatementValid {
    /// The name of the check.
    pub fn name(&self) -> (res: &'static str)
        ensures
            res@ == "StatementValid"@,
    {
        "StatementValid"
    }

    /// The category of the check.
    pub fn category(&self) -> (res: SanityCheckCategory)
        ensures
            res == SanityCheckCategory::Statement,
    {
        SanityCheckCategory::Statement
    }
}

/// Check that the official statement is the one compiled by task-maker or is known to git.
#[derive(Debug, Default, Clone, Copy)]
pub struct StatementCompiledOrGit;
impl StatementCompiledOrGit {
    /// The name of the check.
    pub fn name(&self) -> (res: &'static str)
        ensures
            res@ == "StatementCompiledOrGit"@,
    {
        "StatementCompiledOrGit"
    }

    /// The category of the check.
    pub fn category(&self) -> (res: SanityCheckCategory)
        ensures
            res == SanityCheckCategory::Statement,
    {
        SanityCheckCategory::Statement
    }
}

/// Check that all the subtasks have a name.
#[derive(Debug, Default, Clone, Copy)]
pub struct MissingSubtaskNames;
impl MissingSubtaskNames {
    /// The name of the check.
    pub fn name(&self) -> (res: &'static str)
        ensures
            res@ == "MissingSubtaskNames"@,
    {
        "MissingSubtaskNames"
    }

    /// The category of the check.
    pub fn category(&self) -> (res: SanityCheckCategory)
        ensures
            res == SanityCheckCategory::Io,
    {
        SanityCheckCategory::Io
    }
}

/// Check that all the checks target at least one subtask.
#[derive(Debug, Default, Clone, Copy)]
pub struct InvalidSubtaskName;
impl InvalidSubtaskName {
    /// The name of the check.
    pub fn name(&self) -> (res: &'static str)
        ensures
            res@ == "InvalidSubtaskName"@,
    {
        "InvalidSubtaskName"
    }

    /// The category of the check.
    pub fn category(&self) -> (res: SanityCheckCategory)
        ensures
            res == SanityCheckCategory::Io,
    {
        SanityCheckCategory::Io
    }
}

/// The check that the task has the usual maximum score. Only its name is kept here: the scores
/// it adds up are fractional.
#[derive(Debug, Default, Clone, Copy)]
pub struct TaskMaxScore;
impl TaskMaxScore {
    /// The name of the check.
    pub fn name(&self) -> (res: &'static str)
        ensures
            res@ == "TaskMaxScore"@,
    {
        "TaskMaxScore"
    }

    /// The category of the check.
    pub fn category(&self) -> (res: SanityCheckCategory)
        ensures
            res == SanityCheckCategory::Task,
    {
        SanityCheckCategory::Task
    }
}

/// Check that there are no broken links.
#[derive(Debug, Default, Clone, Copy)]
pub struct BrokenSymlinks;
impl BrokenSymlinks {
    /// The name of the check.
    pub fn name(&self) -> (res: &'static str)
        ensures
            res@ == "BrokenSymlinks"@,
    {
        "BrokenSymlinks"
    }

    /// The category of the check.
    pub fn category(&self) -> (res: SanityCheckCategory)
        ensures
            res == SanityCheckCategory::Task,
    {
        SanityCheckCategory::Task
    }
}

/// Check that cpp source files don't contain #include <bits/stdc++.h> (or whitespace variants of it).
#[derive(Debug, Default, Clone, Copy)]
pub struct NoBitsStdCpp;
impl NoBitsStdCpp {
    /// The name of the check.
    pub fn name(&self) -> (res: &'static str)
        ensures
            res@ == "NoBitsStdCpp"@,
    {
        "NoBitsStdCpp"
    }

    /// The category of the check.
    pub fn category(&self) -> (res: SanityCheckCategory)
        ensures
            res == SanityCheckCategory::Task,
    {
        SanityCheckCategory::Task
    }
}

/// Check that "implied" subtasks dependencies do not form cycles.
#[derive(Debug, Default, Clone, Copy)]
pub struct SubtaskDependencies;
impl SubtaskDependencies {
    /// The name of the check.
    pub fn name(&self) -> (res: &'static str)
        ensures
            res@ == "SubtaskDependencies"@,
    {
        "SubtaskDependencies"
    }

    /// The category of the check.
    pub fn category(&self) -> (res: SanityCheckCategory)
        ensures
            res == SanityCheckCategory::Task,
    {
        SanityCheckCategory::Task
    }
}

/// Check that the task title is not empty.
#[derive(Debug, Default, Clone, Copy)]
pub struct EmptyTitle;
impl EmptyTitle {
    /// The name of the check.
    pub fn name(&self) -> (res: &'static str)
        ensures
            res@ == "EmptyTitle"@,
    {
        "EmptyTitle"
    }

    /// The category of the check.
    pub fn category(&self) -> (res: SanityCheckCategory)
        ensures
            res == SanityCheckCategory::Task,
    {
        SanityCheckCategory::Task
    }
}

/// Check that the input and output files end with `\n`.
#[derive(Debug, Default, Clone)]
pub struct IOEndWithNewLine {
    /// The input files that do not end with a new line.
    pub inputs: Vec<String>,
    /// The official output files that do not end with a new line.
    pub outputs: Vec<String>,
}

impl IOEndWithNewLine {
    /// The name of the check.
    pub fn name(&self) -> (res: &'static str)
        ensures
            res@ == "IOEndWithNewLine"@,
    {
        "IOEndWithNewLine"
    }

    /// The category of the check.
    pub fn category(&self) -> (res: SanityCheckCategory)
        ensures
            res == SanityCheckCategory::Io,
    {
        SanityCheckCategory::Io
    }
}

/// The state of the check that a file ends with a new line: whether the last chunk read ends with
/// a new line, whether the file is binary, the path of the file, and the list of the paths of the
/// files that do not end with a new line.
pub struct NewLineState {
    pub ends_with_new_line: bool,
    pub is_binary: bool,
    pub path: Seq<char>,
    pub list: Seq<Seq<char>>,
}

/// Check that a file ends with `\n` and record its path if it doesn't. An empty file is considered
/// valid, and so is a binary file (one holding a NUL byte, which UTF-8 text never holds). The file
/// is read in chunks; an empty chunk marks its end.
#[derive(Debug, Clone)]
pub struct CheckEndWithNewLine {
    /// Whether the last chunk ends with a new line.
    last_chunk_ends_with_new_line: bool,
    /// Whether the file is binary, if so, do not record it.
    is_binary: bool,
    /// The path of the file that is being checked.
    path: String,
    /// The paths of the files that do not end with a new line.
    list: Vec<String>,
}

impl View for CheckEndWithNewLine {
    type V = NewLineState;

    closed spec fn view(&self) -> NewLineState {
        NewLineState {
            ends_with_new_line: self.last_chunk_ends_with_new_line,
            is_binary: self.is_binary,
            path: self.path@,
            list: crate::words::string_views(self.list@),
        }
    }
}

/// The state after reading one more chunk: a NUL byte marks the file as binary; a non-empty chunk
/// tells whether the file (so far) ends with a new line; the empty chunk ends the file, and then
/// the path is recorded if the file is not binary and does not end with a new line.
pub open spec fn read_chunk(s: NewLineState, chunk: Seq<u8>) -> NewLineState {
    let is_binary = s.is_binary || chunk.contains(0u8);
    if chunk.len() == 0 {
        NewLineState {
            is_binary,
            list: if !s.ends_with_new_line && !is_binary { s.list.push(s.path) } else { s.list },
            ..s
        }
    } else {
        NewLineState { is_binary, ends_with_new_line: chunk.last() == 10u8, ..s }
    }
}

/// The state after reading some chunks in order.
pub open spec fn read_chunks(s: NewLineState, chunks: Seq<Seq<u8>>) -> NewLineState
    decreases chunks.len(),
{
    if chunks.len() == 0 {
        s
    } else {
        read_chunk(read_chunks(s, chunks.drop_last()), chunks.last())
    }
}

impl CheckEndWithNewLine {
    /// A check of the file at `path`, recording it in `list` if it does not end with a new line.
    pub fn new(path: String, list: Vec<String>) -> (res: Self)
        ensures
            res@ == (NewLineState { ends_with_new_line: true, is_binary: false, path: path@, list: crate::words::string_views(list@) }),
    {
        Self { last_chunk_ends_with_new_line: true, is_binary: false, path, list }
    }

    /// Reads the next chunk of the file; the empty chunk marks its end.
    pub fn add_chunk(&mut self, chunk: &[u8])
        ensures
            final(self)@ == read_chunk(old(self)@, chunk@),
    {
        let mut has_nul = false;
        let mut i: usize = 0;
        while i < chunk.len()
            invariant
                i <= chunk@.len(),
                has_nul <==> exists|j: int| 0 <= j < i && chunk@[j] == 0u8,
            decreases chunk@.len() - i,
        {
            if chunk[i] == 0 {
                has_nul = true;
            }
            i += 1;
        }
        proof {
            assert(has_nul <==> chunk@.contains(0u8));
        }
        self.is_binary = self.is_binary || has_nul;
        if chunk.len() == 0 {
            if !self.last_chunk_ends_with_new_line && !self.is_binary {
                let ghost before = self.list@;
                self.list.push(self.path.clone());
                proof {
                    assert(crate::words::string_views(self.list@) =~= crate::words::string_views(before).push(self.path@));
                }
            }
        } else {
            self.last_chunk_ends_with_new_line = chunk[chunk.len() - 1] == 10;
        }
    }

    /// The paths of the files that do not end with a new line.
    pub fn list(&self) -> (res: &Vec<String>)
        ensures
            crate::words::string_views(res@) == self@.list,
    {
        &self.list
    }
}

/// Reading the chunks of a file, all non-empty, then the empty chunk that ends it, records the
/// path of the file exactly when the file is not empty, does not end with a new line and holds no
/// NUL byte.
pub proof fn lemma_new_line_check(path: Seq<char>, list: Seq<Seq<char>>, chunks: Seq<Seq<u8>>)
    requires
        forall|i: int| 0 <= i < chunks.len() ==> (#[trigger] chunks[i]).len() > 0,
    ensures
        ({
            let content = chunks.flatten();
            let s0 = NewLineState { ends_with_new_line: true, is_binary: false, path, list };
            read_chunks(s0, chunks.push(Seq::empty())).list == if content.len() > 0 && content.last() != 10u8
                && !content.contains(0u8) {
                list.push(path)
            } else {
                list
            }
        }),
{
    let s0 = NewLineState { ends_with_new_line: true, is_binary: false, path, list };
    lemma_read_nonempty_chunks(s0, chunks);
    assert(chunks.push(Seq::empty()).drop_last() =~= chunks);
}

/// The states met along the calls of `add_chunk` on a new check, one per chunk read, are the
/// states after reading each prefix of the chunks.
proof fn lemma_states_are_prefixes(s0: NewLineState, chunks: Seq<Seq<u8>>, states: Seq<NewLineState>, i: int)
    requires
        states.len() == chunks.len() + 1,
        states[0] == s0,
        forall|j: int| 0 <= j < chunks.len() ==> #[trigger] states[j + 1] == read_chunk(states[j], chunks[j]),
        0 <= i <= chunks.len(),
    ensures
        states[i] == read_chunks(s0, chunks.take(i)),
    decreases i,
{
    if i == 0 {
        assert(chunks.take(0) =~= Seq::<Seq<u8>>::empty());
    } else {
        lemma_states_are_prefixes(s0, chunks, states, i - 1);
        assert(chunks.take(i).drop_last() =~= chunks.take(i - 1));
        assert(states[(i - 1) + 1] == read_chunk(states[i - 1], chunks[i - 1]));
    }
}

/// A check made with `new(path, list)`, then given non-empty chunks with `add_chunk`, then the
/// empty chunk, records the path, once, exactly when the file is not empty, does not end with a
/// new line and holds no NUL byte; the non-empty chunks never touch the list. `states` are the
/// views of the check after `new` and after each call.
pub proof fn law_add_chunk_calls(path: Seq<char>, list: Seq<Seq<char>>, chunks: Seq<Seq<u8>>, states: Seq<NewLineState>)
    requires
        forall|i: int| 0 <= i < chunks.len() ==> (#[trigger] chunks[i]).len() > 0,
        states.len() == chunks.len() + 2,
        states[0] == (NewLineState { ends_with_new_line: true, is_binary: false, path, list }),
        forall|j: int| 0 <= j < chunks.len() ==> #[trigger] states[j + 1] == read_chunk(states[j], chunks[j]),
        states[chunks.len() as int + 1] == read_chunk(states[chunks.len() as int], Seq::empty()),
    ensures
        forall|j: int| 0 <= j <= chunks.len() ==> (#[trigger] states[j]).list == list,
        ({
            let content = chunks.flatten();
            states[chunks.len() as int + 1].list == if content.len() > 0 && content.last() != 10u8 && !content.contains(0u8) {
                list.push(path)
            } else {
                list
            }
        }),
{
    let s0 = states[0];
    let all = chunks.push(Seq::empty());
    assert forall|j: int| 0 <= j <= chunks.len() implies (#[trigger] states[j]).list == list by {
        lemma_states_are_prefixes(s0, chunks, states.take(chunks.len() as int + 1), j);
        let pre = chunks.take(j);
        assert forall|i: int| 0 <= i < pre.len() implies (#[trigger] pre[i]).len() > 0 by {
            assert(pre[i] == chunks[i]);
        }
        lemma_read_nonempty_chunks(s0, pre);
    }
    assert forall|j: int| 0 <= j < all.len() implies #[trigger] states[j + 1] == read_chunk(states[j], all[j]) by {
        if j < chunks.len() {
            assert(all[j] == chunks[j]);
        }
    }
    lemma_states_are_prefixes(s0, all, states, all.len() as int);
    assert(all.take(all.len() as int) =~= all);
    lemma_new_line_check(path, list, chunks);
}

/// After reading non-empty chunks, the state tells whether the content read so far is empty or
/// ends with a new line, and whether it holds a NUL byte.
proof fn lemma_read_nonempty_chunks(s0: NewLineState, chunks: Seq<Seq<u8>>)
    requires
        s0.ends_with_new_line,
        !s0.is_binary,
        forall|i: int| 0 <= i < chunks.len() ==> (#[trigger] chunks[i]).len() > 0,
    ensures
        read_chunks(s0, chunks) == (NewLineState {
            ends_with_new_line: chunks.flatten().len() == 0 || chunks.flatten().last() == 10u8,
            is_binary: chunks.flatten().contains(0u8),
            ..s0
        }),
    decreases chunks.len(),
{
    chunks.lemma_flatten_and_flatten_alt_are_equivalent();
    if chunks.len() == 0 {
        assert(!chunks.flatten().contains(0u8));
    } else {
        let prev = chunks.drop_last();
        assert forall|i: int| 0 <= i < prev.len() implies (#[trigger] prev[i]).len() > 0 by {
            assert(prev[i] == chunks[i]);
        }
        lemma_read_nonempty_chunks(s0, prev);
        prev.lemma_flatten_and_flatten_alt_are_equivalent();
        let c = chunks.last();
        assert(chunks[chunks.len() - 1] == c);
        assert(chunks.flatten() =~= prev.flatten() + c);
        assert(chunks.flatten().last() == c.last());
        assert(chunks.flatten().contains(0u8) <==> (prev.flatten().contains(0u8) || c.contains(0u8))) by {
            if chunks.flatten().contains(0u8) {
                let j = choose|j: int| 0 <= j < chunks.flatten().len() && chunks.flatten()[j] == 0u8;
                if j < prev.flatten().len() {
                    assert(prev.flatten()[j] == 0u8);
                } else {
                    assert(c[j - prev.flatten().len()] == 0u8);
                }
            }
            if prev.flatten().contains(0u8) {
                let j = choose|j: int| 0 <= j < prev.flatten().len() && prev.flatten()[j] == 0u8;
                assert(chunks.flatten()[j] == 0u8);
            }
            if c.contains(0u8) {
                let j = choose|j: int| 0 <= j < c.len() && c[j] == 0u8;
                assert(chunks.flatten()[prev.flatten().len() + j] == 0u8);
            }
        }
    }
}


/// Whether `s` matches the wildcard pattern `p`: `?` matches exactly one character, `*` matches
/// any number of characters (none included), any other character matches itself.
pub open spec fn glob_match(p: Seq<char>, s: Seq<char>) -> bool
    decreases p.len() + s.len(),
{
    if p.len() == 0 {
        s.len() == 0
    } else if p[0] == '*' {
        glob_match(p.drop_first(), s) || (s.len() > 0 && glob_match(p, s.drop_first()))
    } else {
        s.len() > 0 && (p[0] == '?' || p[0] == s[0]) && glob_match(p.drop_first(), s.drop_first())
    }
}

/// Whether `name` matches the wildcard pattern, with `WildMatch::new(pattern).matches(name)` of
/// wildmatch: `?` matches one character, `*` any number of them.
#[verifier::external_body]
fn wildcard_matches(pattern: &str, name: &str) -> (res: bool)
    ensures
        res == glob_match(pattern@, name@),
{
    wildmatch::WildMatch::new(pattern).matches(name)
}

/// The subtask (by its optional name) matches the pattern, once the pattern is normalized.
pub open spec fn subtask_matches(pattern: Seq<char>, name: Option<String>) -> bool {
    match name {
        Some(n) => glob_match(nfkc(pattern), n@),
        None => false,
    }
}

/// The ids of the subtasks whose name matches the pattern of a solution check, in the order of
/// the subtasks; the pattern is normalized first (the names already are), and a subtask without a
/// name matches no pattern.
pub fn find_subtasks_by_pattern_name(pattern: &str, subtasks: &Vec<(u32, Option<String>)>) -> (res: Vec<u32>)
    ensures
        res@ == subtasks@.filter(|st: (u32, Option<String>)| subtask_matches(pattern@, st.1)).map_values(|st: (u32, Option<String>)| st.0),
{
    let normalized = normalize_nfkc(pattern);
    let ghost pred = |st: (u32, Option<String>)| subtask_matches(pattern@, st.1);
    let mut res: Vec<u32> = Vec::new();
    let mut i: usize = 0;
    proof {
        reveal(Seq::filter);
        assert(subtasks@.take(0).filter(pred) =~= Seq::<(u32, Option<String>)>::empty());
    }
    while i < subtasks.len()
        invariant
            normalized@ == nfkc(pattern@),
            pred == (|st: (u32, Option<String>)| subtask_matches(pattern@, st.1)),
            i <= subtasks@.len(),
            res@ == subtasks@.take(i as int).filter(pred).map_values(|st: (u32, Option<String>)| st.0),
        decreases subtasks@.len() - i,
    {
        let m = match &subtasks[i].1 {
            Some(n) => wildcard_matches(normalized.as_str(), n.as_str()),
            None => false,
        };
        proof {
            assert(subtasks@.take(i + 1).drop_last() =~= subtasks@.take(i as int));
            assert(subtasks@.take(i + 1).last() == subtasks@[i as int]);
            assert(m == pred(subtasks@[i as int]));
        }
        let ghost f0 = subtasks@.take(i as int).filter(pred);
        let ghost before = res@;
        proof {
            reveal(Seq::filter);
            assert(subtasks@.take(i + 1).filter(pred) == if pred(subtasks@[i as int]) { f0.push(subtasks@[i as int]) } else { f0 });
        }
        if m {
            res.push(subtasks[i].0);
            proof {
                assert(f0.push(subtasks@[i as int]).map_values(|st: (u32, Option<String>)| st.0)
                    =~= f0.map_values(|st: (u32, Option<String>)| st.0).push(subtasks@[i as int].0));
            }
        }
        i += 1;
    }
    proof { assert(subtasks@.take(i as int) =~= subtasks@); }
    res
}

/// The score a solution check expects on the subtasks it targets: full, partial or zero.
#[derive(Debug, Clone, Copy, PartialEq, Eq, Structural)]
pub enum ExpectedScore {
    /// The solution solves the subtasks.
    Full,
    /// The solution scores part of the subtasks.
    Partial,
    /// The solution scores nothing on the subtasks.
    Zero,
}

/// A check of a solution: the score it expects and the subtasks its pattern matches.
#[derive(Debug, Clone)]
pub struct SubtaskCheck {
    /// The expected score.
    pub expected: ExpectedScore,
    /// The ids of the subtasks the check targets.
    pub subtasks: Vec<u32>,
}

/// The score expected by a solution on a subtask: that of the last of its checks targeting it.
pub open spec fn expected_on(checks: Seq<SubtaskCheck>, st: u32) -> Option<ExpectedScore>
    decreases checks.len(),
{
    if checks.len() == 0 {
        None
    } else if checks.last().subtasks@.contains(st) {
        Some(checks.last().expected)
    } else {
        expected_on(checks.drop_last(), st)
    }
}

/// The solution may score something on the subtask.
pub open spec fn may_score(e: ExpectedScore) -> bool {
    e is Full || e is Partial
}

/// The solution may fail to solve the subtask.
pub open spec fn may_fail(e: ExpectedScore) -> bool {
    e is Partial || e is Zero
}

/// The solution shows that solving `a` does not imply solving `b`: it may score on `a` while it
/// may fail `b`.
pub open spec fn refutes(checks: Seq<SubtaskCheck>, a: u32, b: u32) -> bool {
    match (expected_on(checks, a), expected_on(checks, b)) {
        (Some(r1), Some(r2)) => may_score(r1) && may_fail(r2),
        _ => false,
    }
}

/// According to the solutions, solving the subtask `a` implies solving `b` (both with a positive
/// score, and different): no solution refutes it.
pub open spec fn implies_subtask(nz: Seq<u32>, sols: Seq<Vec<SubtaskCheck>>, a: u32, b: u32) -> bool {
    a != b && nz.contains(a) && nz.contains(b) && forall|s: int| 0 <= s < sols.len() ==> !refutes(#[trigger] sols[s]@, a, b)
}

/// The subtasks `a` and `b` are solved by the same solutions.
pub open spec fn same_solutions(nz: Seq<u32>, sols: Seq<Vec<SubtaskCheck>>, a: u32, b: u32) -> bool {
    implies_subtask(nz, sols, a, b) && implies_subtask(nz, sols, b, a)
}

/// `a` is the smallest of the subtasks solved by the same solutions as it, and some other is.
pub open spec fn group_leader(nz: Seq<u32>, sols: Seq<Vec<SubtaskCheck>>, a: u32) -> bool {
    &&& !exists|b: u32| #[trigger] nz.contains(b) && same_solutions(nz, sols, a, b) && b < a
    &&& exists|b: u32| #[trigger] nz.contains(b) && same_solutions(nz, sols, a, b) && a < b
}

/// `g` lists, in increasing order, the leader `a` and the subtasks solved by the same solutions.
pub open spec fn group_ok(g: Seq<u32>, nz: Seq<u32>, sols: Seq<Vec<SubtaskCheck>>, a: u32) -> bool {
    &&& sorted(g)
    &&& forall|t: u32| #[trigger] count_of(g, t) == (if t == a || (nz.contains(t) && same_solutions(nz, sols, a, t) && a < t) { 1nat } else { 0nat })
}

/// The pairs of subtasks out of order of difficulty: `a < b` where solving `a` implies solving
/// `b` but not the other way around, for `a` taken in order from `outer`, then `b` from `nz`.
pub open spec fn out_of_order(outer: Seq<u32>, nz: Seq<u32>, sols: Seq<Vec<SubtaskCheck>>) -> Seq<(u32, u32)>
    decreases outer.len(),
{
    if outer.len() == 0 {
        Seq::empty()
    } else {
        let a = outer.last();
        out_of_order(outer.drop_last(), nz, sols) + nz.filter(
            |b: u32| a < b && implies_subtask(nz, sols, a, b) && !implies_subtask(nz, sols, b, a),
        ).map_values(|b: u32| (a, b))
    }
}

/// Some solution has some check.
pub open spec fn any_check(sols: Seq<Vec<SubtaskCheck>>) -> bool {
    exists|s: int| 0 <= s < sols.len() && (#[trigger] sols[s])@.len() > 0
}

/// What the solution checks tell about the difficulty of the subtasks.
#[derive(Debug, Clone)]
pub struct DependencyReport {
    /// The groups of subtasks solved by the same set of solutions, each in increasing order.
    pub same_solutions: Vec<Vec<u32>>,
    /// The pairs of subtasks that seem to be ordered incorrectly.
    pub out_of_order: Vec<(u32, u32)>,
}


/// Whether `x` is in the list.
fn contains_id(v: &Vec<u32>, x: u32) -> (res: bool)
    ensures
        res == v@.contains(x),
{
    let mut i: usize = 0;
    while i < v.len()
        invariant
            i <= v@.len(),
            forall|k: int| 0 <= k < i ==> v@[k] != x,
        decreases v@.len() - i,
    {
        if v[i] == x {
            return true;
        }
        i += 1;
    }
    false
}

/// The score a solution expects on the subtask `st`: that of its last check targeting it.
fn expected_for(checks: &Vec<SubtaskCheck>, st: u32) -> (res: Option<ExpectedScore>)
    ensures
        res == expected_on(checks@, st),
{
    let mut i: usize = checks.len();
    proof { assert(checks@.take(i as int) =~= checks@); }
    while i > 0
        invariant
            i <= checks@.len(),
            expected_on(checks@.take(i as int), st) == expected_on(checks@, st),
        decreases i,
    {
        proof {
            assert(checks@.take(i as int).drop_last() =~= checks@.take(i - 1));
            assert(checks@.take(i as int).last() == checks@[i - 1]);
        }
        if contains_id(&checks[i - 1].subtasks, st) {
            return Some(checks[i - 1].expected);
        }
        i -= 1;
    }
    None
}

/// Whether the expected scores of a solution on `a` and on `b` refute that solving `a` implies
/// solving `b`.
fn refuted(ea: Option<ExpectedScore>, eb: Option<ExpectedScore>) -> (res: bool)
    ensures
        res == match (ea, eb) {
            (Some(r1), Some(r2)) => may_score(r1) && may_fail(r2),
            _ => false,
        },
{
    match (ea, eb) {
        (Some(r1), Some(r2)) => {
            let s1 = match r1 { ExpectedScore::Full => true, ExpectedScore::Partial => true, ExpectedScore::Zero => false };
            let f2 = match r2 { ExpectedScore::Full => false, ExpectedScore::Partial => true, ExpectedScore::Zero => true };
            s1 && f2
        },
        _ => false,
    }
}

/// The matrix of the implications between the subtasks: entry `(i, j)` tells whether solving the
/// `i`-th subtask implies solving the `j`-th one.
fn implication_matrix(nz: &Vec<u32>, sols: &Vec<Vec<SubtaskCheck>>) -> (res: Vec<Vec<bool>>)
    requires
        nz@.no_duplicates(),
    ensures
        res@.len() == nz@.len(),
        forall|i: int| 0 <= i < nz@.len() ==> (#[trigger] res@[i])@.len() == nz@.len(),
        forall|i: int, j: int| 0 <= i < nz@.len() && 0 <= j < nz@.len()
            ==> (#[trigger] res@[i]@[j] <==> implies_subtask(nz@, sols@, nz@[i], nz@[j])),
{
    let n = nz.len();
    let mut dep: Vec<Vec<bool>> = Vec::new();
    let mut i: usize = 0;
    while i < n
        invariant
            n == nz@.len(),
            i <= n,
            dep@.len() == i,
            forall|a: int| 0 <= a < i ==> (#[trigger] dep@[a])@.len() == n,
            forall|a: int, b: int| 0 <= a < i && 0 <= b < n ==> (#[trigger] dep@[a]@[b] <==> a != b),
        decreases n - i,
    {
        let mut row: Vec<bool> = Vec::new();
        let mut j: usize = 0;
        while j < n
            invariant
                j <= n,
                row@.len() == j,
                forall|b: int| 0 <= b < j ==> (row@[b] <==> i != b),
            decreases n - j,
        {
            row.push(i != j);
            j += 1;
        }
        dep.push(row);
        i += 1;
    }
    let mut k: usize = 0;
    while k < sols.len()
        invariant
            n == nz@.len(),
            k <= sols@.len(),
            dep@.len() == n,
            forall|a: int| 0 <= a < n ==> (#[trigger] dep@[a])@.len() == n,
            forall|a: int, b: int| 0 <= a < n && 0 <= b < n ==> (#[trigger] dep@[a]@[b] <==> (a != b
                && forall|s: int| 0 <= s < k ==> !refutes(#[trigger] sols@[s]@, nz@[a], nz@[b]))),
        decreases sols@.len() - k,
    {
        let sol = &sols[k];
        let mut exps: Vec<Option<ExpectedScore>> = Vec::new();
        let mut a: usize = 0;
        while a < n
            invariant
                n == nz@.len(),
                a <= n,
                exps@.len() == a,
                forall|c: int| 0 <= c < a ==> exps@[c] == expected_on(sol@, nz@[c]),
            decreases n - a,
        {
            exps.push(expected_for(sol, nz[a]));
            a += 1;
        }
        let mut next: Vec<Vec<bool>> = Vec::new();
        let mut a: usize = 0;
        while a < n
            invariant
                n == nz@.len(),
                a <= n,
                next@.len() == a,
                exps@.len() == n,
                forall|c: int| 0 <= c < n ==> exps@[c] == expected_on(sol@, nz@[c]),
                dep@.len() == n,
                forall|c: int| 0 <= c < n ==> (#[trigger] dep@[c])@.len() == n,
                forall|c: int| 0 <= c < a ==> (#[trigger] next@[c])@.len() == n,
                forall|c: int, b: int| 0 <= c < a && 0 <= b < n ==> (#[trigger] next@[c]@[b] <==> (dep@[c]@[b]
                    && !refutes(sol@, nz@[c], nz@[b]))),
            decreases n - a,
        {
            let mut row: Vec<bool> = Vec::new();
            let mut b: usize = 0;
            while b < n
                invariant
                    n == nz@.len(),
                    a < n,
                    b <= n,
                    row@.len() == b,
                    exps@.len() == n,
                    forall|c: int| 0 <= c < n ==> exps@[c] == expected_on(sol@, nz@[c]),
                    dep@.len() == n,
                    dep@[a as int]@.len() == n,
                    forall|c: int| 0 <= c < b ==> (row@[c] <==> (dep@[a as int]@[c] && !refutes(sol@, nz@[a as int], nz@[c]))),
                decreases n - b,
            {
                let r = refuted(exps[a], exps[b]);
                row.push(dep[a][b] && !r);
                b += 1;
            }
            next.push(row);
            a += 1;
        }
        proof {
            assert forall|c: int, b: int| 0 <= c < n && 0 <= b < n implies (#[trigger] next@[c]@[b] <==> (c != b
                && forall|s: int| 0 <= s < k + 1 ==> !refutes(#[trigger] sols@[s]@, nz@[c], nz@[b]))) by {
                if next@[c]@[b] {
                    assert forall|s: int| 0 <= s < k + 1 implies !refutes(#[trigger] sols@[s]@, nz@[c], nz@[b]) by {
                        if s < k {
                            assert(dep@[c]@[b]);
                        }
                    }
                }
            }
        }
        dep = next;
        k += 1;
    }
    proof {
        assert forall|a: int, b: int| 0 <= a < n && 0 <= b < n implies (#[trigger] dep@[a]@[b]
            <==> implies_subtask(nz@, sols@, nz@[a], nz@[b])) by {
            assert(nz@.contains(nz@[a]));
            assert(nz@.contains(nz@[b]));
            if a != b {
                assert(nz@[a] != nz@[b]);
            }
        }
    }
    dep
}


/// In a list without repetitions, the element at a position is found only there.
proof fn lemma_no_dup_index(s: Seq<u32>, i: int, j: int)
    requires
        s.no_duplicates(),
        0 <= i < s.len(),
        0 <= j < s.len(),
        s[i] == s[j],
    ensures
        i == j,
{
}

impl SubtaskDependencies {
    /// Analyzes the implications between the subtasks with a positive score (`non_zero`, each
    /// once) told by the checks of the solutions: solving `a` implies solving `b` unless some
    /// solution may score on `a` while it may fail `b`. When some solution has checks, it gives the
    /// groups of subtasks solved by the same set of solutions and the pairs of subtasks that seem
    /// out of order of difficulty.
    pub fn analyze(&self, non_zero: &Vec<u32>, solutions: &Vec<Vec<SubtaskCheck>>) -> (res: DependencyReport)
        requires
            non_zero@.no_duplicates(),
        ensures
            !any_check(solutions@) ==> res.same_solutions@.len() == 0 && res.out_of_order@.len() == 0,
            any_check(solutions@) ==> {
                let leaders = non_zero@.filter(|a: u32| group_leader(non_zero@, solutions@, a));
                &&& res.same_solutions@.len() == leaders.len()
                &&& forall|i: int| 0 <= i < leaders.len()
                    ==> group_ok(#[trigger] res.same_solutions@[i]@, non_zero@, solutions@, leaders[i])
                &&& res.out_of_order@ == out_of_order(non_zero@, non_zero@, solutions@)
            },
    {
        let ghost nz = non_zero@;
        let ghost sols = solutions@;
        let n = non_zero.len();
        let mut any = false;
        let mut k: usize = 0;
        while k < solutions.len()
            invariant
                k <= sols.len(),
                sols == solutions@,
                any <==> exists|s: int| 0 <= s < k && (#[trigger] sols[s])@.len() > 0,
            decreases sols.len() - k,
        {
            if solutions[k].len() > 0 {
                any = true;
            }
            k += 1;
        }
        if !any {
            return DependencyReport { same_solutions: Vec::new(), out_of_order: Vec::new() };
        }
        let dep = implication_matrix(non_zero, solutions);
        let ghost lp = |a: u32| group_leader(nz, sols, a);
        let mut groups: Vec<Vec<u32>> = Vec::new();
        let mut i: usize = 0;
        proof {
            reveal(Seq::filter);
            assert(nz.take(0).filter(lp) =~= Seq::<u32>::empty());
        }
        while i < n
            invariant
                nz == non_zero@,
                sols == solutions@,
                nz.no_duplicates(),
                n == nz.len(),
                i <= n,
                lp == (|a: u32| group_leader(nz, sols, a)),
                dep@.len() == n,
                forall|a: int| 0 <= a < n ==> (#[trigger] dep@[a])@.len() == n,
                forall|a: int, b: int| 0 <= a < n && 0 <= b < n
                    ==> (#[trigger] dep@[a]@[b] <==> implies_subtask(nz, sols, nz[a], nz[b])),
                groups@.len() == nz.take(i as int).filter(lp).len(),
                forall|m: int| 0 <= m < groups@.len()
                    ==> group_ok(#[trigger] groups@[m]@, nz, sols, nz.take(i as int).filter(lp)[m]),
            decreases n - i,
        {
            let a = non_zero[i];
            let mut smaller = false;
            let mut partners: Vec<u32> = Vec::new();
            let mut j: usize = 0;
            while j < n
                invariant
                    nz == non_zero@,
                    nz.no_duplicates(),
                    n == nz.len(),
                    i < n,
                    a == nz[i as int],
                    j <= n,
                    dep@.len() == n,
                    forall|c: int| 0 <= c < n ==> (#[trigger] dep@[c])@.len() == n,
                    forall|c: int, b: int| 0 <= c < n && 0 <= b < n
                        ==> (#[trigger] dep@[c]@[b] <==> implies_subtask(nz, sols, nz[c], nz[b])),
                    smaller <==> exists|b: int| 0 <= b < j && same_solutions(nz, sols, a, #[trigger] nz[b]) && nz[b] < a,
                    forall|t: u32| #[trigger] count_of(partners@, t) == (if exists|b: int| 0 <= b < j && #[trigger] nz[b] == t
                        && same_solutions(nz, sols, a, t) && a < t { 1nat } else { 0nat }),
                    partners@.len() > 0 <==> exists|b: int| 0 <= b < j && same_solutions(nz, sols, a, #[trigger] nz[b]) && a < nz[b],
                decreases n - j,
            {
                let b = non_zero[j];
                let mutual = dep[i][j] && dep[j][i];
                if mutual && b < a {
                    smaller = true;
                }
                if mutual && a < b {
                    let ghost before = partners@;
                    partners.push(b);
                    proof {
                        assert(partners@.drop_last() =~= before);
                        assert(partners@.last() == b);
                        assert(nz[j as int] == b);
                        assert(same_solutions(nz, sols, a, b));
                        assert forall|t: u32| #[trigger] count_of(partners@, t) == (if exists|c: int| 0 <= c < j + 1 && #[trigger] nz[c] == t
                            && same_solutions(nz, sols, a, t) && a < t { 1nat } else { 0nat }) by {
                            assert(count_of(partners@, t) == count_of(before, t) + (if b == t { 1nat } else { 0nat }));
                            if t == b {
                                assert(!exists|c: int| 0 <= c < j && #[trigger] nz[c] == t) by {
                                    if exists|c: int| 0 <= c < j && #[trigger] nz[c] == t {
                                        let c = choose|c: int| 0 <= c < j && #[trigger] nz[c] == t;
                                        lemma_no_dup_index(nz, c, j as int);
                                    }
                                }
                            } else {
                                if exists|c: int| 0 <= c < j + 1 && #[trigger] nz[c] == t && same_solutions(nz, sols, a, t) && a < t {
                                    let c = choose|c: int| 0 <= c < j + 1 && #[trigger] nz[c] == t && same_solutions(nz, sols, a, t) && a < t;
                                    assert(c < j);
                                }
                            }
                        }
                    }
                } else {
                    proof {
                        assert forall|t: u32| #[trigger] count_of(partners@, t) == (if exists|c: int| 0 <= c < j + 1 && #[trigger] nz[c] == t
                            && same_solutions(nz, sols, a, t) && a < t { 1nat } else { 0nat }) by {
                            if exists|c: int| 0 <= c < j + 1 && #[trigger] nz[c] == t && same_solutions(nz, sols, a, t) && a < t {
                                let c = choose|c: int| 0 <= c < j + 1 && #[trigger] nz[c] == t && same_solutions(nz, sols, a, t) && a < t;
                                if c == j {
                                    assert(mutual);
                                }
                            }
                        }
                    }
                }
                j += 1;
            }
            let ghost fi = nz.take(i as int).filter(lp);
            proof {
                reveal(Seq::filter);
                assert(nz.take(i + 1).drop_last() =~= nz.take(i as int));
                assert(nz.take(i + 1).last() == a);
                assert(nz.take(i + 1).filter(lp) == if lp(a) { fi.push(a) } else { fi });
                assert(lp(a) <== (!smaller && partners@.len() > 0)) by {
                    if !smaller && partners@.len() > 0 {
                        let b = choose|b: int| 0 <= b < n && same_solutions(nz, sols, a, #[trigger] nz[b]) && a < nz[b];
                        assert(nz.contains(nz[b]));
                        assert(!exists|x: u32| #[trigger] nz.contains(x) && same_solutions(nz, sols, a, x) && x < a) by {
                            if exists|x: u32| #[trigger] nz.contains(x) && same_solutions(nz, sols, a, x) && x < a {
                                let x = choose|x: u32| #[trigger] nz.contains(x) && same_solutions(nz, sols, a, x) && x < a;
                                let c = choose|c: int| 0 <= c < nz.len() && nz[c] == x;
                                assert(same_solutions(nz, sols, a, nz[c]));
                            }
                        }
                    }
                }
                assert(lp(a) ==> (!smaller && partners@.len() > 0)) by {
                    if lp(a) {
                        if smaller {
                            let b = choose|b: int| 0 <= b < n && same_solutions(nz, sols, a, #[trigger] nz[b]) && nz[b] < a;
                            assert(nz.contains(nz[b]));
                        }
                        let x = choose|x: u32| #[trigger] nz.contains(x) && same_solutions(nz, sols, a, x) && a < x;
                        let c = choose|c: int| 0 <= c < nz.len() && nz[c] == x;
                        assert(same_solutions(nz, sols, a, nz[c]));
                    }
                }
            }
            if !smaller && partners.len() > 0 {
                let mut g: Vec<u32> = Vec::new();
                g.push(a);
                let mut q: usize = 0;
                while q < partners.len()
                    invariant
                        q <= partners@.len(),
                        g@ == seq![a] + partners@.take(q as int),
                    decreases partners@.len() - q,
                {
                    g.push(partners[q]);
                    proof { assert(g@ =~= seq![a] + partners@.take(q + 1)); }
                    q += 1;
                }
                proof { assert(partners@.take(q as int) =~= partners@); }
                let sorted_group = sort_ids(&g);
                proof {
                    assert forall|t: u32| #[trigger] count_of(sorted_group@, t) == (if t == a || (nz.contains(t)
                        && same_solutions(nz, sols, a, t) && a < t) { 1nat } else { 0nat }) by {
                        crate::sorting::lemma_count_concat(seq![a], partners@, t);
                        assert(count_of(seq![a], t) == if a == t { 1nat } else { 0nat }) by {
                            assert(seq![a].drop_last() =~= Seq::<u32>::empty());
                            assert(seq![a].last() == a);
                            assert(count_of(Seq::<u32>::empty(), t) == 0);
                        }
                        assert((exists|c: int| 0 <= c < n && #[trigger] nz[c] == t && same_solutions(nz, sols, a, t) && a < t)
                            <==> (nz.contains(t) && same_solutions(nz, sols, a, t) && a < t)) by {
                            if nz.contains(t) {
                                let c = choose|c: int| 0 <= c < nz.len() && nz[c] == t;
                                assert(nz[c] == t);
                            }
                        }
                    }
                }
                groups.push(sorted_group);
                proof {
                    assert forall|m: int| 0 <= m < groups@.len()
                        implies group_ok(#[trigger] groups@[m]@, nz, sols, nz.take(i + 1).filter(lp)[m]) by {
                        if m < fi.len() {
                            assert(nz.take(i + 1).filter(lp)[m] == fi[m]);
                        } else {
                            assert(nz.take(i + 1).filter(lp)[m] == a);
                        }
                    }
                }
            } else {
                proof {
                    assert(nz.take(i + 1).filter(lp) == fi);
                }
            }
            i += 1;
        }
        proof { assert(nz.take(n as int) =~= nz); }
        let mut pairs: Vec<(u32, u32)> = Vec::new();
        let mut i: usize = 0;
        proof { assert(nz.take(0) =~= Seq::<u32>::empty()); }
        while i < n
            invariant
                nz == non_zero@,
                sols == solutions@,
                nz.no_duplicates(),
                n == nz.len(),
                i <= n,
                dep@.len() == n,
                forall|a: int| 0 <= a < n ==> (#[trigger] dep@[a])@.len() == n,
                forall|a: int, b: int| 0 <= a < n && 0 <= b < n
                    ==> (#[trigger] dep@[a]@[b] <==> implies_subtask(nz, sols, nz[a], nz[b])),
                pairs@ == out_of_order(nz.take(i as int), nz, sols),
            decreases n - i,
        {
            let a = non_zero[i];
            let ghost cond = |b: u32| a < b && implies_subtask(nz, sols, a, b) && !implies_subtask(nz, sols, b, a);
            let ghost base = pairs@;
            let mut j: usize = 0;
            proof {
                reveal(Seq::filter);
                assert(nz.take(0).filter(cond).map_values(|b: u32| (a, b)) =~= Seq::<(u32, u32)>::empty());
                assert(pairs@ =~= base + nz.take(0).filter(cond).map_values(|b: u32| (a, b)));
            }
            while j < n
                invariant
                    nz == non_zero@,
                    n == nz.len(),
                    i < n,
                    a == nz[i as int],
                    j <= n,
                    cond == (|b: u32| a < b && implies_subtask(nz, sols, a, b) && !implies_subtask(nz, sols, b, a)),
                    dep@.len() == n,
                    forall|c: int| 0 <= c < n ==> (#[trigger] dep@[c])@.len() == n,
                    forall|c: int, b: int| 0 <= c < n && 0 <= b < n
                        ==> (#[trigger] dep@[c]@[b] <==> implies_subtask(nz, sols, nz[c], nz[b])),
                    pairs@ == base + nz.take(j as int).filter(cond).map_values(|b: u32| (a, b)),
                decreases n - j,
            {
                let b = non_zero[j];
                let ghost fj = nz.take(j as int).filter(cond);
                proof {
                    reveal(Seq::filter);
                    assert(nz.take(j + 1).drop_last() =~= nz.take(j as int));
                    assert(nz.take(j + 1).last() == b);
                    assert(nz.take(j + 1).filter(cond) == if cond(b) { fj.push(b) } else { fj });
                }
                if a < b && dep[i][j] && !dep[j][i] {
                    pairs.push((a, b));
                    proof {
                        assert(fj.push(b).map_values(|b: u32| (a, b)) =~= fj.map_values(|b: u32| (a, b)).push((a, b)));
                    }
                }
                j += 1;
            }
            proof {
                assert(nz.take(j as int) =~= nz);
                assert(nz.take(i + 1).drop_last() =~= nz.take(i as int));
                assert(nz.take(i + 1).last() == a);
            }
            i += 1;
        }
        proof { assert(nz.take(n as int) =~= nz); }
        DependencyReport { same_solutions: groups, out_of_order: pairs }
    }
}

/// The texts of the list, in increasing order, each once.
pub open spec fn sorted_texts(files: Seq<Seq<char>>, sorted: Seq<Seq<char>>) -> bool {
    &&& crate::text_order::strictly_sorted(sorted)
    &&& forall|x: Seq<char>| sorted.contains(x) <==> files.contains(x)
}

impl CheckEndWithNewLine {
    /// The warning about the files of a kind that do not end with a new line, with its note:
    /// the files are listed in increasing order, each once. No files, no warning.
    pub fn emit_warning(files: &Vec<String>, kind: &str) -> (res: Option<Diagnostic>)
        ensures
            files@.len() == 0 <==> res is None,
            res matches Some(d) ==> (exists|sorted: Seq<Seq<char>>| sorted_texts(string_views(files@), sorted)
                && d@.message == "These "@ + kind@ + " files don't end with a new line: "@ + crate::samples::join_comma(sorted))
                && d@.severity == Severity::Warning
                && d@.note == Some("It's bad practice to have files that do not end with new-line"@)
                && d@.help is None,
    {
        if files.len() == 0 {
            return None;
        }
        let sorted = crate::text_order::sort_unique(files);
        let mut m = "These ".to_owned();
        push_str(&mut m, kind);
        push_str(&mut m, " files don't end with a new line: ");
        let joined = crate::samples::join_paths(&sorted);
        push_str(&mut m, joined.as_str());
        proof {
            assert(crate::samples::views(files@) =~= string_views(files@));
            assert(sorted_texts(string_views(files@), crate::samples::views(sorted@)));
        }
        Some(Diagnostic {
            severity: Severity::Warning,
            message: m,
            note: Some("It's bad practice to have files that do not end with new-line".to_owned()),
            help: None,
        })
    }
}

} // verus!
