//! Assembly of an IOI task from the entries of its testcase description, and the small
//! decisions taken while reading the task files.

use vstd::prelude::*;

use crate::ioi::{Checker, SubtaskInfo, TaskInputEntry, TestcaseInfo, TestcaseScoreAggregator, UserIo};
use crate::text::{push_str, str_eq};
use crate::words::string_views;

verus! {

/// An error in the description of a task.
#[derive(Debug, Clone)]
pub enum TaskError {
    /// A testcase comes before any subtask.
    TestcaseBeforeSubtask,
    /// The score type of the task is neither `min` nor `sum`.
    InvalidScoreAggregator(String),
    /// The `user_io` of a communication task is neither `std_io` nor `fifo_io`.
    UnsupportedUserIo(String),
}

impl TestcaseScoreAggregator {
    /// Parse the score type of a task: `min` or `sum`.
    pub fn from_str(s: &str) -> (res: Result<TestcaseScoreAggregator, TaskError>)
        ensures
            s@ == "min"@ ==> res == Ok::<TestcaseScoreAggregator, TaskError>(TestcaseScoreAggregator::Min),
            s@ == "sum"@ ==> res == Ok::<TestcaseScoreAggregator, TaskError>(TestcaseScoreAggregator::Sum),
            s@ != "min"@ && s@ != "sum"@ ==> (res matches Err(TaskError::InvalidScoreAggregator(t)) && t@ == s@),
    {
        proof {
            reveal_strlit("min");
            reveal_strlit("sum");
            assert("min"@[0] != "sum"@[0]);
        }
        if str_eq(s, "min") {
            Ok(TestcaseScoreAggregator::Min)
        } else if str_eq(s, "sum") {
            Ok(TestcaseScoreAggregator::Sum)
        } else {
            Err(TaskError::InvalidScoreAggregator(s.to_owned()))
        }
    }
}

/// The aggregator of a task: the one given by its score type if set, otherwise the average of
/// the testcases for a task with a single subtask and the minimum for the others.
pub fn select_aggregator(score_type: Option<&str>, num_subtasks: usize) -> (res: Result<TestcaseScoreAggregator, TaskError>)
    ensures
        score_type is None && num_subtasks == 1 ==> res == Ok::<TestcaseScoreAggregator, TaskError>(TestcaseScoreAggregator::Sum),
        score_type is None && num_subtasks != 1 ==> res == Ok::<TestcaseScoreAggregator, TaskError>(TestcaseScoreAggregator::Min),
        score_type matches Some(s) && s@ == "min"@ ==> res == Ok::<TestcaseScoreAggregator, TaskError>(TestcaseScoreAggregator::Min),
        score_type matches Some(s) && s@ == "sum"@ ==> res == Ok::<TestcaseScoreAggregator, TaskError>(TestcaseScoreAggregator::Sum),
        score_type matches Some(s) && s@ != "min"@ && s@ != "sum"@ ==> res is Err,
{
    match score_type {
        Some(s) => TestcaseScoreAggregator::from_str(s),
        None => if num_subtasks == 1 {
            Ok(TestcaseScoreAggregator::Sum)
        } else {
            Ok(TestcaseScoreAggregator::Min)
        },
    }
}

impl UserIo {
    /// Used for deserialization.
    /// Returns UserIo::StdIo.
    pub fn std_io() -> (res: Self)
        ensures
            res == UserIo::StdIo,
    {
        UserIo::StdIo
    }

    /// Used for deserialization.
    /// Returns UserIo::FifoIo.
    pub fn fifo_io() -> (res: Self)
        ensures
            res == UserIo::FifoIo,
    {
        UserIo::FifoIo
    }

    /// The type of communication of a communication task from its `user_io` setting: FIFOs by
    /// default, `std_io` or `fifo_io` when set.
    pub fn from_setting(setting: Option<&str>) -> (res: Result<UserIo, TaskError>)
        ensures
            setting is None ==> res == Ok::<UserIo, TaskError>(UserIo::FifoIo),
            setting matches Some(s) && s@ == "std_io"@ ==> res == Ok::<UserIo, TaskError>(UserIo::StdIo),
            setting matches Some(s) && s@ == "fifo_io"@ ==> res == Ok::<UserIo, TaskError>(UserIo::FifoIo),
            setting matches Some(s) ==> (s@ != "std_io"@ && s@ != "fifo_io"@
                ==> (res matches Err(TaskError::UnsupportedUserIo(t)) && t@ == s@)),
    {
        proof {
            reveal_strlit("std_io");
            reveal_strlit("fifo_io");
            assert("std_io"@[0] != "fifo_io"@[0]);
        }
        match setting {
            None => Ok(UserIo::FifoIo),
            Some(s) => if str_eq(s, "std_io") {
                Ok(UserIo::StdIo)
            } else if str_eq(s, "fifo_io") {
                Ok(UserIo::FifoIo)
            } else {
                Err(TaskError::UnsupportedUserIo(s.to_owned()))
            },
        }
    }
}

/// The message placeholders a checker may print, mapped to the actual messages.
pub open spec fn translated_message(message: Seq<char>) -> Seq<char> {
    if message == "translate:success"@ {
        "Output is correct"@
    } else if message == "translate:partial"@ {
        "Output is partially correct"@
    } else if message == "translate:wrong"@ {
        "Output is incorrect"@
    } else {
        message
    }
}

impl Checker {
    /// The checker may return a message to be translated. This function maps the message
    /// placeholders to actual messages.
    pub fn translate_checker_message(message: String) -> (res: String)
        ensures
            res@ == translated_message(message@),
    {
        proof {
            reveal_strlit("translate:success");
            reveal_strlit("translate:partial");
            reveal_strlit("translate:wrong");
            assert("translate:success"@[10] != "translate:partial"@[10]);
            assert("translate:success"@[10] != "translate:wrong"@[10]);
            assert("translate:partial"@[10] != "translate:wrong"@[10]);
        }
        if str_eq(message.as_str(), "translate:success") {
            "Output is correct".to_owned()
        } else if str_eq(message.as_str(), "translate:partial") {
            "Output is partially correct".to_owned()
        } else if str_eq(message.as_str(), "translate:wrong") {
            "Output is incorrect".to_owned()
        } else {
            message
        }
    }
}

/// The position of the first testcase with the given id, or the length of the sequence.
pub open spec fn testcase_position(v: Seq<TestcaseInfo>, id: u32) -> int
    decreases v.len(),
{
    if v.len() == 0 {
        0
    } else if testcase_position(v.drop_last(), id) < v.len() - 1 {
        testcase_position(v.drop_last(), id)
    } else if v.last().id == id {
        v.len() - 1
    } else {
        v.len() as int
    }
}

/// A subtask with its testcases, as the assembly sees it.
pub struct SubtaskModel {
    /// The id of the subtask.
    pub id: u32,
    /// Textual description of the subtask.
    pub description: Option<String>,
    /// The maximum score of the subtask.
    pub max_score: String,
    /// The testcases of the subtask.
    pub testcases: Seq<TestcaseInfo>,
}

/// The model of a subtask.
pub open spec fn subtask_model(s: SubtaskInfo) -> SubtaskModel {
    SubtaskModel { id: s.id, description: s.description, max_score: s.max_score, testcases: s.testcases@ }
}

/// The position of the first subtask with the given id, or the length of the sequence.
pub open spec fn model_position(v: Seq<SubtaskModel>, id: u32) -> int
    decreases v.len(),
{
    if v.len() == 0 {
        0
    } else if model_position(v.drop_last(), id) < v.len() - 1 {
        model_position(v.drop_last(), id)
    } else if v.last().id == id {
        v.len() - 1
    } else {
        v.len() as int
    }
}

/// Inserting a subtask in a collection keyed by id: it replaces the subtask with the same id, if
/// any, otherwise it is added at the end.
pub open spec fn insert_subtask(v: Seq<SubtaskModel>, s: SubtaskModel) -> Seq<SubtaskModel> {
    let p = model_position(v, s.id);
    if p < v.len() { v.update(p, s) } else { v.push(s) }
}

/// Inserting a testcase in a collection keyed by id: it replaces the testcase with the same id,
/// if any, otherwise it is added at the end.
pub open spec fn insert_testcase(v: Seq<TestcaseInfo>, t: TestcaseInfo) -> Seq<TestcaseInfo> {
    let p = testcase_position(v, t.id);
    if p < v.len() { v.update(p, t) } else { v.push(t) }
}

/// The state of the assembly: the subtasks completed so far and the one being filled.
pub struct Assembly {
    pub done: Seq<SubtaskModel>,
    pub last: Option<SubtaskModel>,
}

/// The assembly after the given entries, or `None` when a testcase comes before any subtask.
pub open spec fn assemble_fold(entries: Seq<TaskInputEntry>) -> Option<Assembly>
    decreases entries.len(),
{
    if entries.len() == 0 {
        Some(Assembly { done: Seq::empty(), last: None })
    } else {
        match assemble_fold(entries.drop_last()) {
            None => None,
            Some(a) => match entries.last() {
                TaskInputEntry::Subtask(st) => Some(Assembly {
                    done: match a.last {
                        Some(l) => insert_subtask(a.done, l),
                        None => a.done,
                    },
                    last: Some(subtask_model(st)),
                }),
                TaskInputEntry::Testcase(tc) => match a.last {
                    None => None,
                    Some(l) => Some(Assembly {
                        done: a.done,
                        last: Some(SubtaskModel { testcases: insert_testcase(l.testcases, tc), ..l }),
                    }),
                },
            },
        }
    }
}

/// The subtasks of the task, once the last one is completed.
pub open spec fn assembled(a: Assembly) -> Seq<SubtaskModel> {
    match a.last {
        Some(l) => insert_subtask(a.done, l),
        None => a.done,
    }
}

/// The subtask `s` is the one modeled by `m`.
pub open spec fn subtask_is(s: SubtaskInfo, m: SubtaskModel) -> bool {
    subtask_model(s) == m
}


proof fn lemma_model_position(v: Seq<SubtaskModel>, id: u32, p: int)
    requires
        0 <= p <= v.len(),
        forall|j: int| 0 <= j < p ==> (#[trigger] v[j]).id != id,
        p == v.len() || v[p].id == id,
    ensures
        model_position(v, id) == p,
    decreases v.len(),
{
    if v.len() > 0 {
        if p == v.len() {
            lemma_model_position(v.drop_last(), id, p - 1);
        } else {
            lemma_model_position(v.drop_last(), id, p);
        }
    }
}

proof fn lemma_testcase_position(v: Seq<TestcaseInfo>, id: u32, p: int)
    requires
        0 <= p <= v.len(),
        forall|j: int| 0 <= j < p ==> (#[trigger] v[j]).id != id,
        p == v.len() || v[p].id == id,
    ensures
        testcase_position(v, id) == p,
    decreases v.len(),
{
    if v.len() > 0 {
        if p == v.len() {
            lemma_testcase_position(v.drop_last(), id, p - 1);
        } else {
            lemma_testcase_position(v.drop_last(), id, p);
        }
    }
}

/// The models of a sequence of subtasks.
pub open spec fn models(v: Seq<SubtaskInfo>) -> Seq<SubtaskModel> {
    v.map_values(|s: SubtaskInfo| subtask_model(s))
}

/// Inserts a subtask keyed by id.
fn insert_subtask_exec(done: &mut Vec<SubtaskInfo>, s: SubtaskInfo)
    ensures
        models(final(done)@) == insert_subtask(models(old(done)@), subtask_model(s)),
{
    let ghost m = models(done@);
    let mut p: usize = 0;
    while p < done.len() && done[p].id != s.id
        invariant
            p <= done@.len(),
            m == models(done@),
            forall|j: int| 0 <= j < p ==> (#[trigger] m[j]).id != s.id,
        decreases done@.len() - p,
    {
        proof { assert(m[p as int].id == done@[p as int].id); }
        p += 1;
    }
    proof {
        if p < done@.len() {
            assert(m[p as int].id == done@[p as int].id);
        }
        lemma_model_position(m, s.id, p as int);
    }
    if p < done.len() {
        done.set(p, s);
        proof { assert(models(done@) =~= m.update(p as int, subtask_model(s))); }
    } else {
        done.push(s);
        proof { assert(models(done@) =~= m.push(subtask_model(s))); }
    }
}

/// Inserts a testcase keyed by id.
fn insert_testcase_exec(tcs: &mut Vec<TestcaseInfo>, t: TestcaseInfo)
    ensures
        final(tcs)@ == insert_testcase(old(tcs)@, t),
{
    let mut p: usize = 0;
    while p < tcs.len() && tcs[p].id != t.id
        invariant
            p <= tcs@.len(),
            forall|j: int| 0 <= j < p ==> (#[trigger] tcs@[j]).id != t.id,
        decreases tcs@.len() - p,
    {
        p += 1;
    }
    proof { lemma_testcase_position(tcs@, t.id, p as int); }
    if p < tcs.len() {
        tcs.set(p, t);
    } else {
        tcs.push(t);
    }
}

proof fn lemma_fold_none_extends(orig: Seq<TaskInputEntry>, i: int)
    requires
        0 <= i <= orig.len(),
        assemble_fold(orig.take(i)) is None,
    ensures
        assemble_fold(orig) is None,
    decreases orig.len() - i,
{
    if i == orig.len() {
        assert(orig.take(i) =~= orig);
    } else {
        assert(orig.take(i + 1).drop_last() =~= orig.take(i));
        lemma_fold_none_extends(orig, i + 1);
    }
}

/// Group the entries of the task input into subtasks, each with its testcases. A subtask
/// replaces an earlier one with the same id, and so does a testcase inside its subtask.
pub fn assemble_subtasks(entries: Vec<TaskInputEntry>) -> (res: Result<Vec<SubtaskInfo>, TaskError>)
    ensures
        res is Err <==> assemble_fold(entries@) is None,
        res matches Err(e) ==> e is TestcaseBeforeSubtask,
        res matches Ok(v) ==> ({
            let a = assembled(assemble_fold(entries@).unwrap());
            &&& v@.len() == a.len()
            &&& forall|i: int| 0 <= i < v@.len() ==> subtask_is(#[trigger] v@[i], a[i])
        }),
{
    let ghost orig = entries@;
    let mut rest = entries;
    let mut done: Vec<SubtaskInfo> = Vec::new();
    let mut last: Option<SubtaskInfo> = None;
    let mut i: usize = 0;
    let n = rest.len();
    proof { assert(orig.take(0) =~= Seq::<TaskInputEntry>::empty()); }
    while i < n
        invariant
            n == orig.len(),
            orig == entries@,
            i <= n,
            rest@ == orig.skip(i as int),
            assemble_fold(orig.take(i as int)) is Some,
            models(done@) == assemble_fold(orig.take(i as int)).unwrap().done,
            last is None <==> assemble_fold(orig.take(i as int)).unwrap().last is None,
            last matches Some(l) ==> assemble_fold(orig.take(i as int)).unwrap().last == Some(subtask_model(l)),
        decreases n - i,
    {
        let entry = rest.remove(0);
        proof {
            assert(entry == orig[i as int]);
            assert(rest@ =~= orig.skip(i + 1));
            assert(orig.take(i + 1).drop_last() =~= orig.take(i as int));
            assert(orig.take(i + 1).last() == orig[i as int]);
        }
        match entry {
            TaskInputEntry::Subtask(st) => {
                match last {
                    Some(l) => {
                        insert_subtask_exec(&mut done, l);
                    },
                    None => {},
                }
                last = Some(st);
            },
            TaskInputEntry::Testcase(tc) => {
                match last {
                    None => {
                        proof {
                            assert(assemble_fold(orig.take(i + 1)) is None);
                            lemma_fold_none_extends(orig, i + 1);
                        }
                        return Err(TaskError::TestcaseBeforeSubtask);
                    },
                    Some(mut l) => {
                        insert_testcase_exec(&mut l.testcases, tc);
                        last = Some(l);
                    },
                }
            },
        }
        i += 1;
    }
    proof { assert(orig.take(n as int) =~= orig); }
    match last {
        Some(l) => {
            insert_subtask_exec(&mut done, l);
        },
        None => {},
    }
    proof {
        let a = assembled(assemble_fold(orig).unwrap());
        assert(models(done@) == a);
        assert forall|i: int| 0 <= i < done@.len() implies subtask_is(#[trigger] done@[i], a[i]) by {
            assert(models(done@)[i] == subtask_model(done@[i]));
        }
    }
    Ok(done)
}


/// The default value for the `infile` field of task.yaml: no file, the solutions read their
/// standard input.
pub fn default_infile() -> (res: String)
    ensures
        res@ == Seq::<char>::empty(),
{
    String::new()
}

/// The default value for the `outfile` field of task.yaml: no file, the solutions write to
/// their standard output.
pub fn default_outfile() -> (res: String)
    ensures
        res@ == Seq::<char>::empty(),
{
    String::new()
}

/// The file named by the `infile` or `outfile` field of task.yaml: none when the field is empty.
pub fn solution_file(file: String) -> (res: Option<String>)
    ensures
        file@.len() == 0 ==> res is None,
        file@.len() > 0 ==> (res matches Some(f) && f@ == file@),
{
    if file.unicode_len() == 0 {
        None
    } else {
        Some(file)
    }
}

/// How task.yaml writes a boolean, as Python does.
pub fn python_bool_text(val: bool) -> (res: &'static str)
    ensures
        val ==> res@ == "True"@,
        !val ==> res@ == "False"@,
{
    if val {
        "True"
    } else {
        "False"
    }
}

/// A boolean of task.yaml written as Python does: `True` or `False`, anything else is invalid.
pub fn parse_python_bool(text: &str) -> (res: Option<bool>)
    ensures
        text@ == "True"@ ==> res == Some(true),
        text@ == "False"@ ==> res == Some(false),
        text@ != "True"@ && text@ != "False"@ ==> res is None,
{
    proof {
        reveal_strlit("True");
        reveal_strlit("False");
        assert("True"@[0] != "False"@[0]);
    }
    if str_eq(text, "True") {
        Some(true)
    } else if str_eq(text, "False") {
        Some(false)
    } else {
        None
    }
}

/// The text of the error about compiling a booklet: each message of the compiler on a line of its
/// own, after a tab and a bullet.
pub open spec fn compilation_errors_text(messages: Seq<Seq<char>>) -> Seq<char>
    decreases messages.len(),
{
    if messages.len() == 0 {
        "\t* "@
    } else if messages.len() == 1 {
        "\t* "@ + messages[0]
    } else {
        compilation_errors_text(messages.drop_last()) + "\n\t* "@ + messages.last()
    }
}

/// The text of the error about compiling a booklet, from the messages of the compiler.
pub fn display_compilation_errors(messages: &Vec<String>) -> (res: String)
    ensures
        res@ == compilation_errors_text(string_views(messages@)),
{
    let ghost ms = string_views(messages@);
    let mut out = "\t* ".to_owned();
    let mut i: usize = 0;
    while i < messages.len()
        invariant
            i <= messages@.len(),
            ms == string_views(messages@),
            i == 0 ==> out@ == "\t* "@,
            i > 0 ==> out@ == compilation_errors_text(ms.take(i as int)),
        decreases messages@.len() - i,
    {
        proof {
            reveal_strlit("\t* ");
            reveal_strlit("\n\t* ");
            assert(ms.take(i + 1).drop_last() =~= ms.take(i as int));
            assert(ms.take(i + 1).last() == messages@[i as int]@);
        }
        if i > 0 {
            push_str(&mut out, "\n\t* ");
        }
        push_str(&mut out, messages[i].as_str());
        proof {
            if i == 0 {
                assert(ms.take(1) =~= seq![ms[0]]);
            }
        }
        i += 1;
    }
    proof {
        assert(ms.take(i as int) =~= ms);
    }
    out
}

} // verus!
