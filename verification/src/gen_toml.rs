//! The `gen/gen.toml` testcase description: groups of testcases generated by programs or copied
//! from static files, subtasks made of groups, and the resolution of all of it into the subtasks
//! and testcases of the task.

use vstd::prelude::*;

use crate::ioi::{InputGenerator, InputValidator, OutputGenerator, SourceFile, TM_VALIDATION_FILE_NAME};
use crate::text::{decimal, push_str, str_eq, u64_to_string};
use crate::words::{replace_all, replace_all_exec, split_words, string_views, words};

verus! {

/// The value of a constant usable in command lines: a string, integer, float or boolean already
/// written as text, or a value of another kind that cannot be used (written as text for the error
/// message).
#[derive(Debug, Clone)]
pub enum ConstValue {
    /// A value that stands in a command line as this text.
    Text(String),
    /// A value (an array or a table) that cannot stand in a command line.
    Unsupported(String),
}

/// The value of a constant, over the characters of its text.
pub enum ConstView {
    Text(Seq<char>),
    Unsupported(Seq<char>),
}

impl View for ConstValue {
    type V = ConstView;

    open spec fn view(&self) -> ConstView {
        match self {
            ConstValue::Text(s) => ConstView::Text(s@),
            ConstValue::Unsupported(s) => ConstView::Unsupported(s@),
        }
    }
}

/// The bindings of constants, over the characters of their names and values.
pub open spec fn binding_views(v: Seq<(String, ConstValue)>) -> Seq<(Seq<char>, ConstView)> {
    v.map_values(|b: (String, ConstValue)| (b.0@, b.1@))
}

/// The arguments of a command: either a single string of space separated arguments or a list.
#[derive(Debug, Clone)]
pub enum CommandLineArguments {
    /// The arguments are the words of the string.
    SpaceSeparated(String),
    /// The arguments, one by one.
    List(Vec<String>),
}

/// A testcase of a group: only its arguments, or its arguments with some more settings.
#[derive(Debug, Clone)]
pub enum TestCase {
    /// The arguments for the generator of the group.
    Args(CommandLineArguments),
    /// A testcase with its own settings.
    Detailed {
        /// The generator to use instead of the one of the group.
        generator: Option<String>,
        /// The arguments of the generator.
        args: CommandLineArguments,
        /// Another group the testcase also belongs to.
        group_name: Option<String>,
        /// How many times the testcase is repeated, instead of the repeat count of the group.
        repeat: Option<usize>,
    },
}

/// The sample testcases: how many there are, the group they form and where they are.
#[derive(Debug, Clone)]
pub enum SamplesConfig {
    /// This many samples, in the default group and at the default place.
    Simple(usize),
    /// Samples with their settings.
    Detailed {
        /// The group of the samples, `samples` by default.
        group_name: Option<String>,
        /// The number of samples.
        num: usize,
        /// The path of the samples, where `$#` stands for the index of a sample.
        pattern: Option<String>,
    },
}

/// A group of testcases.
#[derive(Debug, Clone)]
pub struct GroupConfig {
    /// How many times each testcase is repeated, unless it says otherwise.
    pub repeat: usize,
    /// The generator of the testcases of the group, instead of the default one.
    pub generator: Option<String>,
    /// The groups whose testcases belong to this group too.
    pub inclusions: Vec<String>,
    /// Static input files that are testcases of the group.
    pub copy: Vec<String>,
    /// The generated testcases of the group.
    pub testcases: Vec<TestCase>,
    /// Constants defined for this group only.
    pub local_constants: Vec<(String, ConstValue)>,
}

/// A subtask: a group with a score and a validator.
#[derive(Debug, Clone)]
pub struct SubtaskConfig {
    /// The score of the subtask, as written in the file.
    pub score: String,
    /// The testcases of the subtask.
    pub group: GroupConfig,
    /// The validator of the subtask, instead of the default one.
    pub validator: Option<String>,
    /// The arguments of the validator, instead of the default ones.
    pub validator_args: Option<CommandLineArguments>,
}

/// The content of `gen/gen.toml`.
#[derive(Debug, Clone)]
pub struct GenConfig {
    /// The default generator.
    pub generator: String,
    /// The default validator.
    pub validator: String,
    /// The default arguments of the validator.
    pub validator_args: CommandLineArguments,
    /// The sample testcases.
    pub samples: SamplesConfig,
    /// The groups of testcases, in the order in which they are written.
    pub group: Vec<(String, GroupConfig)>,
    /// The subtasks, in the order in which they are written.
    pub subtask: Vec<(String, SubtaskConfig)>,
    /// The constants usable in the command lines.
    pub constants: Vec<(String, ConstValue)>,
}

/// The name of the default generator.
pub fn default_generator() -> (res: String)
    ensures
        res@ == "generator"@,
{
    "generator".to_owned()
}

/// The name of the default validator.
pub fn default_validator() -> (res: String)
    ensures
        res@ == "validator"@,
{
    "validator".to_owned()
}

/// The default number of repetitions of a testcase.
pub fn default_repeat() -> (res: usize)
    ensures
        res == 1,
{
    1
}

/// The default arguments of the validator: the file to validate and the name of the subtask.
pub fn default_validator_args() -> (res: CommandLineArguments)
    ensures
        res matches CommandLineArguments::List(v) && string_views(v@) == seq!["$FILENAME#"@, "$SUBTASK_NAME#"@],
{
    let mut v: Vec<String> = Vec::new();
    v.push("$FILENAME#".to_owned());
    v.push("$SUBTASK_NAME#".to_owned());
    proof { assert(string_views(v@) =~= seq!["$FILENAME#"@, "$SUBTASK_NAME#"@]); }
    CommandLineArguments::List(v)
}

/// An error in the arguments of a command.
#[derive(Debug, Clone)]
pub enum ArgError {
    /// An argument `$name` names no constant.
    UnknownVariable(String),
    /// An argument `$name` names a constant whose value cannot stand in a command line.
    InvalidValue {
        /// The value, as text.
        value: String,
        /// The name of the constant.
        variable: String,
    },
}

/// An error in the arguments of a command, over the characters of its texts.
pub enum ArgIssue {
    UnknownVariable(Seq<char>),
    InvalidValue(Seq<char>, Seq<char>),
}

impl View for ArgError {
    type V = ArgIssue;

    open spec fn view(&self) -> ArgIssue {
        match self {
            ArgError::UnknownVariable(v) => ArgIssue::UnknownVariable(v@),
            ArgError::InvalidValue { value, variable } => ArgIssue::InvalidValue(value@, variable@),
        }
    }
}

/// The value of the last binding of `var` in `vars`, if any: a later binding hides an earlier one.
pub open spec fn lookup(vars: Seq<(Seq<char>, ConstView)>, var: Seq<char>) -> Option<ConstView>
    decreases vars.len(),
{
    if vars.len() == 0 {
        None
    } else if vars.last().0 == var {
        Some(vars.last().1)
    } else {
        lookup(vars.drop_last(), var)
    }
}

/// An argument with the value of the constant it names when it starts with `$`.
pub open spec fn map_arg(arg: Seq<char>, vars: Seq<(Seq<char>, ConstView)>) -> Result<Seq<char>, ArgIssue> {
    if arg.len() > 0 && arg[0] == '$' {
        let var = arg.drop_first();
        match lookup(vars, var) {
            None => Err(ArgIssue::UnknownVariable(var)),
            Some(ConstView::Text(s)) => Ok(s),
            Some(ConstView::Unsupported(v)) => Err(ArgIssue::InvalidValue(v, var)),
        }
    } else {
        Ok(arg)
    }
}

/// The arguments with the constants they name, or the error of the first one that fails.
pub open spec fn instantiate_args(items: Seq<Seq<char>>, vars: Seq<(Seq<char>, ConstView)>) -> Result<Seq<Seq<char>>, ArgIssue>
    decreases items.len(),
{
    if items.len() == 0 {
        Ok(Seq::empty())
    } else {
        match instantiate_args(items.drop_last(), vars) {
            Err(e) => Err(e),
            Ok(v) => match map_arg(items.last(), vars) {
                Err(e) => Err(e),
                Ok(a) => Ok(v.push(a)),
            },
        }
    }
}

/// The value bound to `var` in `vars`, if any.
fn lookup_exec(vars: &Vec<(String, ConstValue)>, var: &str) -> (res: Option<ConstValue>)
    ensures
        match lookup(binding_views(vars@), var@) {
            Some(v) => res matches Some(r) && r@ == v,
            None => res is None,
        },
{
    let ghost bv = binding_views(vars@);
    let mut i: usize = vars.len();
    proof { assert(bv.take(i as int) =~= bv); }
    while i > 0
        invariant
            bv == binding_views(vars@),
            i <= vars@.len(),
            lookup(bv.take(i as int), var@) == lookup(bv, var@),
        decreases i,
    {
        proof {
            assert(bv.take(i as int).drop_last() =~= bv.take(i - 1));
            assert(bv.take(i as int).last() == bv[i - 1]);
        }
        if str_eq(vars[i - 1].0.as_str(), var) {
            return Some(vars[i - 1].1.copy());
        }
        i -= 1;
    }
    proof { assert(bv.take(0) =~= Seq::<(Seq<char>, ConstView)>::empty()); }
    None
}

impl ConstValue {
    /// A copy of the value.
    pub fn copy(&self) -> (res: ConstValue)
        ensures
            res == *self,
            res@ == self@,
    {
        match self {
            ConstValue::Text(s) => ConstValue::Text(s.clone()),
            ConstValue::Unsupported(s) => ConstValue::Unsupported(s.clone()),
        }
    }
}

/// `arg`, or the value of the constant it names when it starts with `$`.
fn map_arg_exec(arg: &str, vars: &Vec<(String, ConstValue)>) -> (res: Result<String, ArgError>)
    ensures
        match map_arg(arg@, binding_views(vars@)) {
            Ok(a) => res matches Ok(r) && r@ == a,
            Err(e) => res matches Err(er) && er@ == e,
        },
{
    let n = arg.unicode_len();
    if n > 0 && arg.get_char(0) == '$' {
        let var = arg.substring_char(1, n);
        proof { assert(var@ =~= arg@.drop_first()); }
        match lookup_exec(vars, var) {
            None => Err(ArgError::UnknownVariable(var.to_owned())),
            Some(ConstValue::Text(s)) => Ok(s),
            Some(ConstValue::Unsupported(v)) => Err(ArgError::InvalidValue { value: v, variable: var.to_owned() }),
        }
    } else {
        Ok(arg.to_owned())
    }
}

impl CommandLineArguments {
    /// The arguments before the constants are put in.
    pub open spec fn items(&self) -> Seq<Seq<char>> {
        match self {
            CommandLineArguments::SpaceSeparated(x) => words(x@),
            CommandLineArguments::List(v) => string_views(v@),
        }
    }

    /// The arguments with the values of the constants they name (`$name`), or the error of the
    /// first argument that names no constant or one that cannot stand in a command line.
    pub fn instantiate(&self, variables: &Vec<(String, ConstValue)>) -> (res: Result<Vec<String>, ArgError>)
        ensures
            match instantiate_args(self.items(), binding_views(variables@)) {
                Ok(v) => res matches Ok(r) && string_views(r@) == v,
                Err(e) => res matches Err(er) && er@ == e,
            },
    {
        let items: Vec<String> = match self {
            CommandLineArguments::SpaceSeparated(x) => split_words(x.as_str()),
            CommandLineArguments::List(v) => {
                let mut c: Vec<String> = Vec::new();
                let mut k: usize = 0;
                while k < v.len()
                    invariant
                        k <= v@.len(),
                        c@ == v@.take(k as int),
                    decreases v@.len() - k,
                {
                    c.push(v[k].clone());
                    proof { assert(c@ =~= v@.take(k + 1)); }
                    k += 1;
                }
                proof { assert(c@ =~= v@); }
                c
            },
        };
        let ghost its = self.items();
        let mut out: Vec<String> = Vec::new();
        let mut i: usize = 0;
        proof {
            assert(its.take(0) =~= Seq::<Seq<char>>::empty());
            assert(string_views(out@) =~= Seq::<Seq<char>>::empty());
        }
        while i < items.len()
            invariant
                its == self.items(),
                string_views(items@) == its,
                i <= items@.len(),
                instantiate_args(its.take(i as int), binding_views(variables@)) == Ok::<Seq<Seq<char>>, ArgIssue>(string_views(out@)),
            decreases items@.len() - i,
        {
            proof {
                assert(its.take(i + 1).drop_last() =~= its.take(i as int));
                assert(its[i as int] == items@[i as int]@);
                assert(its.take(i + 1).last() == items@[i as int]@);
            }
            match map_arg_exec(items[i].as_str(), variables) {
                Ok(a) => {
                    let ghost before = out@;
                    out.push(a);
                    proof {
                        assert(string_views(out@) =~= string_views(before).push(a@));
                    }
                },
                Err(e) => {
                    proof {
                        assert(instantiate_args(its.take(i + 1), binding_views(variables@)) == Err::<Seq<Seq<char>>, ArgIssue>(e@));
                        lemma_instantiate_err_extends(its, binding_views(variables@), i as int + 1);
                    }
                    return Err(e);
                },
            }
            i += 1;
        }
        proof { assert(its.take(i as int) =~= its); }
        Ok(out)
    }
}

/// Once an argument fails, the instantiation of any longer list fails with the same error.
proof fn lemma_instantiate_err_extends(items: Seq<Seq<char>>, vars: Seq<(Seq<char>, ConstView)>, i: int)
    requires
        0 <= i <= items.len(),
        instantiate_args(items.take(i), vars) is Err,
    ensures
        instantiate_args(items, vars) == instantiate_args(items.take(i), vars),
    decreases items.len() - i,
{
    if i == items.len() {
        assert(items.take(i) =~= items);
    } else {
        assert(items.take(i + 1).drop_last() =~= items.take(i));
        lemma_instantiate_err_extends(items, vars, i + 1);
    }
}

/// A testcase as the resolution sees it: its own generator, its arguments, the other group it
/// belongs to and its repeat count.
pub struct TestCaseView {
    pub generator: Option<Seq<char>>,
    pub args: Seq<Seq<char>>,
    pub group_name: Option<Seq<char>>,
    pub repeat: Option<usize>,
}

/// The view of an optional string.
pub open spec fn opt_view(o: Option<String>) -> Option<Seq<char>> {
    match o {
        Some(s) => Some(s@),
        None => None,
    }
}

impl View for TestCase {
    type V = TestCaseView;

    open spec fn view(&self) -> TestCaseView {
        match self {
            TestCase::Args(a) => TestCaseView { generator: None, args: a.items(), group_name: None, repeat: None },
            TestCase::Detailed { generator, args, group_name, repeat } =>
                TestCaseView { generator: opt_view(*generator), args: args.items(), group_name: opt_view(*group_name), repeat: *repeat },
        }
    }
}

/// The views of a sequence of testcases.
pub open spec fn testcase_views(s: Seq<TestCase>) -> Seq<TestCaseView> {
    s.map_values(|t: TestCase| t@)
}

/// A copy of an optional string.
fn copy_opt(o: &Option<String>) -> (res: Option<String>)
    ensures
        res == *o,
{
    match o {
        Some(s) => Some(s.clone()),
        None => None,
    }
}

impl TestCase {
    /// The arguments of the testcase.
    pub fn args(&self) -> (res: &CommandLineArguments)
        ensures
            res.items() == self@.args,
    {
        match self {
            TestCase::Args(a) => a,
            TestCase::Detailed { args, .. } => args,
        }
    }

    /// The generator of the testcase, if it has its own.
    pub fn generator(&self) -> (res: Option<&str>)
        ensures
            match self@.generator {
                Some(g) => res matches Some(r) && r@ == g,
                None => res is None,
            },
    {
        match self {
            TestCase::Args(_) => None,
            TestCase::Detailed { generator, .. } => match generator {
                Some(g) => Some(g.as_str()),
                None => None,
            },
        }
    }

    /// The other group the testcase belongs to, if any.
    pub fn group_name(&self) -> (res: Option<&str>)
        ensures
            match self@.group_name {
                Some(g) => res matches Some(r) && r@ == g,
                None => res is None,
            },
    {
        match self {
            TestCase::Args(_) => None,
            TestCase::Detailed { group_name, .. } => match group_name {
                Some(g) => Some(g.as_str()),
                None => None,
            },
        }
    }

    /// Takes the repeat count out of the testcase.
    pub fn consume_repeat(&mut self) -> (res: Option<usize>)
        ensures
            res == old(self)@.repeat,
            final(self)@ == (TestCaseView { repeat: None, ..old(self)@ }),
    {
        match self {
            TestCase::Args(_) => None,
            TestCase::Detailed { repeat, .. } => {
                let r = *repeat;
                *repeat = None;
                r
            },
        }
    }

    /// A copy of the testcase.
    pub fn copy(&self) -> (res: TestCase)
        ensures
            res@ == self@,
    {
        match self {
            TestCase::Args(a) => TestCase::Args(a.copy()),
            TestCase::Detailed { generator, args, group_name, repeat } => TestCase::Detailed {
                generator: copy_opt(generator),
                args: args.copy(),
                group_name: copy_opt(group_name),
                repeat: *repeat,
            },
        }
    }
}

impl CommandLineArguments {
    /// A copy of the arguments.
    pub fn copy(&self) -> (res: CommandLineArguments)
        ensures
            res.items() == self.items(),
    {
        match self {
            CommandLineArguments::SpaceSeparated(x) => CommandLineArguments::SpaceSeparated(x.clone()),
            CommandLineArguments::List(v) => {
                let mut c: Vec<String> = Vec::new();
                let mut k: usize = 0;
                while k < v.len()
                    invariant
                        k <= v@.len(),
                        c@ == v@.take(k as int),
                    decreases v@.len() - k,
                {
                    c.push(v[k].clone());
                    proof { assert(c@ =~= v@.take(k + 1)); }
                    k += 1;
                }
                proof { assert(c@ =~= v@); }
                CommandLineArguments::List(c)
            },
        }
    }
}

/// The testcases of a group with the repetitions written out: each testcase, without its repeat
/// count, as many times as it says or as the group says.
pub open spec fn expand_repeats(tcs: Seq<TestCaseView>, repeat: usize) -> Seq<TestCaseView>
    decreases tcs.len(),
{
    if tcs.len() == 0 {
        Seq::empty()
    } else {
        let t = tcs.last();
        let n: nat = match t.repeat {
            Some(r) => r as nat,
            None => repeat as nat,
        };
        expand_repeats(tcs.drop_last(), repeat) + Seq::new(n, |k: int| TestCaseView { repeat: None, ..t })
    }
}

/// Written-out testcases have no repeat count.
pub proof fn lemma_expand_repeats_plain(tcs: Seq<TestCaseView>, repeat: usize)
    ensures
        forall|i: int| 0 <= i < expand_repeats(tcs, repeat).len() ==> (#[trigger] expand_repeats(tcs, repeat)[i]).repeat is None,
    decreases tcs.len(),
{
    if tcs.len() > 0 {
        lemma_expand_repeats_plain(tcs.drop_last(), repeat);
    }
}

/// Testcases without a repeat count, repeated once, stay as they are.
pub proof fn lemma_expand_repeats_once(tcs: Seq<TestCaseView>)
    requires
        forall|i: int| 0 <= i < tcs.len() ==> (#[trigger] tcs[i]).repeat is None,
    ensures
        expand_repeats(tcs, 1) == tcs,
    decreases tcs.len(),
{
    if tcs.len() > 0 {
        lemma_expand_repeats_once(tcs.drop_last());
        let t = tcs.last();
        assert(Seq::new(1nat, |k: int| TestCaseView { repeat: None, ..t }) =~= seq![t]);
        assert(tcs =~= tcs.drop_last() + seq![t]);
    }
}

/// Writing out the repetitions twice gives what writing them out once gives: after the first
/// time no testcase has a repeat count and the group repeats once.
pub proof fn law_resolve_repeats_idempotent(tcs: Seq<TestCaseView>, repeat: usize)
    ensures
        expand_repeats(expand_repeats(tcs, repeat), 1) == expand_repeats(tcs, repeat),
{
    lemma_expand_repeats_plain(tcs, repeat);
    lemma_expand_repeats_once(expand_repeats(tcs, repeat));
}

impl GroupConfig {
    /// Writes out the repetitions of the testcases: each testcase, without its repeat count, is
    /// written as many times as it says or as the group says, and the group then repeats once.
    pub fn resolve_repeats(&mut self)
        requires
            expand_repeats(testcase_views(old(self).testcases@), old(self).repeat).len() <= usize::MAX,
        ensures
            testcase_views(final(self).testcases@) == expand_repeats(testcase_views(old(self).testcases@), old(self).repeat),
            final(self).repeat == 1,
            final(self).generator == old(self).generator,
            final(self).inclusions == old(self).inclusions,
            final(self).copy == old(self).copy,
            final(self).local_constants == old(self).local_constants,
    {
        let out = expand_testcases(&self.testcases, self.repeat);
        self.testcases = out;
        self.repeat = 1;
    }
}

/// The expansion of a prefix is no longer than the expansion of the whole.
proof fn lemma_expand_prefix_bound(tcs: Seq<TestCaseView>, repeat: usize, i: int)
    requires
        0 <= i <= tcs.len(),
    ensures
        expand_repeats(tcs.take(i), repeat).len() <= expand_repeats(tcs, repeat).len(),
    decreases tcs.len() - i,
{
    if i < tcs.len() {
        assert(tcs.take(i + 1).drop_last() =~= tcs.take(i));
        lemma_expand_prefix_bound(tcs, repeat, i + 1);
    } else {
        assert(tcs.take(i) =~= tcs);
    }
}

/// The default group of the samples.
pub open spec fn default_samples_group() -> Seq<char> {
    "samples"@
}

impl SamplesConfig {
    /// The number of samples.
    pub fn num(&self) -> (res: usize)
        ensures
            res == self.num_spec(),
    {
        match self {
            SamplesConfig::Simple(n) => *n,
            SamplesConfig::Detailed { num, .. } => *num,
        }
    }

    /// The number of samples.
    pub open spec fn num_spec(&self) -> usize {
        match self {
            SamplesConfig::Simple(n) => *n,
            SamplesConfig::Detailed { num, .. } => *num,
        }
    }

    /// The group of the samples.
    pub fn group_name(&self) -> (res: &str)
        ensures
            res@ == self.group_name_spec(),
    {
        match self {
            SamplesConfig::Simple(_) => "samples",
            SamplesConfig::Detailed { group_name, .. } => match group_name {
                Some(g) => g.as_str(),
                None => "samples",
            },
        }
    }

    /// The group of the samples.
    pub open spec fn group_name_spec(&self) -> Seq<char> {
        match self {
            SamplesConfig::Simple(_) => default_samples_group(),
            SamplesConfig::Detailed { group_name, .. } => match group_name {
                Some(g) => g@,
                None => default_samples_group(),
            },
        }
    }

    /// The path of the sample with the given index: the pattern with `$#` replaced by the index,
    /// or `statement/{task_name}.input{index}.txt`.
    pub open spec fn path_spec(&self, task_name: Seq<char>, index: nat) -> Seq<char> {
        match self {
            SamplesConfig::Detailed { pattern: Some(p), .. } => replace_all(p@, "$#"@, decimal(index)),
            _ => "statement/"@ + task_name + ".input"@ + decimal(index) + ".txt"@,
        }
    }

    /// The path of the sample with the given index: the pattern with `$#` replaced by the index,
    /// or `statement/{task_name}.input{index}.txt`.
    pub fn path(&self, task_name: &str, index: usize) -> (res: String)
        ensures
            res@ == self.path_spec(task_name@, index as nat),
    {
        let idx = u64_to_string(index as u64);
        match self {
            SamplesConfig::Detailed { pattern: Some(p), .. } => {
                proof { reveal_strlit("$#"); }
                replace_all_exec(p.as_str(), "$#", idx.as_str())
            },
            _ => {
                let mut s = "statement/".to_owned();
                push_str(&mut s, task_name);
                push_str(&mut s, ".input");
                push_str(&mut s, idx.as_str());
                push_str(&mut s, ".txt");
                s
            },
        }
    }
}

} // verus!

verus! {

/// Why a program (a generator or a validator) could not be chosen.
#[derive(Debug, Clone)]
pub enum SourceError {
    /// More than one source file was found: their file names.
    Multiple(Vec<String>),
    /// No source file was found: the name that was looked for.
    Missing(String),
}

/// Why a program could not be chosen, over the characters of the texts.
pub enum SourceIssue {
    Multiple(Seq<Seq<char>>),
    Missing(Seq<char>),
}

impl View for SourceError {
    type V = SourceIssue;

    open spec fn view(&self) -> SourceIssue {
        match self {
            SourceError::Multiple(v) => SourceIssue::Multiple(string_views(v@)),
            SourceError::Missing(n) => SourceIssue::Missing(n@),
        }
    }
}

/// The name of the file at the end of a path: what follows its last `/`.
pub open spec fn last_component(p: Seq<char>) -> Seq<char>
    decreases p.len(),
{
    if p.len() == 0 {
        p
    } else if p.last() == '/' {
        Seq::empty()
    } else {
        last_component(p.drop_last()).push(p.last())
    }
}

/// The name of the file at the end of a path: what follows its last `/`.
pub fn file_name(p: &str) -> (res: String)
    ensures
        res@ == last_component(p@),
{
    let cs = crate::lexing::to_chars(p);
    let n = cs.len();
    let mut start: usize = n;
    proof {
        assert(p@.take(n as int) =~= p@);
        assert(p@.skip(n as int) =~= Seq::<char>::empty());
        assert(last_component(p@) + Seq::<char>::empty() =~= last_component(p@));
    }
    while start > 0 && cs[start - 1] != '/'
        invariant
            cs@ == p@,
            n == p@.len(),
            start <= n,
            last_component(p@) == last_component(p@.take(start as int)) + p@.skip(start as int),
        decreases start,
    {
        proof {
            let t = p@.take(start as int);
            assert(t.drop_last() =~= p@.take(start - 1));
            assert(t.last() == p@[start - 1]);
            assert(p@.skip(start - 1) =~= seq![p@[start - 1]] + p@.skip(start as int));
            assert(last_component(t) == last_component(p@.take(start - 1)).push(p@[start - 1]));
            assert(last_component(p@.take(start - 1)).push(p@[start - 1]) + p@.skip(start as int)
                =~= last_component(p@.take(start - 1)) + p@.skip(start - 1));
        }
        start -= 1;
    }
    proof {
        if start > 0 {
            let t = p@.take(start as int);
            assert(t.last() == p@[start - 1]);
            assert(last_component(t) =~= Seq::<char>::empty());
        } else {
            assert(p@.take(0) =~= Seq::<char>::empty());
        }
        assert(last_component(p@) =~= p@.skip(start as int));
    }
    proof {
        assert(p@.subrange(start as int, n as int) =~= p@.skip(start as int));
    }
    p.substring_char(start, n).to_owned()
}

impl SourceError {
    /// The message of the error, for a program of the given kind (`generator` or `validator`):
    /// the names of the files found are listed as `{:?}` writes them.
    pub fn message(&self, kind: &str) -> (res: String)
        ensures
            match self {
                SourceError::Multiple(names) => res@ == "Multiple "@ + kind@ + "s found: "@
                    + crate::task_checks::debug_list(string_views(names@)),
                SourceError::Missing(name) => res@ == "No "@ + kind@ + " `"@ + name@ + "` found"@,
            },
    {
        match self {
            SourceError::Multiple(names) => {
                let mut m = "Multiple ".to_owned();
                push_str(&mut m, kind);
                push_str(&mut m, "s found: ");
                let l = crate::task_checks::debug_names(names);
                push_str(&mut m, l.as_str());
                m
            },
            SourceError::Missing(name) => {
                let mut m = "No ".to_owned();
                push_str(&mut m, kind);
                push_str(&mut m, " `");
                push_str(&mut m, name.as_str());
                push_str(&mut m, "` found");
                m
            },
        }
    }
}

/// The file names of some source files.
pub open spec fn source_names(c: Seq<SourceFile>) -> Seq<Seq<char>> {
    c.map_values(|s: SourceFile| last_component(s.path@))
}

/// Why the program `name` cannot be chosen among the source files found for it: there must be
/// exactly one.
pub open spec fn source_issue(cands: Seq<SourceFile>, name: Seq<char>) -> Option<SourceIssue> {
    if cands.len() > 1 {
        Some(SourceIssue::Multiple(source_names(cands)))
    } else if cands.len() == 0 {
        Some(SourceIssue::Missing(name))
    } else {
        None
    }
}

/// The only source file among the candidates, or why there is not exactly one.
pub(crate) fn choose_source(name: &str, candidates: Vec<SourceFile>) -> (res: Result<SourceFile, SourceError>)
    ensures
        match source_issue(candidates@, name@) {
            Some(i) => res matches Err(e) && e@ == i,
            None => res matches Ok(s) && s == candidates@[0],
        },
{
    let n = candidates.len();
    if n > 1 {
        let mut paths: Vec<String> = Vec::new();
        let mut k: usize = 0;
        while k < n
            invariant
                n == candidates@.len(),
                k <= n,
                string_views(paths@) == source_names(candidates@.take(k as int)),
            decreases n - k,
        {
            let ghost before = paths@;
            let name = file_name(candidates[k].path.as_str());
            paths.push(name);
            proof {
                assert(string_views(paths@) =~= string_views(before).push(last_component(candidates@[k as int].path@)));
                assert(source_names(candidates@.take(k + 1)) =~= source_names(candidates@.take(k as int)).push(last_component(candidates@[k as int].path@)));
            }
            k += 1;
        }
        proof { assert(candidates@.take(n as int) =~= candidates@); }
        Err(SourceError::Multiple(paths))
    } else if n == 0 {
        Err(SourceError::Missing(name.to_owned()))
    } else {
        let mut candidates = candidates;
        Ok(candidates.remove(0))
    }
}

/// Finds a generator with the specified name, given the source files `gen/{generator}.*` of the
/// task: there must be exactly one.
pub fn get_generator(generator: &str, candidates: Vec<SourceFile>) -> (res: Result<SourceFile, SourceError>)
    ensures
        match source_issue(candidates@, generator@) {
            Some(i) => res matches Err(e) && e@ == i,
            None => res matches Ok(s) && s == candidates@[0],
        },
{
    choose_source(generator, candidates)
}

/// Finds a validator with the specified name, given the source files `gen/{validator}.*` of the
/// task: there must be exactly one.
pub fn detect_validator(validator: &str, candidates: Vec<SourceFile>) -> (res: Result<SourceFile, SourceError>)
    ensures
        match source_issue(candidates@, validator@) {
            Some(i) => res matches Err(e) && e@ == i,
            None => res matches Ok(s) && s == candidates@[0],
        },
{
    choose_source(validator, candidates)
}

/// The source files found for the program `name`: those of the first row of the table for that
/// name, none if there is no such row.
pub open spec fn candidates_of(table: Seq<(String, Vec<SourceFile>)>, name: Seq<char>) -> Seq<SourceFile>
    decreases table.len(),
{
    if table.len() == 0 {
        Seq::empty()
    } else if table[0].0@ == name {
        table[0].1@
    } else {
        candidates_of(table.drop_first(), name)
    }
}

/// The source files found for the program `name`.
pub(crate) fn candidates_for(table: &Vec<(String, Vec<SourceFile>)>, name: &str) -> (res: Vec<SourceFile>)
    ensures
        res@ == candidates_of(table@, name@),
{
    let mut i: usize = 0;
    proof { assert(table@.skip(0) =~= table@); }
    while i < table.len()
        invariant
            i <= table@.len(),
            candidates_of(table@.skip(i as int), name@) == candidates_of(table@, name@),
        decreases table@.len() - i,
    {
        proof {
            assert(table@.skip(i as int)[0] == table@[i as int]);
            assert(table@.skip(i as int).drop_first() =~= table@.skip(i + 1));
        }
        if str_eq(table[i].0.as_str(), name) {
            let v = &table[i].1;
            let mut c: Vec<SourceFile> = Vec::new();
            let mut k: usize = 0;
            while k < v.len()
                invariant
                    k <= v@.len(),
                    c@ == v@.take(k as int),
                decreases v@.len() - k,
            {
                c.push(v[k].clone());
                proof { assert(c@ =~= v@.take(k + 1)); }
                k += 1;
            }
            proof { assert(c@ =~= v@); }
            return c;
        }
        i += 1;
    }
    proof { assert(table@.skip(i as int) =~= Seq::<(String, Vec<SourceFile>)>::empty()); }
    Vec::new()
}

/// The testcases of a group with their repetitions written out.
pub fn expand_testcases(tcs: &Vec<TestCase>, repeat: usize) -> (res: Vec<TestCase>)
    requires
        expand_repeats(testcase_views(tcs@), repeat).len() <= usize::MAX,
    ensures
        testcase_views(res@) == expand_repeats(testcase_views(tcs@), repeat),
{
    let ghost orig = testcase_views(tcs@);
    let mut out: Vec<TestCase> = Vec::new();
    let mut i: usize = 0;
    proof {
        lemma_expand_prefix_bound(orig, repeat, 0);
        assert(orig.take(0) =~= Seq::<TestCaseView>::empty());
        assert(testcase_views(out@) =~= Seq::<TestCaseView>::empty());
    }
    while i < tcs.len()
        invariant
            testcase_views(tcs@) == orig,
            i <= orig.len(),
            testcase_views(out@) == expand_repeats(orig.take(i as int), repeat),
            expand_repeats(orig, repeat).len() <= usize::MAX,
        decreases orig.len() - i,
    {
        let mut t = tcs[i].copy();
        let n = match t.consume_repeat() {
            Some(r) => r,
            None => repeat,
        };
        proof {
            assert(orig.take(i + 1).drop_last() =~= orig.take(i as int));
            assert(orig.take(i + 1).last() == orig[i as int]);
            assert(orig[i as int] == tcs@[i as int]@);
            lemma_expand_prefix_bound(orig, repeat, i + 1);
        }
        let mut k: usize = 0;
        let ghost base = testcase_views(out@);
        let ghost tv = t@;
        while k < n
            invariant
                k <= n,
                t@ == tv,
                testcase_views(out@) == base + Seq::new(k as nat, |j: int| tv),
                base.len() + n <= usize::MAX,
            decreases n - k,
        {
            let ghost before = out@;
            out.push(t.copy());
            proof {
                assert(testcase_views(out@) =~= testcase_views(before).push(tv));
                assert(testcase_views(out@) =~= base + Seq::new((k + 1) as nat, |j: int| tv));
            }
            k += 1;
        }
        proof {
            assert(Seq::new(n as nat, |j: int| tv) =~= Seq::new(n as nat, |j: int| TestCaseView { repeat: None, ..orig[i as int] }));
        }
        i += 1;
    }
    proof { assert(orig.take(i as int) =~= orig); }
    out
}

} // verus!
