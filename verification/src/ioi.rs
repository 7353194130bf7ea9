//! The entities of an IOI-like task: how its input files are generated and validated, how its
//! output files are produced and checked, and how testcases are grouped into subtasks.

use vstd::prelude::*;

use crate::text::{decimal, push_str, u64_to_string};
use crate::words::string_views;

verus! {

/// In IOI tasks the subtask numbers are non-negative 0-based integers.
pub type SubtaskId = u32;
/// In IOI tasks the testcase numbers are non-negative 0-based integers.
pub type TestcaseId = u32;

/// The file name of the input file that the `InputValidator` has to validate. This file will be
/// placed in the current working directory of the validation sandbox.
pub const TM_VALIDATION_FILE_NAME: &'static str = "tm_validation_file";

/// A program of the task (a generator, a validator, a solution, a checker or a manager), known by
/// its path relative to the root of the task.
#[derive(Debug)]
pub struct SourceFile {
    /// The path of the source file, relative to the task root.
    pub path: String,
}

impl Clone for SourceFile {
    fn clone(&self) -> (res: Self)
        ensures
            res == *self,
    {
        SourceFile { path: self.path.clone() }
    }
}

/// Which tool to use to compute the score on a testcase given the input file, the _correct_ output
/// file and the output file to evaluate.
#[derive(Debug, Clone)]
pub enum Checker {
    /// Use a built-in white diff checker that scores 1.0 if the two output files are identical
    /// except for white spaces.
    WhiteDiff,
    /// Use a custom checker based on an executable that can output a score (from 0.0 to 1.0) to
    /// stdout as well as a custom message on stderr.
    Custom(SourceFile),
}

/// The source of the input files. It can either be a statically provided input file or a custom
/// command that will generate an input file.
#[derive(Debug, Clone)]
pub enum InputGenerator {
    /// Use the static file (path relative to the task root) as input.
    StaticFile(String),
    /// Use a custom command to generate the input file. The file has to be printed to stdout.
    Custom(SourceFile, Vec<String>),
}

/// An input file validator is responsible for checking that the input file follows the format and
/// constraints defined by the task.
#[derive(Debug, Clone)]
pub enum InputValidator {
    /// Skip the validation and assume the input file is valid.
    AssumeValid,
    /// Use a custom command to check if the input file is valid. The command should exit with
    /// non-zero return code if and only if the input is invalid.
    Custom(SourceFile, Vec<String>),
}

/// The source of the output files. It can either be a statically provided output file or a custom
/// command that will generate an output file.
#[derive(Debug, Clone)]
pub enum OutputGenerator {
    /// Use the static file (path relative to the task root) as output.
    StaticFile(String),
    /// Use a custom command to generate the output file.
    Custom(SourceFile, Vec<String>),
    /// The output file is not available, for example because the task has no official output.
    NotAvailable,
}

/// How the file of a testcase is made, over the characters of its texts: a static file, a program
/// (by the path of its source) with its arguments, or nothing.
pub enum CommandView {
    File(Seq<char>),
    Program(Seq<char>, Seq<Seq<char>>),
    Nothing,
}

impl View for InputGenerator {
    type V = CommandView;

    open spec fn view(&self) -> CommandView {
        match self {
            InputGenerator::StaticFile(p) => CommandView::File(p@),
            InputGenerator::Custom(s, a) => CommandView::Program(s.path@, string_views(a@)),
        }
    }
}

impl View for InputValidator {
    type V = CommandView;

    open spec fn view(&self) -> CommandView {
        match self {
            InputValidator::AssumeValid => CommandView::Nothing,
            InputValidator::Custom(s, a) => CommandView::Program(s.path@, string_views(a@)),
        }
    }
}

impl View for OutputGenerator {
    type V = CommandView;

    open spec fn view(&self) -> CommandView {
        match self {
            OutputGenerator::StaticFile(p) => CommandView::File(p@),
            OutputGenerator::Custom(s, a) => CommandView::Program(s.path@, string_views(a@)),
            OutputGenerator::NotAvailable => CommandView::Nothing,
        }
    }
}

/// A copy of a list of strings.
pub fn copy_strings(v: &Vec<String>) -> (res: Vec<String>)
    ensures
        res@ == v@,
{
    let mut c: Vec<String> = Vec::new();
    let mut k: usize = 0;
    while k < v.len()
        invariant
            k <= v@.len(),
            c@ == v@.take(k as int),
        decreases v@.len() - k,
    {
        c.push(v[k].clone());
        proof { assert(c@ =~= v@.take(k + 1)); }
        k += 1;
    }
    proof { assert(c@ =~= v@); }
    c
}

impl OutputGenerator {
    /// A copy of the output generator.
    pub fn copy(&self) -> (res: OutputGenerator)
        ensures
            res@ == self@,
    {
        match self {
            OutputGenerator::StaticFile(p) => OutputGenerator::StaticFile(p.clone()),
            OutputGenerator::Custom(s, a) => OutputGenerator::Custom(s.clone(), copy_strings(a)),
            OutputGenerator::NotAvailable => OutputGenerator::NotAvailable,
        }
    }
}

/// The aggregator of testcase scores for computing the subtask score.
#[derive(Debug, Clone, Copy, PartialEq, Eq, Structural)]
pub enum TestcaseScoreAggregator {
    /// Take the minimum of all the testcases.
    Min,
    /// Average the score of all the testcases.
    Sum,
}

/// The internal data of a task of type `Batch`.
#[derive(Debug, Clone)]
pub struct BatchTypeData {
    /// The generator of the official output files, if an official solution is present.
    pub output_generator: Option<OutputGenerator>,
    /// The checker of the outputs of the solutions.
    pub checker: Checker,
}

/// The type of communication for the solution in a communication task.
#[derive(Debug, Clone, Copy, PartialEq, Eq, Structural)]
pub enum UserIo {
    /// Communication is achieved by using stdin/stdout.
    StdIo,
    /// Communication is achieved by using the pipes passed in argv.
    FifoIo,
}

/// The internal data of a task of type `Communication`.
#[derive(Debug, Clone)]
pub struct CommunicationTypeData {
    /// The source file of the manager that communicates with the solutions.
    pub manager: SourceFile,
    /// Number of solution processes to spawn in parallel in a communication task.
    pub num_processes: u8,
    /// The type of communication for the solution in a communication task.
    pub user_io: UserIo,
}

/// The type of the task. This changes the behavior of the solutions.
#[derive(Debug, Clone)]
pub enum TaskType {
    /// The solution is a single file that will be executed once per testcase, feeding in the input
    /// file and reading the output file. The output is checked with an external program.
    Batch(BatchTypeData),
    /// The solution is executed in parallel with a manager and communicate using FIFO pipes.
    Communication(CommunicationTypeData),
    /// Not an actual task.
    NoTask,
}

/// A testcase of a IOI task.
#[derive(Debug, Clone)]
pub struct TestcaseInfo {
    /// The id of the testcase.
    pub id: TestcaseId,
    /// The generator of the input file for this testcase.
    pub input_generator: InputGenerator,
    /// The validator of the input file for this testcase.
    pub input_validator: InputValidator,
    /// The generator of the output file for this testcase.
    pub output_generator: OutputGenerator,
}

/// A subtask of a IOI task.
#[derive(Debug, Clone)]
pub struct SubtaskInfo {
    /// The id of the subtask.
    pub id: SubtaskId,
    /// Textual description of the subtask.
    pub description: Option<String>,
    /// The maximum score of the subtask, as written in the task files (a decimal number).
    pub max_score: String,
    /// The testcases inside this subtask, in the order in which they are defined.
    pub testcases: Vec<TestcaseInfo>,
}

/// The iterator item type when following the task input testcases.
#[derive(Debug, Clone)]
pub enum TaskInputEntry {
    /// Create a new subtask given its information.
    Subtask(SubtaskInfo),
    /// Create a new testcase inside the last subtask given its information.
    Testcase(TestcaseInfo),
}

/// Where the official output files come from.
#[derive(Debug, Clone)]
pub enum OfficialOutput {
    /// An official solution generates them.
    Solution(SourceFile),
    /// No official solution: they are the static files `output/output{testcase}.txt`.
    StaticFiles,
    /// The task type has no official output files.
    NotAvailable,
}

/// The path of the static output file of a testcase, relative to the task root.
pub open spec fn static_output_path(tc: nat) -> Seq<char> {
    "output/output"@ + decimal(tc) + ".txt"@
}

/// The output generator of a testcase given where the official outputs come from.
pub open spec fn output_generator_spec(official: OfficialOutput, tc: nat, res: OutputGenerator) -> bool {
    match official {
        OfficialOutput::Solution(s) => res matches OutputGenerator::Custom(s2, args) && s2 == s && args@.len() == 0,
        OfficialOutput::StaticFiles => res matches OutputGenerator::StaticFile(p) && p@ == static_output_path(tc),
        OfficialOutput::NotAvailable => res is NotAvailable,
    }
}

impl OfficialOutput {
    /// Given a testcase id, returns the `OutputGenerator` that produces its official output: the
    /// official solution when present, otherwise the static file in `output/`.
    pub fn output_generator(&self, tc: TestcaseId) -> (res: OutputGenerator)
        ensures
            output_generator_spec(*self, tc as nat, res),
    {
        match self {
            OfficialOutput::Solution(s) => OutputGenerator::Custom(s.clone(), Vec::new()),
            OfficialOutput::StaticFiles => {
                let mut p = "output/output".to_owned();
                let n = u64_to_string(tc as u64);
                push_str(&mut p, n.as_str());
                push_str(&mut p, ".txt");
                OutputGenerator::StaticFile(p)
            },
            OfficialOutput::NotAvailable => OutputGenerator::NotAvailable,
        }
    }
}

/// The input validator of a subtask, given the validator of the task if there is one. For legacy
/// support reasons the subtask is passed to the validator 1-based.
pub open spec fn input_validator_spec(validator: Option<SourceFile>, st: nat, res: InputValidator) -> bool {
    match validator {
        Some(v) => res matches InputValidator::Custom(v2, args) && v2 == v && args@.len() == 2
            && args@[0]@ == TM_VALIDATION_FILE_NAME@ && args@[1]@ == decimal(st + 1),
        None => res is AssumeValid,
    }
}

/// The input validator of a subtask, given the validator of the task if there is one.
pub fn input_validator_for(validator: &Option<SourceFile>, st: SubtaskId) -> (res: InputValidator)
    ensures
        input_validator_spec(*validator, st as nat, res),
{
    match validator {
        Some(v) => {
            let mut args: Vec<String> = Vec::new();
            args.push(TM_VALIDATION_FILE_NAME.to_owned());
            args.push(u64_to_string(st as u64 + 1));
            InputValidator::Custom(v.clone(), args)
        },
        None => InputValidator::AssumeValid,
    }
}

/// A simple struct that generates input validators for a given subtask (or for no subtask in
/// particular).
pub struct InputValidatorGenerator<F: Fn(Option<SubtaskId>) -> InputValidator> {
    /// The generating function.
    f: F,
}

impl<F: Fn(Option<SubtaskId>) -> InputValidator> InputValidatorGenerator<F> {
    /// Build a generator based on a generating function.
    pub fn new(f: F) -> (res: Self)
        ensures
            res.function() == f,
    {
        InputValidatorGenerator { f }
    }

    /// The generating function.
    pub closed spec fn function(&self) -> F {
        self.f
    }

    /// Obtain a validator for the given subtask.
    pub fn generate(&self, subtask: Option<SubtaskId>) -> (res: InputValidator)
        requires
            call_requires(self.function(), (subtask,)),
        ensures
            call_ensures(self.function(), (subtask,), res),
    {
        (self.f)(subtask)
    }
}

/// The generator used when a task gives none: every subtask, and no subtask in particular, gets
/// the validator that assumes the input valid.
pub fn default_input_validator_generator() -> (res: InputValidatorGenerator<impl Fn(Option<SubtaskId>) -> InputValidator>)
    ensures
        forall|s: Option<SubtaskId>| call_requires(res.function(), (s,)),
        forall|s: Option<SubtaskId>, v: InputValidator| call_ensures(res.function(), (s,), v) ==> v is AssumeValid,
{
    InputValidatorGenerator::new(|_s: Option<SubtaskId>| -> (v: InputValidator)
        ensures
            v is AssumeValid,
    { InputValidator::AssumeValid })
}

impl TaskType {
    /// The source file that has to be compiled before the evaluation: the custom checker of a
    /// batch task, the manager of a communication task, and none otherwise.
    pub fn prepare_dag(&self) -> (res: Option<&SourceFile>)
        ensures
            match self {
                TaskType::Batch(b) => match &b.checker {
                    Checker::Custom(c) => res == Some(c),
                    Checker::WhiteDiff => res is None,
                },
                TaskType::Communication(c) => res == Some(&c.manager),
                TaskType::NoTask => res is None,
            },
    {
        match self {
            TaskType::Batch(b) => match &b.checker {
                Checker::Custom(c) => Some(c),
                Checker::WhiteDiff => None,
            },
            TaskType::Communication(c) => Some(&c.manager),
            TaskType::NoTask => None,
        }
    }
}

} // verus!
