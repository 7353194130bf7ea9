//! Validation of an execution DAG before it is scheduled: unique identifiers, well formed
//! captures, no missing files, every execution group reachable from the provided files (which
//! also rules out dependency cycles) and callbacks only on known files and executions.

use vstd::prelude::*;

use crate::text::{first_duplicate, occurs_twice, push_str, vec_contains, lemma_prefix_push_dup, lemma_flatten_take_succ, lemma_flatten_take_prefix, lemma_append_take_prefix, lemma_prefix_trans, lemma_push_no_dup};

verus! {

/// The identifier of a file of the DAG.
pub type FileUuid = u128;
/// The identifier of an execution of the DAG.
pub type ExecutionUuid = u128;
/// The identifier of an execution group of the DAG.
pub type ExecutionGroupUuid = u128;
/// The identifier of a FIFO of an execution group.
pub type FifoUuid = u128;

/// What the validation reads of an execution.
#[derive(Debug, Clone)]
pub struct ExecutionInfo {
    /// The identifier of the execution.
    pub uuid: ExecutionUuid,
    /// A textual description of the execution.
    pub description: String,
    /// The files the execution reads: its standard input and its input files.
    pub dependencies: Vec<FileUuid>,
    /// The files the execution writes: its standard output and error, and its output files.
    pub outputs: Vec<FileUuid>,
    /// Whether the content of the standard output is captured.
    pub capture_stdout: bool,
    /// Whether the standard output is stored in a file.
    pub has_stdout: bool,
    /// Whether the content of the standard error is captured.
    pub capture_stderr: bool,
    /// Whether the standard error is stored in a file.
    pub has_stderr: bool,
}

/// A group of executions that run together, possibly connected by FIFOs.
#[derive(Debug, Clone)]
pub struct ExecutionGroupInfo {
    /// The identifier of the group.
    pub uuid: ExecutionGroupUuid,
    /// A textual description of the group.
    pub description: String,
    /// The executions of the group.
    pub executions: Vec<ExecutionInfo>,
    /// The FIFOs shared by the executions of the group.
    pub fifos: Vec<FifoUuid>,
    /// The priority of the group: among the groups ready to run, those with a higher priority
    /// are given to the workers first.
    pub priority: i64,
}

/// The content of a DAG: its execution groups and the files provided from outside.
#[derive(Debug, Clone)]
pub struct ExecutionDAGData {
    /// The execution groups, in the order in which they are validated.
    pub execution_groups: Vec<ExecutionGroupInfo>,
    /// The files that are available from the start.
    pub provided_files: Vec<FileUuid>,
}

/// The set of files and executions a client registered callbacks on.
#[derive(Debug, Clone, Default)]
pub struct ExecutionDAGWatchSet {
    /// The executions with a callback.
    pub executions: Vec<ExecutionUuid>,
    /// The files with a callback.
    pub files: Vec<FileUuid>,
    /// The files that should be sent to the client as soon as possible.
    pub urgent_files: Vec<FileUuid>,
}

/// An error in the DAG structure.
#[derive(Debug, Clone)]
pub enum DAGError {
    /// A file is used as input in an execution but it's missing, or a callback is registered on a
    /// file but it's missing.
    MissingFile {
        /// The UUID of the missing file.
        uuid: FileUuid,
        /// The description of the missing file.
        description: String,
    },
    /// Stdout/Stderr capture is requested, but a UUID for them is missing.
    InvalidCapture {
        /// Either "stdout" or "stderr".
        stream: String,
        /// The UUID of the execution.
        uuid: ExecutionUuid,
        /// The description of the execution.
        description: String,
    },
    /// A callback is registered on an execution but it's missing.
    MissingExecution {
        /// The UUID of the missing execution.
        uuid: ExecutionUuid,
    },
    /// There is a dependency cycle in the DAG.
    CycleDetected {
        /// The description of an execution group inside the cycle.
        description: String,
    },
    /// There is a duplicate file UUID.
    DuplicateFileUUID {
        /// The duplicated UUID.
        uuid: FileUuid,
    },
    /// There is a duplicate Fifo UUID.
    DuplicateFifoUUID {
        /// The duplicated UUID.
        uuid: FifoUuid,
    },
    /// There is a duplicate execution UUID.
    DuplicateExecutionUUID {
        /// The duplicated UUID.
        uuid: ExecutionUuid,
    },
    /// There is an invalid execution group.
    EmptyGroup {
        /// The UUID of the execution group.
        uuid: ExecutionGroupUuid,
    },
}

// ------------------------------------------------------------------------------------------------
// The model of a valid DAG.
// ------------------------------------------------------------------------------------------------

/// The identifiers of the executions of a group, in order.
pub open spec fn group_exec_uuids(g: ExecutionGroupInfo) -> Seq<ExecutionUuid> {
    g.executions@.map_values(|e: ExecutionInfo| e.uuid)
}

/// The outputs of each execution of a group.
pub open spec fn group_exec_outputs(g: ExecutionGroupInfo) -> Seq<Seq<FileUuid>> {
    g.executions@.map_values(|e: ExecutionInfo| e.outputs@)
}

/// All the outputs of a group, in order.
pub open spec fn group_outputs(g: ExecutionGroupInfo) -> Seq<FileUuid> {
    group_exec_outputs(g).flatten()
}

/// The identifiers of the executions of each group.
pub open spec fn exec_uuids_by_group(groups: Seq<ExecutionGroupInfo>) -> Seq<Seq<ExecutionUuid>> {
    groups.map_values(|g: ExecutionGroupInfo| group_exec_uuids(g))
}

/// The outputs of each group.
pub open spec fn outputs_by_group(groups: Seq<ExecutionGroupInfo>) -> Seq<Seq<FileUuid>> {
    groups.map_values(|g: ExecutionGroupInfo| group_outputs(g))
}

/// All the execution identifiers of the DAG, in order.
pub open spec fn exec_uuid_seq(dag: ExecutionDAGData) -> Seq<ExecutionUuid> {
    exec_uuids_by_group(dag.execution_groups@).flatten()
}

/// All the files of the DAG, in order: the outputs of the executions, then the provided files.
pub open spec fn file_seq(dag: ExecutionDAGData) -> Seq<FileUuid> {
    outputs_by_group(dag.execution_groups@).flatten() + dag.provided_files@
}

/// A file is known when an execution writes it or it is provided.
pub open spec fn is_known_file(dag: ExecutionDAGData, f: FileUuid) -> bool {
    file_seq(dag).contains(f)
}

/// An execution is known when it is in some group.
pub open spec fn is_known_exec(dag: ExecutionDAGData, u: ExecutionUuid) -> bool {
    exec_uuid_seq(dag).contains(u)
}

/// A capture is requested only for a stream that is stored in a file.
pub open spec fn capture_ok(e: ExecutionInfo) -> bool {
    &&& !(e.capture_stdout && !e.has_stdout)
    &&& !(e.capture_stderr && !e.has_stderr)
}

/// The properties of a single group that are checked on its own.
pub open spec fn group_well_formed(g: ExecutionGroupInfo) -> bool {
    &&& g.executions@.len() > 0
    &&& g.fifos@.no_duplicates()
    &&& forall|j: int| 0 <= j < g.executions@.len() ==> capture_ok(#[trigger] g.executions@[j])
}

/// The structural validity of the groups: every group well formed, no execution identifier
/// twice and no file written twice.
pub open spec fn groups_valid(groups: Seq<ExecutionGroupInfo>) -> bool {
    &&& forall|i: int| 0 <= i < groups.len() ==> group_well_formed(#[trigger] groups[i])
    &&& exec_uuids_by_group(groups).flatten().no_duplicates()
    &&& outputs_by_group(groups).flatten().no_duplicates()
}

/// The structural validity of the DAG: valid groups and every file produced or provided once.
pub open spec fn structure_valid(dag: ExecutionDAGData) -> bool {
    &&& groups_valid(dag.execution_groups@)
    &&& exec_uuid_seq(dag).no_duplicates()
    &&& file_seq(dag).no_duplicates()
}

/// All the inputs of the executions of group `g` are in `s`.
pub open spec fn deps_in(g: ExecutionGroupInfo, s: Set<FileUuid>) -> bool {
    forall|j: int, k: int|
        0 <= j < g.executions@.len() && 0 <= k < g.executions@[j].dependencies@.len()
            ==> s.contains(#[trigger] g.executions@[j].dependencies@[k])
}

/// `f` is an output of group `g`.
pub open spec fn is_output_of(g: ExecutionGroupInfo, f: FileUuid) -> bool {
    exists|j: int, k: int|
        0 <= j < g.executions@.len() && 0 <= k < g.executions@[j].outputs@.len()
            && #[trigger] g.executions@[j].outputs@[k] == f
}

/// The files available after `k` rounds of execution: the provided files, and the outputs of the
/// groups whose inputs were all available one round earlier.
pub open spec fn ready_files(dag: ExecutionDAGData, k: nat) -> Set<FileUuid>
    decreases k,
{
    if k == 0 {
        dag.provided_files@.to_set()
    } else {
        let prev = ready_files(dag, (k - 1) as nat);
        prev.union(
            Set::new(
                |f: FileUuid|
                    exists|i: int|
                        0 <= i < dag.execution_groups@.len()
                            && deps_in(#[trigger] dag.execution_groups@[i], prev)
                            && is_output_of(dag.execution_groups@[i], f),
            ),
        )
    }
}

/// Group `i` can run at some point: all its inputs become available after some number of rounds.
pub open spec fn group_reachable(dag: ExecutionDAGData, i: int) -> bool {
    exists|k: nat| deps_in(dag.execution_groups@[i], #[trigger] ready_files(dag, k))
}

/// Every group of the DAG can run.
pub open spec fn all_reachable(dag: ExecutionDAGData) -> bool {
    forall|i: int| 0 <= i < dag.execution_groups@.len() ==> group_reachable(dag, i)
}

/// Every callback refers to a known file or execution.
pub open spec fn callbacks_valid(dag: ExecutionDAGData, callbacks: ExecutionDAGWatchSet) -> bool {
    &&& forall|i: int| 0 <= i < callbacks.files@.len() ==> is_known_file(dag, #[trigger] callbacks.files@[i])
    &&& forall|i: int| 0 <= i < callbacks.executions@.len() ==> is_known_exec(dag, #[trigger] callbacks.executions@[i])
}

/// A DAG that can be scheduled.
pub open spec fn dag_valid(dag: ExecutionDAGData, callbacks: ExecutionDAGWatchSet) -> bool {
    &&& structure_valid(dag)
    &&& all_reachable(dag)
    &&& callbacks_valid(dag, callbacks)
}

/// The execution at position `j` of group `i`.
pub open spec fn exec_at(dag: ExecutionDAGData, i: int, j: int) -> ExecutionInfo {
    dag.execution_groups@[i].executions@[j]
}

/// A valid position of an execution.
pub open spec fn exec_pos(dag: ExecutionDAGData, i: int, j: int) -> bool {
    0 <= i < dag.execution_groups@.len() && 0 <= j < dag.execution_groups@[i].executions@.len()
}

/// Group `i` is the first, in the order of the list, that cannot be reached.
pub open spec fn first_unreachable(dag: ExecutionDAGData, i: int) -> bool {
    &&& 0 <= i < dag.execution_groups@.len()
    &&& !group_reachable(dag, i)
    &&& forall|k: int| 0 <= k < i ==> group_reachable(dag, k)
}

/// Every dependency of every execution of group `i` is a known file.
pub open spec fn deps_known(dag: ExecutionDAGData, i: int) -> bool {
    forall|j: int, k: int| exec_pos(dag, i, j) && 0 <= k < exec_at(dag, i, j).dependencies@.len()
        ==> is_known_file(dag, #[trigger] exec_at(dag, i, j).dependencies@[k])
}

/// The reported error describes an actual defect of the DAG, found in the order in which the
/// validation proceeds: structure first, then reachability, then callbacks.
pub open spec fn error_justified(dag: ExecutionDAGData, callbacks: ExecutionDAGWatchSet, e: DAGError) -> bool {
    match e {
        DAGError::EmptyGroup { uuid } => exists|i: int|
            0 <= i < dag.execution_groups@.len() && #[trigger] dag.execution_groups@[i].uuid == uuid
                && dag.execution_groups@[i].executions@.len() == 0,
        DAGError::DuplicateFifoUUID { uuid } => exists|i: int|
            0 <= i < dag.execution_groups@.len() && occurs_twice(#[trigger] dag.execution_groups@[i].fifos@, uuid),
        DAGError::DuplicateExecutionUUID { uuid } => occurs_twice(exec_uuid_seq(dag), uuid),
        DAGError::InvalidCapture { stream, uuid, description } => exists|i: int, j: int|
            exec_pos(dag, i, j) && #[trigger] exec_at(dag, i, j).uuid == uuid
                && exec_at(dag, i, j).description@ == description@
                && ((stream@ == "stdout"@ && exec_at(dag, i, j).capture_stdout && !exec_at(dag, i, j).has_stdout)
                    || (stream@ == "stderr"@ && exec_at(dag, i, j).capture_stderr && !exec_at(dag, i, j).has_stderr)),
        DAGError::DuplicateFileUUID { uuid } => occurs_twice(file_seq(dag), uuid),
        DAGError::MissingFile { uuid, description } => {
            &&& structure_valid(dag)
            &&& !is_known_file(dag, uuid)
            &&& ((exists|i: int, j: int|
                exec_pos(dag, i, j) && #[trigger] exec_at(dag, i, j).dependencies@.contains(uuid)
                    && first_unreachable(dag, i)
                    && description@ == "Dependency of '"@ + exec_at(dag, i, j).description@ + "'"@)
                || (all_reachable(dag) && callbacks.files@.contains(uuid)
                    && description@ == "File required by a callback"@))
        },
        DAGError::CycleDetected { description } => {
            &&& structure_valid(dag)
            &&& exists|i: int|
                0 <= i < dag.execution_groups@.len() && first_unreachable(dag, i)
                    && #[trigger] dag.execution_groups@[i].description@ == description@
                    && deps_known(dag, i)
        },
        DAGError::MissingExecution { uuid } => {
            &&& structure_valid(dag)
            &&& all_reachable(dag)
            &&& callbacks.executions@.contains(uuid)
            &&& !is_known_exec(dag, uuid)
        },
    }
}


// ------------------------------------------------------------------------------------------------
// Structural checks.
// ------------------------------------------------------------------------------------------------

/// An error found while checking the groups on their own describes an actual defect of them.
pub open spec fn group_error_justified(groups: Seq<ExecutionGroupInfo>, e: DAGError) -> bool {
    match e {
        DAGError::EmptyGroup { uuid } => exists|i: int|
            0 <= i < groups.len() && #[trigger] groups[i].uuid == uuid && groups[i].executions@.len() == 0,
        DAGError::DuplicateFifoUUID { uuid } => exists|i: int|
            0 <= i < groups.len() && occurs_twice(#[trigger] groups[i].fifos@, uuid),
        DAGError::DuplicateExecutionUUID { uuid } => occurs_twice(exec_uuids_by_group(groups).flatten(), uuid),
        DAGError::InvalidCapture { stream, uuid, description } => exists|i: int, j: int|
            0 <= i < groups.len() && 0 <= j < groups[i].executions@.len()
                && #[trigger] groups[i].executions@[j].uuid == uuid
                && groups[i].executions@[j].description@ == description@
                && ((stream@ == "stdout"@ && groups[i].executions@[j].capture_stdout && !groups[i].executions@[j].has_stdout)
                    || (stream@ == "stderr"@ && groups[i].executions@[j].capture_stderr && !groups[i].executions@[j].has_stderr)),
        DAGError::DuplicateFileUUID { uuid } => occurs_twice(outputs_by_group(groups).flatten(), uuid),
        _ => false,
    }
}

/// Adds the outputs of an execution to the known files, failing on the first file that is
/// already known.
fn register_outputs(e: &ExecutionInfo, files: &mut Vec<FileUuid>, Ghost(full): Ghost<Seq<FileUuid>>) -> (res: Result<(), FileUuid>)
    requires
        (old(files)@ + e.outputs@).is_prefix_of(full),
        old(files)@.no_duplicates(),
    ensures
        res is Ok ==> final(files)@ == old(files)@ + e.outputs@ && final(files)@.no_duplicates(),
        res matches Err(u) ==> occurs_twice(full, u),
{
    let ghost start = files@;
    let mut k: usize = 0;
    while k < e.outputs.len()
        invariant
            k <= e.outputs@.len(),
            (start + e.outputs@).is_prefix_of(full),
            files@ == start + e.outputs@.take(k as int),
            files@.no_duplicates(),
        decreases e.outputs@.len() - k,
    {
        let out = e.outputs[k];
        proof {
            lemma_append_take_prefix(start, e.outputs@, k + 1);
            lemma_prefix_trans(start + e.outputs@.take(k + 1), start + e.outputs@, full);
            assert(files@.push(out) =~= start + e.outputs@.take(k + 1));
        }
        if vec_contains(files, out) {
            proof { lemma_prefix_push_dup(files@, out, full); }
            return Err(out);
        }
        proof { lemma_push_no_dup(files@, out); }
        files.push(out);
        k += 1;
    }
    assert(e.outputs@.take(k as int) =~= e.outputs@);
    Ok(())
}

/// Checks a group on its own and registers its executions and output files, failing on the first
/// defect found.
fn register_group(
    g: &ExecutionGroupInfo,
    execs: &mut Vec<ExecutionUuid>,
    files: &mut Vec<FileUuid>,
    Ghost(full_execs): Ghost<Seq<ExecutionUuid>>,
    Ghost(full_files): Ghost<Seq<FileUuid>>,
) -> (res: Result<(), DAGError>)
    requires
        (old(execs)@ + group_exec_uuids(*g)).is_prefix_of(full_execs),
        (old(files)@ + group_outputs(*g)).is_prefix_of(full_files),
        old(execs)@.no_duplicates(),
        old(files)@.no_duplicates(),
    ensures
        res is Ok ==> {
            &&& group_well_formed(*g)
            &&& final(execs)@ == old(execs)@ + group_exec_uuids(*g)
            &&& final(files)@ == old(files)@ + group_outputs(*g)
            &&& final(execs)@.no_duplicates()
            &&& final(files)@.no_duplicates()
        },
        res matches Err(e) ==> match e {
            DAGError::EmptyGroup { uuid } => uuid == g.uuid && g.executions@.len() == 0,
            DAGError::DuplicateFifoUUID { uuid } => occurs_twice(g.fifos@, uuid),
            DAGError::DuplicateExecutionUUID { uuid } => occurs_twice(full_execs, uuid),
            DAGError::InvalidCapture { stream, uuid, description } => exists|j: int|
                0 <= j < g.executions@.len() && #[trigger] g.executions@[j].uuid == uuid
                    && g.executions@[j].description@ == description@
                    && ((stream@ == "stdout"@ && g.executions@[j].capture_stdout && !g.executions@[j].has_stdout)
                        || (stream@ == "stderr"@ && g.executions@[j].capture_stderr && !g.executions@[j].has_stderr)),
            DAGError::DuplicateFileUUID { uuid } => occurs_twice(full_files, uuid),
            _ => false,
        },
{
    if g.executions.len() == 0 {
        return Err(DAGError::EmptyGroup { uuid: g.uuid });
    }
    match first_duplicate(&g.fifos) {
        Some(uuid) => {
            return Err(DAGError::DuplicateFifoUUID { uuid });
        },
        None => {},
    }
    let ghost execs0 = execs@;
    let ghost files0 = files@;
    let ghost eu = group_exec_uuids(*g);
    let ghost eo = group_exec_outputs(*g);
    let mut j: usize = 0;
    while j < g.executions.len()
        invariant
            j <= g.executions@.len(),
            eu == group_exec_uuids(*g),
            eo == group_exec_outputs(*g),
            (execs0 + eu).is_prefix_of(full_execs),
            (files0 + eo.flatten()).is_prefix_of(full_files),
            execs@ == execs0 + eu.take(j as int),
            files@ == files0 + eo.take(j as int).flatten(),
            execs@.no_duplicates(),
            files@.no_duplicates(),
            forall|k: int| 0 <= k < j ==> capture_ok(#[trigger] g.executions@[k]),
        decreases g.executions@.len() - j,
    {
        let exec = &g.executions[j];
        proof {
            lemma_append_take_prefix(execs0, eu, j + 1);
            lemma_prefix_trans(execs0 + eu.take(j + 1), execs0 + eu, full_execs);
            assert(eu[j as int] == exec.uuid);
            assert(execs@.push(exec.uuid) =~= execs0 + eu.take(j + 1));
        }
        if vec_contains(execs, exec.uuid) {
            proof { lemma_prefix_push_dup(execs@, exec.uuid, full_execs); }
            return Err(DAGError::DuplicateExecutionUUID { uuid: exec.uuid });
        }
        proof { lemma_push_no_dup(execs@, exec.uuid); }
        execs.push(exec.uuid);
        if exec.capture_stdout && !exec.has_stdout {
            proof { reveal_strlit("stdout"); }
            let stream = "stdout".to_owned();
            assert(stream@ == "stdout"@);
            return Err(DAGError::InvalidCapture { stream, uuid: exec.uuid, description: exec.description.clone() });
        }
        if exec.capture_stderr && !exec.has_stderr {
            let stream = "stderr".to_owned();
            assert(stream@ == "stderr"@);
            return Err(DAGError::InvalidCapture { stream, uuid: exec.uuid, description: exec.description.clone() });
        }
        proof {
            lemma_flatten_take_succ(eo, j as int);
            assert(eo[j as int] == exec.outputs@);
            lemma_flatten_take_prefix(eo, j + 1);
            let a = files0 + eo.take(j + 1).flatten();
            assert(a =~= files@ + exec.outputs@);
            assert(a =~= (files0 + eo.flatten()).subrange(0, a.len() as int));
            lemma_prefix_trans(a, files0 + eo.flatten(), full_files);
        }
        match register_outputs(exec, files, Ghost(full_files)) {
            Err(uuid) => {
                return Err(DAGError::DuplicateFileUUID { uuid });
            },
            Ok(()) => {},
        }
        proof {
            assert(files@ =~= files0 + eo.take(j + 1).flatten());
            assert(execs@ =~= execs0 + eu.take(j + 1));
        }
        j += 1;
    }
    proof {
        assert(eu.take(j as int) =~= eu);
        assert(eo.take(j as int) =~= eo);
    }
    Ok(())
}

/// Checks every group on its own, in order, and collects the executions and the output files
/// of the DAG.
fn register_groups(groups: &Vec<ExecutionGroupInfo>) -> (res: Result<(Vec<ExecutionUuid>, Vec<FileUuid>), DAGError>)
    ensures
        res matches Ok((execs, files)) ==> {
            &&& groups_valid(groups@)
            &&& execs@ == exec_uuids_by_group(groups@).flatten()
            &&& files@ == outputs_by_group(groups@).flatten()
        },
        res matches Err(e) ==> !groups_valid(groups@) && group_error_justified(groups@, e),
{
    let ghost eu = exec_uuids_by_group(groups@);
    let ghost ou = outputs_by_group(groups@);
    let mut execs: Vec<ExecutionUuid> = Vec::new();
    let mut files: Vec<FileUuid> = Vec::new();
    let mut i: usize = 0;
    proof {
        assert(eu.take(0).flatten() =~= Seq::<ExecutionUuid>::empty());
        assert(ou.take(0).flatten() =~= Seq::<FileUuid>::empty());
    }
    while i < groups.len()
        invariant
            i <= groups@.len(),
            eu == exec_uuids_by_group(groups@),
            ou == outputs_by_group(groups@),
            execs@ == eu.take(i as int).flatten(),
            files@ == ou.take(i as int).flatten(),
            execs@.no_duplicates(),
            files@.no_duplicates(),
            forall|k: int| 0 <= k < i ==> group_well_formed(#[trigger] groups@[k]),
        decreases groups@.len() - i,
    {
        let g = &groups[i];
        proof {
            lemma_flatten_take_succ(eu, i as int);
            lemma_flatten_take_succ(ou, i as int);
            lemma_flatten_take_prefix(eu, i + 1);
            lemma_flatten_take_prefix(ou, i + 1);
            assert(eu[i as int] == group_exec_uuids(*g));
            assert(ou[i as int] == group_outputs(*g));
        }
        match register_group(g, &mut execs, &mut files, Ghost(eu.flatten()), Ghost(ou.flatten())) {
            Err(e) => {
                proof {
                    if e is InvalidCapture {
                        let stream = e->stream;
                        let uuid = e->InvalidCapture_uuid;
                        let description = e->InvalidCapture_description;
                        let j = choose|j: int|
                            0 <= j < g.executions@.len() && #[trigger] g.executions@[j].uuid == uuid
                                && g.executions@[j].description@ == description@
                                && ((stream@ == "stdout"@ && g.executions@[j].capture_stdout && !g.executions@[j].has_stdout)
                                    || (stream@ == "stderr"@ && g.executions@[j].capture_stderr && !g.executions@[j].has_stderr));
                        assert(!capture_ok(g.executions@[j]));
                        assert(!group_well_formed(groups@[i as int]));
                        assert(groups@[i as int].executions@[j].uuid == uuid);
                    } else if e is EmptyGroup || e is DuplicateFifoUUID {
                        assert(!group_well_formed(groups@[i as int]));
                    } else if e is DuplicateExecutionUUID {
                        assert(!eu.flatten().no_duplicates());
                    } else if e is DuplicateFileUUID {
                        assert(!ou.flatten().no_duplicates());
                    }
                }
                return Err(e);
            },
            Ok(()) => {},
        }
        i += 1;
    }
    proof {
        assert(eu.take(i as int) =~= eu);
        assert(ou.take(i as int) =~= ou);
    }
    Ok((execs, files))
}


// ------------------------------------------------------------------------------------------------
// Reachability.
// ------------------------------------------------------------------------------------------------

/// The number of `true` values in `s`.
pub open spec fn count_true(s: Seq<bool>) -> nat
    decreases s.len(),
{
    if s.len() == 0 {
        0
    } else {
        count_true(s.drop_last()) + if s.last() { 1nat } else { 0nat }
    }
}

proof fn lemma_count_true_le(s: Seq<bool>)
    ensures
        count_true(s) <= s.len(),
    decreases s.len(),
{
    if s.len() > 0 {
        lemma_count_true_le(s.drop_last());
    }
}

proof fn lemma_count_true_update(s: Seq<bool>, i: int)
    requires
        0 <= i < s.len(),
        !s[i],
    ensures
        count_true(s.update(i, true)) == count_true(s) + 1,
    decreases s.len(),
{
    let t = s.update(i, true);
    if i == s.len() - 1 {
        assert(t.drop_last() =~= s.drop_last());
    } else {
        assert(t.drop_last() =~= s.drop_last().update(i, true));
        lemma_count_true_update(s.drop_last(), i);
    }
}

proof fn lemma_count_true_push_false(s: Seq<bool>)
    ensures
        count_true(s.push(false)) == count_true(s),
{
    assert(s.push(false).drop_last() =~= s);
}

/// The files available after some number of rounds only grow.
proof fn lemma_ready_files_grow(dag: ExecutionDAGData, k: nat)
    ensures
        ready_files(dag, k).subset_of(ready_files(dag, k + 1)),
{
    assert(ready_files(dag, k + 1) == ready_files(dag, k).union(
        Set::new(
            |f: FileUuid|
                exists|i: int|
                    0 <= i < dag.execution_groups@.len()
                        && deps_in(#[trigger] dag.execution_groups@[i], ready_files(dag, k))
                        && is_output_of(dag.execution_groups@[i], f),
        ),
    ));
}

/// Having all the inputs in a set is preserved by growing the set.
proof fn lemma_deps_in_subset(g: ExecutionGroupInfo, a: Set<FileUuid>, b: Set<FileUuid>)
    requires
        deps_in(g, a),
        a.subset_of(b),
    ensures
        deps_in(g, b),
{
    assert forall|j: int, k: int|
        0 <= j < g.executions@.len() && 0 <= k < g.executions@[j].dependencies@.len()
            implies b.contains(#[trigger] g.executions@[j].dependencies@[k]) by {
        assert(a.contains(g.executions@[j].dependencies@[k]));
    }
}

/// A set that contains the provided files and the outputs of every group whose inputs it
/// contains holds the files available after any number of rounds.
proof fn lemma_closed_set_contains_ready(dag: ExecutionDAGData, avail: Set<FileUuid>, k: nat)
    requires
        forall|x: FileUuid| dag.provided_files@.contains(x) ==> avail.contains(x),
        forall|i: int, x: FileUuid|
            0 <= i < dag.execution_groups@.len() && deps_in(dag.execution_groups@[i], avail)
                && #[trigger] is_output_of(dag.execution_groups@[i], x) ==> avail.contains(x),
    ensures
        ready_files(dag, k).subset_of(avail),
    decreases k,
{
    if k > 0 {
        lemma_closed_set_contains_ready(dag, avail, (k - 1) as nat);
        let prev = ready_files(dag, (k - 1) as nat);
        assert forall|x: FileUuid| ready_files(dag, k).contains(x) implies avail.contains(x) by {
            if !prev.contains(x) {
                let i = choose|i: int|
                    0 <= i < dag.execution_groups@.len()
                        && deps_in(#[trigger] dag.execution_groups@[i], prev)
                        && is_output_of(dag.execution_groups@[i], x);
                lemma_deps_in_subset(dag.execution_groups@[i], prev, avail);
            }
        }
    }
}

/// Whether all the inputs of the executions of `g` are in `avail`.
fn all_deps_available(g: &ExecutionGroupInfo, avail: &Vec<FileUuid>) -> (res: bool)
    ensures
        res == deps_in(*g, avail@.to_set()),
{
    let mut j: usize = 0;
    while j < g.executions.len()
        invariant
            j <= g.executions@.len(),
            forall|jj: int, k: int|
                0 <= jj < j && 0 <= k < g.executions@[jj].dependencies@.len()
                    ==> avail@.to_set().contains(#[trigger] g.executions@[jj].dependencies@[k]),
        decreases g.executions@.len() - j,
    {
        let deps = &g.executions[j].dependencies;
        let mut k: usize = 0;
        while k < deps.len()
            invariant
                j < g.executions@.len(),
                deps@ == g.executions@[j as int].dependencies@,
                k <= deps@.len(),
                forall|jj: int, kk: int|
                    0 <= jj < j && 0 <= kk < g.executions@[jj].dependencies@.len()
                        ==> avail@.to_set().contains(#[trigger] g.executions@[jj].dependencies@[kk]),
                forall|kk: int| 0 <= kk < k ==> avail@.to_set().contains(#[trigger] deps@[kk]),
            decreases deps@.len() - k,
        {
            if !vec_contains(avail, deps[k]) {
                assert(!avail@.to_set().contains(g.executions@[j as int].dependencies@[k as int]));
                return false;
            }
            k += 1;
        }
        j += 1;
    }
    true
}

/// Makes the outputs of the executions of `g` available.
fn push_outputs(g: &ExecutionGroupInfo, avail: &mut Vec<FileUuid>)
    ensures
        forall|x: FileUuid|
            #![trigger final(avail)@.contains(x)]
            #![trigger old(avail)@.contains(x)]
            #![trigger is_output_of(*g, x)]
            final(avail)@.contains(x) <==> (old(avail)@.contains(x) || is_output_of(*g, x)),
{
    let mut j: usize = 0;
    while j < g.executions.len()
        invariant
            j <= g.executions@.len(),
            forall|x: FileUuid| avail@.contains(x) <==> (old(avail)@.contains(x)
                || exists|jj: int, k: int|
                    0 <= jj < j && 0 <= k < g.executions@[jj].outputs@.len()
                        && #[trigger] g.executions@[jj].outputs@[k] == x),
        decreases g.executions@.len() - j,
    {
        let outs = &g.executions[j].outputs;
        let mut k: usize = 0;
        while k < outs.len()
            invariant
                j < g.executions@.len(),
                outs@ == g.executions@[j as int].outputs@,
                k <= outs@.len(),
                forall|x: FileUuid| avail@.contains(x) <==> (old(avail)@.contains(x)
                    || (exists|jj: int, kk: int|
                        0 <= jj < j && 0 <= kk < g.executions@[jj].outputs@.len()
                            && #[trigger] g.executions@[jj].outputs@[kk] == x)
                    || (exists|kk: int| 0 <= kk < k && #[trigger] outs@[kk] == x)),
            decreases outs@.len() - k,
        {
            let ghost before = avail@;
            avail.push(outs[k]);
            proof {
                assert forall|x: FileUuid| avail@.contains(x) <==> (old(avail)@.contains(x)
                    || (exists|jj: int, kk: int|
                        0 <= jj < j && 0 <= kk < g.executions@[jj].outputs@.len()
                            && #[trigger] g.executions@[jj].outputs@[kk] == x)
                    || (exists|kk: int| 0 <= kk < k + 1 && #[trigger] outs@[kk] == x)) by {
                    if avail@.contains(x) {
                        let p = choose|p: int| 0 <= p < avail@.len() && avail@[p] == x;
                        if p < before.len() {
                            assert(before.contains(x));
                        } else {
                            assert(outs@[k as int] == x);
                        }
                    }
                    if exists|kk: int| 0 <= kk < k + 1 && #[trigger] outs@[kk] == x {
                        let kk = choose|kk: int| 0 <= kk < k + 1 && #[trigger] outs@[kk] == x;
                        if kk < k {
                            assert(before.contains(x));
                        }
                        assert(avail@[before.len() as int] == outs@[k as int]);
                        assert(avail@.contains(x) || before.contains(x));
                    }
                    if before.contains(x) {
                        let p = choose|p: int| 0 <= p < before.len() && before[p] == x;
                        assert(avail@[p] == x);
                    }
                }
            }
            k += 1;
        }
        proof {
            assert forall|x: FileUuid| avail@.contains(x) <==> (old(avail)@.contains(x)
                || exists|jj: int, kk: int|
                    0 <= jj < j + 1 && 0 <= kk < g.executions@[jj].outputs@.len()
                        && #[trigger] g.executions@[jj].outputs@[kk] == x) by {
                if exists|kk: int| 0 <= kk < k && #[trigger] outs@[kk] == x {
                    let kk = choose|kk: int| 0 <= kk < k && #[trigger] outs@[kk] == x;
                    assert(g.executions@[j as int].outputs@[kk] == x);
                }
                if exists|jj: int, kk: int|
                    0 <= jj < j + 1 && 0 <= kk < g.executions@[jj].outputs@.len()
                        && #[trigger] g.executions@[jj].outputs@[kk] == x {
                    let (jj, kk) = choose|jj: int, kk: int|
                        0 <= jj < j + 1 && 0 <= kk < g.executions@[jj].outputs@.len()
                            && #[trigger] g.executions@[jj].outputs@[kk] == x;
                    if jj == j {
                        assert(outs@[kk] == x);
                    }
                }
            }
        }
        j += 1;
    }
}

/// Computes which groups can run: `res[i]` tells whether group `i` is reachable.
fn reachable_groups(dag: &ExecutionDAGData) -> (res: Vec<bool>)
    ensures
        res@.len() == dag.execution_groups@.len(),
        forall|i: int| 0 <= i < res@.len() ==> (res@[i] <==> group_reachable(*dag, i)),
{
    let groups = &dag.execution_groups;
    let n = groups.len();
    let mut ready: Vec<bool> = Vec::new();
    let mut t: usize = 0;
    while t < n
        invariant
            t <= n,
            n == groups@.len(),
            ready@.len() == t,
            forall|i: int| 0 <= i < t ==> !ready@[i],
            count_true(ready@) == 0,
        decreases n - t,
    {
        proof { lemma_count_true_push_false(ready@); }
        ready.push(false);
        t += 1;
    }
    let mut avail: Vec<FileUuid> = Vec::new();
    let mut p: usize = 0;
    while p < dag.provided_files.len()
        invariant
            p <= dag.provided_files@.len(),
            avail@ == dag.provided_files@.take(p as int),
        decreases dag.provided_files@.len() - p,
    {
        avail.push(dag.provided_files[p]);
        proof { assert(avail@ =~= dag.provided_files@.take(p + 1)); }
        p += 1;
    }
    proof { assert(avail@ =~= dag.provided_files@); }
    let ghost mut kb: nat = 0;
    let mut num_ready: usize = 0;
    let mut changed = true;
    while changed
        invariant
            n == groups@.len(),
            groups == dag.execution_groups,
            ready@.len() == n,
            num_ready == count_true(ready@),
            num_ready <= n,
            forall|x: FileUuid| avail@.contains(x) ==> ready_files(*dag, kb).contains(x),
            forall|i: int| 0 <= i < n && ready@[i] ==> deps_in(groups@[i], ready_files(*dag, kb)),
            forall|x: FileUuid| dag.provided_files@.contains(x) ==> avail@.contains(x),
            forall|i: int, x: FileUuid| 0 <= i < n && ready@[i] && #[trigger] is_output_of(groups@[i], x) ==> avail@.contains(x),
            !changed ==> forall|i: int| 0 <= i < n ==> ready@[i] || !deps_in(#[trigger] groups@[i], avail@.to_set()),
        decreases (n - num_ready) * 2 + if changed { 1int } else { 0int },
    {
        proof { lemma_count_true_le(ready@); }
        let ghost r0 = num_ready;
        changed = false;
        let mut i: usize = 0;
        while i < n
            invariant
                n == groups@.len(),
                groups == dag.execution_groups,
                i <= n,
                ready@.len() == n,
                num_ready == count_true(ready@),
                num_ready >= r0,
                num_ready <= n,
                changed ==> num_ready > r0,
                forall|x: FileUuid| avail@.contains(x) ==> ready_files(*dag, kb).contains(x),
                forall|j: int| 0 <= j < n && ready@[j] ==> deps_in(groups@[j], ready_files(*dag, kb)),
                forall|x: FileUuid| dag.provided_files@.contains(x) ==> avail@.contains(x),
                forall|j: int, x: FileUuid| 0 <= j < n && ready@[j] && #[trigger] is_output_of(groups@[j], x) ==> avail@.contains(x),
                !changed ==> forall|j: int| 0 <= j < i ==> ready@[j] || !deps_in(#[trigger] groups@[j], avail@.to_set()),
            decreases n - i,
        {
            if !ready[i] && all_deps_available(&groups[i], &avail) {
                proof {
                    let g = groups@[i as int];
                    assert(avail@.to_set().subset_of(ready_files(*dag, kb)));
                    lemma_deps_in_subset(g, avail@.to_set(), ready_files(*dag, kb));
                    lemma_ready_files_grow(*dag, kb);
                    lemma_count_true_update(ready@, i as int);
                    lemma_count_true_le(ready@.update(i as int, true));
                    assert forall|j: int| 0 <= j < n && ready@[j] implies deps_in(groups@[j], ready_files(*dag, kb + 1)) by {
                        lemma_deps_in_subset(groups@[j], ready_files(*dag, kb), ready_files(*dag, kb + 1));
                    }
                    lemma_deps_in_subset(g, ready_files(*dag, kb), ready_files(*dag, kb + 1));
                }
                let ghost old_avail = avail@;
                push_outputs(&groups[i], &mut avail);
                ready.set(i, true);
                num_ready = num_ready + 1;
                changed = true;
                proof {
                    let g = groups@[i as int];
                    let kb1 = kb + 1;
                    assert forall|x: FileUuid| dag.provided_files@.contains(x) implies avail@.contains(x) by {
                        assert(old_avail.contains(x));
                    }
                    assert forall|j: int, x: FileUuid| 0 <= j < n && ready@[j] && #[trigger] is_output_of(groups@[j], x) implies avail@.contains(x) by {
                        if j != i {
                            assert(old_avail.contains(x));
                        }
                    }
                    assert forall|x: FileUuid| avail@.contains(x) implies ready_files(*dag, kb1).contains(x) by {
                        if old_avail.contains(x) {
                        } else {
                            assert(is_output_of(g, x));
                            assert(deps_in(groups@[i as int], ready_files(*dag, kb)));
                            assert(ready_files(*dag, kb1) == ready_files(*dag, kb).union(
                                Set::new(
                                    |f: FileUuid|
                                        exists|ii: int|
                                            0 <= ii < dag.execution_groups@.len()
                                                && deps_in(#[trigger] dag.execution_groups@[ii], ready_files(*dag, kb))
                                                && is_output_of(dag.execution_groups@[ii], f),
                                ),
                            ));
                        }
                    }
                    kb = kb1;
                }
            }
            i += 1;
        }
    }
    proof {
        let s = avail@.to_set();
        assert forall|i: int, x: FileUuid|
            0 <= i < n && deps_in(groups@[i], s) && #[trigger] is_output_of(groups@[i], x) implies s.contains(x) by {
            assert(ready@[i]);
        }
        assert forall|i: int| 0 <= i < n implies (ready@[i] <==> group_reachable(*dag, i)) by {
            if ready@[i] {
                assert(deps_in(groups@[i], ready_files(*dag, kb)));
            }
            if group_reachable(*dag, i) {
                let k = choose|k: nat| deps_in(dag.execution_groups@[i], #[trigger] ready_files(*dag, k));
                lemma_closed_set_contains_ready(*dag, s, k);
                lemma_deps_in_subset(groups@[i], ready_files(*dag, k), s);
            }
        }
    }
    ready
}


// ------------------------------------------------------------------------------------------------
// The validation.
// ------------------------------------------------------------------------------------------------

/// Validate the DAG checking if all the required pieces are present and they actually make a DAG.
/// It's checked that no duplicated UUID are present, no files are missing, all the executions are
/// reachable and no cycles are present.
///
/// The DAG is accepted exactly when it is valid; otherwise the error names a defect that the DAG
/// has. The groups are checked in the order in which they are listed: the first defect found is
/// reported.
pub fn check_dag(dag: &ExecutionDAGData, callbacks: &ExecutionDAGWatchSet) -> (res: Result<(), DAGError>)
    ensures
        res is Ok <==> dag_valid(*dag, *callbacks),
        res matches Err(e) ==> error_justified(*dag, *callbacks, e),
{
    let ghost groups = dag.execution_groups@;
    let (execs, mut files) = match register_groups(&dag.execution_groups) {
        Ok(x) => x,
        Err(e) => {
            proof {
                if e is InvalidCapture {
                    let stream = e->stream;
                    let uuid = e->InvalidCapture_uuid;
                    let description = e->InvalidCapture_description;
                    let (i, j) = choose|i: int, j: int|
                        0 <= i < groups.len() && 0 <= j < groups[i].executions@.len()
                            && #[trigger] groups[i].executions@[j].uuid == uuid
                            && groups[i].executions@[j].description@ == description@
                            && ((stream@ == "stdout"@ && groups[i].executions@[j].capture_stdout && !groups[i].executions@[j].has_stdout)
                                || (stream@ == "stderr"@ && groups[i].executions@[j].capture_stderr && !groups[i].executions@[j].has_stderr));
                    assert(exec_at(*dag, i, j).uuid == uuid);
                } else if e is DuplicateFileUUID {
                    let uuid = e->DuplicateFileUUID_uuid;
                    let a = outputs_by_group(groups).flatten();
                    let (i, j) = choose|i: int, j: int| 0 <= i < j < a.len() && a[i] == uuid && a[j] == uuid;
                    assert(file_seq(*dag)[i] == uuid && file_seq(*dag)[j] == uuid);
                }
            }
            return Err(e);
        },
    };
    // add the provided files
    let ghost outs = files@;
    let mut p: usize = 0;
    while p < dag.provided_files.len()
        invariant
            groups == dag.execution_groups@,
            groups_valid(groups),
            outs == outputs_by_group(groups).flatten(),
            execs@ == exec_uuids_by_group(groups).flatten(),
            p <= dag.provided_files@.len(),
            files@ == outs + dag.provided_files@.take(p as int),
            files@.no_duplicates(),
        decreases dag.provided_files@.len() - p,
    {
        let uuid = dag.provided_files[p];
        proof {
            lemma_append_take_prefix(outs, dag.provided_files@, p + 1);
            assert(files@.push(uuid) =~= outs + dag.provided_files@.take(p + 1));
        }
        if vec_contains(&files, uuid) {
            proof { lemma_prefix_push_dup(files@, uuid, file_seq(*dag)); }
            return Err(DAGError::DuplicateFileUUID { uuid });
        }
        proof { lemma_push_no_dup(files@, uuid); }
        files.push(uuid);
        p += 1;
    }
    proof {
        assert(dag.provided_files@.take(p as int) =~= dag.provided_files@);
        assert(files@ == file_seq(*dag));
        assert(structure_valid(*dag));
    }
    // visit the DAG for finding the unreachable executions / cycles
    let ready = reachable_groups(dag);
    let mut i: usize = 0;
    while i < dag.execution_groups.len()
        invariant
            groups == dag.execution_groups@,
            structure_valid(*dag),
            files@ == file_seq(*dag),
            execs@ == exec_uuid_seq(*dag),
            ready@.len() == groups.len(),
            forall|j: int| 0 <= j < ready@.len() ==> (ready@[j] <==> group_reachable(*dag, j)),
            i <= groups.len(),
            forall|j: int| 0 <= j < i ==> group_reachable(*dag, j),
        decreases groups.len() - i,
    {
        if !ready[i] {
            let group = &dag.execution_groups[i];
            let mut j: usize = 0;
            while j < group.executions.len()
                invariant
                    groups == dag.execution_groups@,
                    i < groups.len(),
                    *group == groups[i as int],
                    files@ == file_seq(*dag),
                    j <= group.executions@.len(),
                    structure_valid(*dag),
                    first_unreachable(*dag, i as int),
                    forall|jj: int, kk: int| 0 <= jj < j && 0 <= kk < exec_at(*dag, i as int, jj).dependencies@.len()
                        ==> is_known_file(*dag, #[trigger] exec_at(*dag, i as int, jj).dependencies@[kk]),
                decreases group.executions@.len() - j,
            {
                let exec = &group.executions[j];
                let mut k: usize = 0;
                while k < exec.dependencies.len()
                    invariant
                        groups == dag.execution_groups@,
                        i < groups.len(),
                        *group == groups[i as int],
                        j < group.executions@.len(),
                        *exec == group.executions@[j as int],
                        files@ == file_seq(*dag),
                        k <= exec.dependencies@.len(),
                        structure_valid(*dag),
                        first_unreachable(*dag, i as int),
                        forall|jj: int, kk: int| 0 <= jj < j && 0 <= kk < exec_at(*dag, i as int, jj).dependencies@.len()
                            ==> is_known_file(*dag, #[trigger] exec_at(*dag, i as int, jj).dependencies@[kk]),
                        forall|kk: int| 0 <= kk < k ==> is_known_file(*dag, #[trigger] exec_at(*dag, i as int, j as int).dependencies@[kk]),
                    decreases exec.dependencies@.len() - k,
                {
                    let dep = exec.dependencies[k];
                    if !vec_contains(&files, dep) {
                        let mut description = "Dependency of '".to_owned();
                        push_str(&mut description, exec.description.as_str());
                        push_str(&mut description, "'");
                        proof {
                            assert(exec_at(*dag, i as int, j as int).dependencies@[k as int] == dep);
                            assert(exec_at(*dag, i as int, j as int).dependencies@.contains(dep));
                        }
                        return Err(DAGError::MissingFile { uuid: dep, description });
                    }
                    proof {
                        assert(exec_at(*dag, i as int, j as int).dependencies@[k as int] == dep);
                    }
                    k += 1;
                }
                j += 1;
            }
            let description = group.description.clone();
            proof {
                assert(dag.execution_groups@[i as int].description@ == description@);
                assert(first_unreachable(*dag, i as int));
                assert(deps_known(*dag, i as int));
            }
            return Err(DAGError::CycleDetected { description });
        }
        i += 1;
    }
    // check the file callbacks
    let mut f: usize = 0;
    while f < callbacks.files.len()
        invariant
            structure_valid(*dag),
            all_reachable(*dag),
            files@ == file_seq(*dag),
            execs@ == exec_uuid_seq(*dag),
            f <= callbacks.files@.len(),
            forall|g: int| 0 <= g < f ==> is_known_file(*dag, #[trigger] callbacks.files@[g]),
        decreases callbacks.files@.len() - f,
    {
        let file = callbacks.files[f];
        if !vec_contains(&files, file) {
            let description = "File required by a callback".to_owned();
            proof {
                assert(callbacks.files@.contains(file));
                assert(!callbacks_valid(*dag, *callbacks));
            }
            return Err(DAGError::MissingFile { uuid: file, description });
        }
        f += 1;
    }
    // check the execution callbacks
    let mut x: usize = 0;
    while x < callbacks.executions.len()
        invariant
            structure_valid(*dag),
            all_reachable(*dag),
            execs@ == exec_uuid_seq(*dag),
            forall|g: int| 0 <= g < callbacks.files@.len() ==> is_known_file(*dag, #[trigger] callbacks.files@[g]),
            x <= callbacks.executions@.len(),
            forall|g: int| 0 <= g < x ==> is_known_exec(*dag, #[trigger] callbacks.executions@[g]),
        decreases callbacks.executions@.len() - x,
    {
        let u = callbacks.executions[x];
        if !vec_contains(&execs, u) {
            proof {
                assert(callbacks.executions@.contains(u));
                assert(!callbacks_valid(*dag, *callbacks));
            }
            return Err(DAGError::MissingExecution { uuid: u });
        }
        x += 1;
    }
    Ok(())
}

} // verus!
