//! The search of a task directory: starting from a directory and going up at most a given number
//! of times, each directory is probed for an IOI task and for a Terry task.

use vstd::prelude::*;

use crate::text::push_str;
use crate::words::string_views;

verus! {

/// The formats of a task.
#[derive(Debug, Clone, Copy, PartialEq, Eq, Structural)]
pub enum TaskFormat {
    /// An IOI-like task.
    Ioi,
    /// A Terry-like task.
    Terry,
}

/// A directory that looked like a task of some format but could not be parsed as one.
#[derive(Debug, Clone)]
pub struct ProbeFailure {
    /// The format that was tried.
    pub format: TaskFormat,
    /// The directory.
    pub path: String,
    /// The chain of causes of the error, outermost first.
    pub causes: Vec<String>,
}

/// What probing a directory told: for each format, nothing if the directory does not look like a
/// task of that format, otherwise whether parsing it succeeded (or the chain of causes of the
/// error); and whether the directory has a parent.
#[derive(Debug, Clone)]
pub struct DirectoryProbe {
    /// The directory.
    pub path: String,
    /// The outcome of parsing the directory as an IOI task, if it looks like one.
    pub ioi: Option<Result<(), Vec<String>>>,
    /// The outcome of parsing the directory as a Terry task, if it looks like one.
    pub terry: Option<Result<(), Vec<String>>>,
    /// Whether the directory has a parent.
    pub has_parent: bool,
}

/// The state of the search: how many directories were probed, how many may be, and the failures
/// met so far.
#[derive(Debug, Clone)]
pub struct TaskSearch {
    /// The number of directories probed so far.
    pub probed: u32,
    /// The maximum number of directories to probe.
    pub max_depth: u32,
    /// The directories that looked like tasks but could not be parsed, in order.
    pub failures: Vec<ProbeFailure>,
}

/// What to do next.
#[derive(Debug, Clone)]
pub enum SearchAction {
    /// Probe the next directory: the first one, then the parent of the last one probed.
    Probe,
    /// The last directory probed is a task of this format.
    Found(TaskFormat),
    /// The last directory probed is both an IOI and a Terry task.
    Ambiguous,
    /// No task directory was found; the message tells why each candidate failed.
    NotFound(String),
}

/// The name of a format in messages.
pub open spec fn format_name(f: TaskFormat) -> Seq<char> {
    match f {
        TaskFormat::Ioi => "IOI"@,
        TaskFormat::Terry => "Terry"@,
    }
}

/// The lines telling the causes of an error.
pub open spec fn causes_text(cs: Seq<Seq<char>>) -> Seq<char>
    decreases cs.len(),
{
    if cs.len() == 0 {
        Seq::empty()
    } else {
        causes_text(cs.drop_last()) + "      Caused by:\n        "@ + cs.last() + "\n"@
    }
}

/// The lines telling why a directory failed.
pub open spec fn failure_text(f: ProbeFailure) -> Seq<char> {
    "    - Not a valid "@ + format_name(f.format) + " task at "@ + f.path@ + "\n"@ + causes_text(string_views(f.causes@))
}

/// The lines telling why each directory failed.
pub open spec fn failures_text(fs: Seq<ProbeFailure>) -> Seq<char>
    decreases fs.len(),
{
    if fs.len() == 0 {
        Seq::empty()
    } else {
        failures_text(fs.drop_last()) + failure_text(fs.last())
    }
}

/// The message when no task directory is found.
pub open spec fn not_found_message(fs: Seq<ProbeFailure>) -> Seq<char> {
    "\n"@ + failures_text(fs)
}

/// The failures after probing a directory: its IOI failure, then its Terry failure, if any.
pub open spec fn failures_after(fs: Seq<ProbeFailure>, p: DirectoryProbe) -> Seq<ProbeFailure> {
    let with_ioi = match p.ioi {
        Some(Err(c)) => fs.push(ProbeFailure { format: TaskFormat::Ioi, path: p.path, causes: c }),
        _ => fs,
    };
    match p.terry {
        Some(Err(c)) => with_ioi.push(ProbeFailure { format: TaskFormat::Terry, path: p.path, causes: c }),
        _ => with_ioi,
    }
}

impl TaskSearch {
    /// Starts the search of a task directory, probing at most `max_depth` directories.
    pub fn start(max_depth: u32) -> (res: (TaskSearch, SearchAction))
        ensures
            res.0.probed == 0,
            res.0.max_depth == max_depth,
            res.0.failures@.len() == 0,
            max_depth == 0 ==> (res.1 matches SearchAction::NotFound(m) && m@ == not_found_message(Seq::empty())),
            max_depth > 0 ==> res.1 is Probe,
    {
        let state = TaskSearch { probed: 0, max_depth, failures: Vec::new() };
        if max_depth == 0 {
            proof {
                reveal_strlit("\n");
                assert(not_found_message(Seq::empty()) =~= "\n"@);
            }
            (state, SearchAction::NotFound("\n".to_owned()))
        } else {
            (state, SearchAction::Probe)
        }
    }
}

/// The message telling why each directory failed.
fn not_found(fs: &Vec<ProbeFailure>) -> (res: String)
    ensures
        res@ == not_found_message(fs@),
{
    let mut m = "\n".to_owned();
    let mut i: usize = 0;
    proof {
        assert(fs@.take(0) =~= Seq::<ProbeFailure>::empty());
        assert(m@ =~= "\n"@ + failures_text(fs@.take(0)));
    }
    while i < fs.len()
        invariant
            i <= fs@.len(),
            m@ == "\n"@ + failures_text(fs@.take(i as int)),
        decreases fs@.len() - i,
    {
        let f = &fs[i];
        let ghost before = m@;
        push_str(&mut m, "    - Not a valid ");
        match f.format {
            TaskFormat::Ioi => push_str(&mut m, "IOI"),
            TaskFormat::Terry => push_str(&mut m, "Terry"),
        }
        push_str(&mut m, " task at ");
        push_str(&mut m, f.path.as_str());
        push_str(&mut m, "\n");
        let ghost head = m@;
        let mut k: usize = 0;
        proof {
            assert(string_views(f.causes@).take(0) =~= Seq::<Seq<char>>::empty());
            assert(m@ =~= head + causes_text(string_views(f.causes@).take(0)));
        }
        while k < f.causes.len()
            invariant
                k <= f.causes@.len(),
                m@ == head + causes_text(string_views(f.causes@).take(k as int)),
            decreases f.causes@.len() - k,
        {
            push_str(&mut m, "      Caused by:\n        ");
            push_str(&mut m, f.causes[k].as_str());
            push_str(&mut m, "\n");
            proof {
                let cs = string_views(f.causes@);
                assert(cs.take(k + 1).drop_last() =~= cs.take(k as int));
                assert(cs.take(k + 1).last() == f.causes@[k as int]@);
                assert(m@ =~= head + causes_text(cs.take(k + 1)));
            }
            k += 1;
        }
        proof {
            assert(string_views(f.causes@).take(k as int) =~= string_views(f.causes@));
            assert(fs@.take(i + 1).drop_last() =~= fs@.take(i as int));
            assert(fs@.take(i + 1).last() == fs@[i as int]);
            assert(m@ =~= "\n"@ + failures_text(fs@.take(i + 1)));
        }
        i += 1;
    }
    proof { assert(fs@.take(i as int) =~= fs@); }
    m
}

/// Searches a valid task directory: given the state of the search and what probing the current
/// directory told, decides whether a task was found (an IOI or a Terry task, but not both), or
/// whether to probe the parent directory, or that no task can be found: because the last allowed
/// directory, or the root, was probed.
pub fn find_task(state: TaskSearch, probe: DirectoryProbe) -> (res: (TaskSearch, SearchAction))
    requires
        state.probed < state.max_depth,
    ensures
        res.0.failures@ == failures_after(state.failures@, probe),
        res.0.max_depth == state.max_depth,
        res.0.probed == state.probed + 1,
        match (probe.ioi, probe.terry) {
            (Some(Ok(_)), Some(Ok(_))) => res.1 is Ambiguous,
            (Some(Ok(_)), _) => res.1 == SearchAction::Found(TaskFormat::Ioi),
            (_, Some(Ok(_))) => res.1 == SearchAction::Found(TaskFormat::Terry),
            _ => if probe.has_parent && state.probed + 1 < state.max_depth {
                res.1 is Probe
            } else {
                res.1 matches SearchAction::NotFound(m) && m@ == not_found_message(failures_after(state.failures@, probe))
            },
        },
{
    let TaskSearch { probed, max_depth, failures } = state;
    let DirectoryProbe { path, ioi, terry, has_parent } = probe;
    let mut failures = failures;
    let ioi_ok = match ioi {
        Some(Ok(_)) => true,
        Some(Err(c)) => {
            failures.push(ProbeFailure { format: TaskFormat::Ioi, path: path.clone(), causes: c });
            false
        },
        None => false,
    };
    let terry_ok = match terry {
        Some(Ok(_)) => true,
        Some(Err(c)) => {
            failures.push(ProbeFailure { format: TaskFormat::Terry, path: path.clone(), causes: c });
            false
        },
        None => false,
    };
    let next = TaskSearch { probed: probed + 1, max_depth, failures };
    if ioi_ok && terry_ok {
        (next, SearchAction::Ambiguous)
    } else if ioi_ok {
        (next, SearchAction::Found(TaskFormat::Ioi))
    } else if terry_ok {
        (next, SearchAction::Found(TaskFormat::Terry))
    } else if has_parent && probed + 1 < max_depth {
        (next, SearchAction::Probe)
    } else {
        let m = not_found(&next.failures);
        (next, SearchAction::NotFound(m))
    }
}

/// Probing the directory finds a task of some format.
pub open spec fn probe_found(p: DirectoryProbe) -> bool {
    (p.ioi matches Some(Ok(_))) || (p.terry matches Some(Ok(_)))
}

/// The failures met probing the directories, in order.
pub open spec fn failures_of(ps: Seq<DirectoryProbe>) -> Seq<ProbeFailure>
    decreases ps.len(),
{
    if ps.len() == 0 {
        Seq::empty()
    } else {
        failures_after(failures_of(ps.drop_last()), ps.last())
    }
}

/// The search goes on after the directory at distance `e`: it is not a task, it has a parent,
/// and more directories may be probed.
pub open spec fn goes_past(ps: Seq<DirectoryProbe>, max_depth: nat, e: int) -> bool {
    !probe_found(ps[e]) && ps[e].has_parent && e + 1 < max_depth
}

/// The search stops at the directory at distance `d`: it is probed (every closer one is passed),
/// and either it is a task, or it has no parent, or it is the last that may be probed.
pub open spec fn stops_at(ps: Seq<DirectoryProbe>, max_depth: nat, d: int) -> bool {
    &&& 0 <= d < ps.len()
    &&& d < max_depth
    &&& forall|e: int| 0 <= e < d ==> goes_past(ps, max_depth, e)
    &&& !goes_past(ps, max_depth, d)
}

/// The outcome of the search at the directory where it stops.
pub open spec fn outcome_at(ps: Seq<DirectoryProbe>, d: int, a: SearchAction) -> bool {
    match (ps[d].ioi, ps[d].terry) {
        (Some(Ok(_)), Some(Ok(_))) => a is Ambiguous,
        (Some(Ok(_)), _) => a == SearchAction::Found(TaskFormat::Ioi),
        (_, Some(Ok(_))) => a == SearchAction::Found(TaskFormat::Terry),
        _ => a matches SearchAction::NotFound(m) && m@ == not_found_message(failures_of(ps.take(d + 1))),
    }
}

/// Searches a task directory over the probes of the start directory and of its ancestors, in
/// order (the probe at distance `d` is that of the `d`-th ancestor), with at most `max_depth`
/// directories probed: the search stops at the closest directory that is a task, has no parent,
/// or is the last that may be probed, and tells what it found there; no directory at all is
/// probed when `max_depth` is zero, and then no task is found.
pub fn search_task(max_depth: u32, probes: Vec<DirectoryProbe>) -> (res: SearchAction)
    requires
        probes@.len() >= max_depth || (probes@.len() > 0 && !probes@.last().has_parent),
    ensures
        max_depth == 0 ==> (res matches SearchAction::NotFound(m) && m@ == not_found_message(Seq::empty())),
        max_depth > 0 ==> exists|d: int| stops_at(probes@, max_depth as nat, d) && outcome_at(probes@, d, res),
{
    let ghost ps = probes@;
    let (mut state, mut action) = TaskSearch::start(max_depth);
    if max_depth == 0 {
        return action;
    }
    let mut rest = probes;
    proof {
        assert(ps.take(0) =~= Seq::<DirectoryProbe>::empty());
        assert(ps.skip(0) =~= ps);
    }
    let mut go = true;
    while go
        invariant
            go == (action is Probe),
            ps.len() >= max_depth || (ps.len() > 0 && !ps.last().has_parent),
            max_depth > 0,
            state.max_depth == max_depth,
            go ==> state.probed < max_depth,
            go ==> (state.probed as int) < ps.len(),
            state.probed <= ps.len(),
            rest@ == ps.skip(state.probed as int),
            state.failures@ == failures_of(ps.take(state.probed as int)),
            go ==> forall|e: int| 0 <= e < state.probed ==> goes_past(ps, max_depth as nat, e),
            !(action is Probe) ==> exists|d: int| stops_at(ps, max_depth as nat, d) && outcome_at(ps, d, action),
        decreases max_depth - state.probed,
    {
        let ghost d = state.probed as int;
        let p = rest.remove(0);
        proof {
            assert(p == ps[d]);
            assert(rest@ =~= ps.skip(d + 1));
            assert(ps.take(d + 1).drop_last() =~= ps.take(d));
            assert(ps.take(d + 1).last() == ps[d]);
        }
        let (next, act) = find_task(state, p);
        state = next;
        action = act;
        go = match &action {
            SearchAction::Probe => true,
            _ => false,
        };
        proof {
            assert(state.failures@ == failures_of(ps.take(d + 1)));
            if action is Probe {
                assert(goes_past(ps, max_depth as nat, d));
                if d + 1 >= ps.len() {
                    assert(!ps.last().has_parent);
                }
            } else {
                assert(!goes_past(ps, max_depth as nat, d));
                assert(stops_at(ps, max_depth as nat, d));
                assert(outcome_at(ps, d, action));
            }
        }
    }
    action
}

/// The error when the search ends: nothing when a task of one format was found (or the search
/// goes on), otherwise why no task directory can be used.
pub fn search_error(action: &SearchAction) -> (res: Option<String>)
    ensures
        match action {
            SearchAction::Ambiguous => res matches Some(m) && m@ == "Ambiguous task directory, can be either IOI and terry"@,
            SearchAction::NotFound(n) => res matches Some(m) && m@ == "Cannot find a valid task directory: "@ + n@,
            _ => res is None,
        },
{
    match action {
        SearchAction::Ambiguous => Some("Ambiguous task directory, can be either IOI and terry".to_owned()),
        SearchAction::NotFound(n) => {
            let mut m = "Cannot find a valid task directory: ".to_owned();
            push_str(&mut m, n.as_str());
            Some(m)
        },
        _ => None,
    }
}

} // verus!
