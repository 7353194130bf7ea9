//! The checks on the subtasks of a task and on the subtask checks of its solutions: subtasks
//! without a name, checks naming no subtask, solutions without checks or with checks on the
//! samples, a task without a title, and directories among the attachments.

use vstd::prelude::*;

use crate::samples::{join_comma, join_paths, views};
use crate::sanity::{find_subtasks_by_pattern_name, subtask_matches};
use crate::text::{decimal, push_str, str_eq, u64_to_string};

verus! {

/// What the checks know of a subtask: its id, its name, its maximum score as written, and
/// whether the place where it is defined is known.
#[derive(Debug, Clone)]
pub struct SubtaskFacts {
    pub id: u32,
    pub name: Option<String>,
    pub max_score: String,
    pub has_span: bool,
}

/// What the checks know of a solution: its path relative to the task, whether it is a symbolic
/// link, and the subtask name patterns of its checks.
#[derive(Debug, Clone)]
pub struct SolutionFacts {
    pub path: String,
    pub symlink: bool,
    pub patterns: Vec<String>,
}

/// How a subtask without a name is listed.
pub open spec fn subtask_label(s: SubtaskFacts) -> Seq<char> {
    "Subtask "@ + decimal(s.id as nat) + " ("@ + s.max_score@ + " points)"@
}

/// The labels of the subtasks without a name, in order.
pub open spec fn unnamed_labels(ss: Seq<SubtaskFacts>) -> Seq<Seq<char>>
    decreases ss.len(),
{
    if ss.len() == 0 {
        Seq::empty()
    } else {
        unnamed_labels(ss.drop_last()) + if ss.last().name is None { seq![subtask_label(ss.last())] } else { Seq::empty() }
    }
}

/// Some subtask without a name has a known place.
pub open spec fn unnamed_with_span(ss: Seq<SubtaskFacts>) -> bool {
    exists|i: int| 0 <= i < ss.len() && ss[i].name is None && #[trigger] ss[i].has_span
}

/// The warning about the subtasks without a name, with whether to tell where to name them; the
/// subtasks come in the order of their ids.
pub fn missing_subtask_names(subtasks: &Vec<SubtaskFacts>) -> (res: Option<(String, bool)>)
    ensures
        unnamed_labels(subtasks@).len() == 0 <==> res is None,
        res matches Some((m, help)) ==> m@ == "These subtasks are missing a name: "@ + join_comma(unnamed_labels(subtasks@))
            && help == unnamed_with_span(subtasks@),
{
    let mut labels: Vec<String> = Vec::new();
    let mut help = false;
    let mut i: usize = 0;
    while i < subtasks.len()
        invariant
            i <= subtasks@.len(),
            views(labels@) == unnamed_labels(subtasks@.take(i as int)),
            help == exists|j: int| 0 <= j < i && subtasks@[j].name is None && #[trigger] subtasks@[j].has_span,
        decreases subtasks@.len() - i,
    {
        let s = &subtasks[i];
        proof {
            assert(subtasks@.take(i + 1).drop_last() =~= subtasks@.take(i as int));
        }
        if s.name.is_none() {
            let mut label = "Subtask ".to_owned();
            let id = u64_to_string(s.id as u64);
            push_str(&mut label, id.as_str());
            push_str(&mut label, " (");
            push_str(&mut label, s.max_score.as_str());
            push_str(&mut label, " points)");
            proof {
                reveal_strlit(" (");
                reveal_strlit(" points)");
                reveal_strlit("Subtask ");
                assert(label@ =~= subtask_label(*s));
            }
            labels.push(label);
            if s.has_span {
                help = true;
            }
        }
        proof {
            assert(views(labels@) =~= unnamed_labels(subtasks@.take(i + 1)));
        }
        i += 1;
    }
    proof {
        assert(subtasks@.take(subtasks@.len() as int) =~= subtasks@);
    }
    if labels.len() == 0 {
        return None;
    }
    let mut m = "These subtasks are missing a name: ".to_owned();
    let joined = join_paths(&labels);
    push_str(&mut m, joined.as_str());
    Some((m, help))
}

/// The names of the subtasks that have one, in order.
pub open spec fn subtask_names(ss: Seq<SubtaskFacts>) -> Seq<Seq<char>>
    decreases ss.len(),
{
    if ss.len() == 0 {
        Seq::empty()
    } else {
        subtask_names(ss.drop_last()) + match ss.last().name {
            Some(n) => seq![n@],
            None => Seq::empty(),
        }
    }
}

/// Some subtask matches the pattern.
pub open spec fn pattern_matches(ss: Seq<SubtaskFacts>, p: Seq<char>) -> bool {
    exists|i: int| 0 <= i < ss.len() && #[trigger] subtask_matches(p, ss[i].name)
}

/// The errors about the checks of a solution that name no subtask, for the patterns from the
/// `k`-th on.
pub open spec fn invalid_pattern_errors(ss: Seq<SubtaskFacts>, sol: SolutionFacts, ps: Seq<String>) -> Seq<(Seq<char>, Seq<char>)>
    decreases ps.len(),
{
    if ps.len() == 0 {
        Seq::empty()
    } else {
        invalid_pattern_errors(ss, sol, ps.drop_last()) + if pattern_matches(ss, ps.last()@) {
            Seq::empty()
        } else {
            seq![(
                "Invalid subtask name '"@ + ps.last()@ + "' in solution '"@ + sol.path@ + "'"@,
                "The valid names are: "@ + join_comma(subtask_names(ss)),
            )]
        }
    }
}

/// The errors about the checks naming no subtask, over the solutions in order.
pub open spec fn invalid_name_errors(ss: Seq<SubtaskFacts>, sols: Seq<SolutionFacts>) -> Seq<(Seq<char>, Seq<char>)>
    decreases sols.len(),
{
    if sols.len() == 0 {
        Seq::empty()
    } else {
        invalid_name_errors(ss, sols.drop_last()) + invalid_pattern_errors(ss, sols.last(), sols.last().patterns@)
    }
}

/// The messages and notes of a list of errors.
pub open spec fn pair_views(v: Seq<(String, String)>) -> Seq<(Seq<char>, Seq<char>)> {
    v.map_values(|p: (String, String)| (p.0@, p.1@))
}

/// The pairs of an id and a name of the subtasks.
fn id_names(subtasks: &Vec<SubtaskFacts>) -> (res: Vec<(u32, Option<String>)>)
    ensures
        res@.len() == subtasks@.len(),
        forall|i: int| 0 <= i < subtasks@.len() ==> (#[trigger] res@[i]).0 == subtasks@[i].id
            && (match (res@[i].1, subtasks@[i].name) {
                (Some(a), Some(b)) => a@ == b@,
                (None, None) => true,
                _ => false,
            }),
{
    let mut res: Vec<(u32, Option<String>)> = Vec::new();
    let mut i: usize = 0;
    while i < subtasks.len()
        invariant
            i <= subtasks@.len(),
            res@.len() == i,
            forall|j: int| 0 <= j < i ==> (#[trigger] res@[j]).0 == subtasks@[j].id
                && (match (res@[j].1, subtasks@[j].name) {
                    (Some(a), Some(b)) => a@ == b@,
                    (None, None) => true,
                    _ => false,
                }),
        decreases subtasks@.len() - i,
    {
        let name = match &subtasks[i].name {
            Some(n) => Some(n.clone()),
            None => None,
        };
        res.push((subtasks[i].id, name));
        i += 1;
    }
    res
}

/// The names of the subtasks that have one, in order.
fn names_list(subtasks: &Vec<SubtaskFacts>) -> (res: Vec<String>)
    ensures
        views(res@) == subtask_names(subtasks@),
{
    let mut res: Vec<String> = Vec::new();
    let mut i: usize = 0;
    while i < subtasks.len()
        invariant
            i <= subtasks@.len(),
            views(res@) == subtask_names(subtasks@.take(i as int)),
        decreases subtasks@.len() - i,
    {
        proof {
            assert(subtasks@.take(i + 1).drop_last() =~= subtasks@.take(i as int));
        }
        match &subtasks[i].name {
            Some(n) => res.push(n.clone()),
            None => {},
        }
        proof {
            assert(views(res@) =~= subtask_names(subtasks@.take(i + 1)));
        }
        i += 1;
    }
    proof {
        assert(subtasks@.take(subtasks@.len() as int) =~= subtasks@);
    }
    res
}

/// The errors about the subtask checks of the solutions that name no subtask, each with the
/// valid names; the subtasks come in the order of their ids.
pub fn invalid_subtask_names(subtasks: &Vec<SubtaskFacts>, solutions: &Vec<SolutionFacts>) -> (res: Vec<(String, String)>)
    ensures
        pair_views(res@) == invalid_name_errors(subtasks@, solutions@),
{
    let pairs = id_names(subtasks);
    let names = names_list(subtasks);
    let mut note = "The valid names are: ".to_owned();
    let joined = join_paths(&names);
    push_str(&mut note, joined.as_str());
    let ghost note_v = "The valid names are: "@ + join_comma(subtask_names(subtasks@));
    assert(note@ == note_v);
    let mut res: Vec<(String, String)> = Vec::new();
    let mut k: usize = 0;
    while k < solutions.len()
        invariant
            k <= solutions@.len(),
            note@ == note_v,
            note_v == "The valid names are: "@ + join_comma(subtask_names(subtasks@)),
            pairs@.len() == subtasks@.len(),
            forall|i: int| 0 <= i < subtasks@.len() ==> (#[trigger] pairs@[i]).0 == subtasks@[i].id
                && (match (pairs@[i].1, subtasks@[i].name) {
                    (Some(a), Some(b)) => a@ == b@,
                    (None, None) => true,
                    _ => false,
                }),
            pair_views(res@) == invalid_name_errors(subtasks@, solutions@.take(k as int)),
        decreases solutions@.len() - k,
    {
        let sol = &solutions[k];
        let ghost before = pair_views(res@);
        let mut t: usize = 0;
        while t < sol.patterns.len()
            invariant
                t <= sol.patterns@.len(),
                note@ == note_v,
                note_v == "The valid names are: "@ + join_comma(subtask_names(subtasks@)),
                pairs@.len() == subtasks@.len(),
                forall|i: int| 0 <= i < subtasks@.len() ==> (#[trigger] pairs@[i]).0 == subtasks@[i].id
                    && (match (pairs@[i].1, subtasks@[i].name) {
                        (Some(a), Some(b)) => a@ == b@,
                        (None, None) => true,
                        _ => false,
                    }),
                pair_views(res@) == before + invalid_pattern_errors(subtasks@, *sol, sol.patterns@.take(t as int)),
            decreases sol.patterns@.len() - t,
        {
            let p = &sol.patterns[t];
            let found = find_subtasks_by_pattern_name(p.as_str(), &pairs);
            let ghost pred = |st: (u32, Option<String>)| subtask_matches(p@, st.1);
            proof {
                assert(sol.patterns@.take(t + 1).drop_last() =~= sol.patterns@.take(t as int));
                assert forall|i: int| 0 <= i < subtasks@.len() implies
                    subtask_matches(p@, pairs@[i].1) == subtask_matches(p@, subtasks@[i].name) by {
                    match (pairs@[i].1, subtasks@[i].name) {
                        (Some(a), Some(b)) => { assert(a@ == b@); },
                        _ => {},
                    }
                }
                if pattern_matches(subtasks@, p@) {
                    let i = choose|i: int| 0 <= i < subtasks@.len() && #[trigger] subtask_matches(p@, subtasks@[i].name);
                    assert(pred(pairs@[i]));
                    pairs@.lemma_filter_contains(pred, i);
                    assert(pairs@.filter(pred).len() > 0);
                } else {
                    if pairs@.filter(pred).len() > 0 {
                        let x = pairs@.filter(pred)[0];
                        pairs@.lemma_filter_pred(pred, 0);
                        assert(pairs@.filter(pred).contains(x));
                        pairs@.lemma_filter_contains_rev(pred, x);
                        let i = choose|i: int| 0 <= i < pairs@.len() && pairs@[i] == x;
                        assert(subtask_matches(p@, subtasks@[i].name));
                    }
                }
            }
            if found.len() == 0 {
                let mut m = "Invalid subtask name '".to_owned();
                push_str(&mut m, p.as_str());
                push_str(&mut m, "' in solution '");
                push_str(&mut m, sol.path.as_str());
                push_str(&mut m, "'");
                let n2 = note.clone();
                let ghost prev = res@;
                res.push((m, n2));
                proof {
                    assert(sol.patterns@.take(t + 1).last() == *p);
                    assert(!pattern_matches(subtasks@, p@));
                    assert(m@ == "Invalid subtask name '"@ + p@ + "' in solution '"@ + sol.path@ + "'"@);
                    assert(res@ == prev.push((m, n2)));
                    assert(pair_views(res@) =~= pair_views(prev).push((m@, n2@)));
                    assert(n2@ == note_v);
                    let ps = sol.patterns@.take(t + 1);
                    assert(ps.len() > 0);
                    assert(ps.drop_last() =~= sol.patterns@.take(t as int));
                    assert(ps.last()@ == p@);
                    assert(!pattern_matches(subtasks@, ps.last()@));
                    assert(m@ =~= "Invalid subtask name '"@ + ps.last()@ + "' in solution '"@ + sol.path@ + "'"@);
                    assert(n2@ =~= "The valid names are: "@ + join_comma(subtask_names(subtasks@)));
                    assert((m@, n2@) == (
                        "Invalid subtask name '"@ + ps.last()@ + "' in solution '"@ + sol.path@ + "'"@,
                        "The valid names are: "@ + join_comma(subtask_names(subtasks@)),
                    ));
                    assert(invalid_pattern_errors(subtasks@, *sol, sol.patterns@.take(t + 1))
                        == invalid_pattern_errors(subtasks@, *sol, sol.patterns@.take(t as int)) + seq![(m@, n2@)]);
                    assert(pair_views(res@) =~= before + invalid_pattern_errors(subtasks@, *sol, sol.patterns@.take(t + 1)));
                }
            } else {
                proof {
                    assert(pair_views(res@) =~= before + invalid_pattern_errors(subtasks@, *sol, sol.patterns@.take(t + 1)));
                }
            }
            t += 1;
        }
        proof {
            assert(sol.patterns@.take(sol.patterns@.len() as int) =~= sol.patterns@);
            assert(solutions@.take(k + 1).drop_last() =~= solutions@.take(k as int));
        }
        k += 1;
    }
    proof {
        assert(solutions@.take(solutions@.len() as int) =~= solutions@);
    }
    res
}

/// The error about a task without a title.
pub fn empty_title(title: &str) -> (res: Option<String>)
    ensures
        title@.len() == 0 ==> (res matches Some(m) && m@ == "Missing task's title"@),
        title@.len() > 0 ==> res is None,
{
    if title.unicode_len() == 0 {
        Some("Missing task's title".to_owned())
    } else {
        None
    }
}

/// Every subtask has a name.
pub open spec fn all_named(ss: Seq<SubtaskFacts>) -> bool {
    forall|i: int| 0 <= i < ss.len() ==> (#[trigger] ss[i]).name is Some
}

/// The paths of the solutions without subtask checks that are not symbolic links, in order.
pub open spec fn unchecked_paths(sols: Seq<SolutionFacts>) -> Seq<Seq<char>>
    decreases sols.len(),
{
    if sols.len() == 0 {
        Seq::empty()
    } else {
        unchecked_paths(sols.drop_last()) + if sols.last().patterns@.len() == 0 && !sols.last().symlink {
            seq![sols.last().path@]
        } else {
            Seq::empty()
        }
    }
}

/// The warning about the solutions without subtask checks; symbolic links are left out (they may
/// point to attachments), and nothing is said until every subtask has a name.
pub fn solutions_with_no_checks(subtasks: &Vec<SubtaskFacts>, solutions: &Vec<SolutionFacts>) -> (res: Option<String>)
    ensures
        !all_named(subtasks@) || unchecked_paths(solutions@).len() == 0 <==> res is None,
        res matches Some(m) ==> m@ == "The following solutions are missing the subtask checks: "@ + join_comma(unchecked_paths(solutions@)),
{
    let mut i: usize = 0;
    while i < subtasks.len()
        invariant
            i <= subtasks@.len(),
            forall|j: int| 0 <= j < i ==> (#[trigger] subtasks@[j]).name is Some,
        decreases subtasks@.len() - i,
    {
        if subtasks[i].name.is_none() {
            return None;
        }
        i += 1;
    }
    let mut paths: Vec<String> = Vec::new();
    let mut k: usize = 0;
    while k < solutions.len()
        invariant
            k <= solutions@.len(),
            views(paths@) == unchecked_paths(solutions@.take(k as int)),
        decreases solutions@.len() - k,
    {
        proof {
            assert(solutions@.take(k + 1).drop_last() =~= solutions@.take(k as int));
        }
        let sol = &solutions[k];
        if sol.patterns.len() == 0 && !sol.symlink {
            paths.push(sol.path.clone());
        }
        proof {
            assert(views(paths@) =~= unchecked_paths(solutions@.take(k + 1)));
        }
        k += 1;
    }
    proof {
        assert(solutions@.take(solutions@.len() as int) =~= solutions@);
    }
    if paths.len() == 0 {
        return None;
    }
    let mut m = "The following solutions are missing the subtask checks: ".to_owned();
    let joined = join_paths(&paths);
    push_str(&mut m, joined.as_str());
    Some(m)
}

/// The name of the subtask with id 0, if it has one.
pub open spec fn samples_name(ss: Seq<SubtaskFacts>) -> Option<Seq<char>> {
    if exists|i: int| 0 <= i < ss.len() && (#[trigger] ss[i]).id == 0 {
        let i = choose|i: int| 0 <= i < ss.len() && (#[trigger] ss[i]).id == 0;
        match ss[i].name {
            Some(n) => Some(n@),
            None => None,
        }
    } else {
        None
    }
}

/// Some check of the solution is on exactly the name given.
pub open spec fn checks_name(sol: SolutionFacts, n: Seq<char>) -> bool {
    exists|j: int| 0 <= j < sol.patterns@.len() && (#[trigger] sol.patterns@[j])@ == n
}

/// The paths of the solutions with a check on exactly the name given, in order.
pub open spec fn checking_paths(sols: Seq<SolutionFacts>, n: Seq<char>) -> Seq<Seq<char>>
    decreases sols.len(),
{
    if sols.len() == 0 {
        Seq::empty()
    } else {
        checking_paths(sols.drop_last(), n) + if checks_name(sols.last(), n) { seq![sols.last().path@] } else { Seq::empty() }
    }
}

/// The warning about the solutions with a subtask check on the samples (the subtask with id 0,
/// when it has a name), with its note. The ids of the subtasks are distinct.
pub fn solutions_with_samples_check(subtasks: &Vec<SubtaskFacts>, solutions: &Vec<SolutionFacts>) -> (res: Option<(String, String)>)
    requires
        forall|a: int, b: int| 0 <= a < b < subtasks@.len() ==> subtasks@[a].id != subtasks@[b].id,
    ensures
        match samples_name(subtasks@) {
            None => res is None,
            Some(n) => if checking_paths(solutions@, n).len() == 0 {
                res is None
            } else {
                res matches Some((m, note))
                    && m@ == "The following solutions have solution checks for the samples: "@ + join_comma(checking_paths(solutions@, n))
                    && note@ == "Subtask checks on samples are rarely useful."@
            },
        },
{
    let mut found: Option<usize> = None;
    let mut i: usize = 0;
    while i < subtasks.len()
        invariant
            i <= subtasks@.len(),
            match found {
                Some(f) => f < i && subtasks@[f as int].id == 0,
                None => forall|j: int| 0 <= j < i ==> (#[trigger] subtasks@[j]).id != 0,
            },
        decreases subtasks@.len() - i,
    {
        if found.is_none() && subtasks[i].id == 0 {
            found = Some(i);
        }
        i += 1;
    }
    let f = match found {
        None => {
            return None;
        },
        Some(f) => f,
    };
    proof {
        let c = choose|c: int| 0 <= c < subtasks@.len() && (#[trigger] subtasks@[c]).id == 0;
        assert(subtasks@[f as int].id == 0);
        if c != f as int {
            if c < f as int {
                assert(subtasks@[c].id != subtasks@[f as int].id);
            } else {
                assert(subtasks@[f as int].id != subtasks@[c].id);
            }
        }
    }
    let samples = match &subtasks[f].name {
        None => {
            return None;
        },
        Some(n) => n,
    };
    let mut paths: Vec<String> = Vec::new();
    let mut k: usize = 0;
    while k < solutions.len()
        invariant
            k <= solutions@.len(),
            views(paths@) == checking_paths(solutions@.take(k as int), samples@),
        decreases solutions@.len() - k,
    {
        proof {
            assert(solutions@.take(k + 1).drop_last() =~= solutions@.take(k as int));
        }
        let sol = &solutions[k];
        let mut checked = false;
        let mut t: usize = 0;
        while t < sol.patterns.len()
            invariant
                t <= sol.patterns@.len(),
                checked == exists|j: int| 0 <= j < t && (#[trigger] sol.patterns@[j])@ == samples@,
            decreases sol.patterns@.len() - t,
        {
            if str_eq(sol.patterns[t].as_str(), samples.as_str()) {
                checked = true;
            }
            t += 1;
        }
        if checked {
            paths.push(sol.path.clone());
        }
        proof {
            assert(views(paths@) =~= checking_paths(solutions@.take(k + 1), samples@));
        }
        k += 1;
    }
    proof {
        assert(solutions@.take(solutions@.len() as int) =~= solutions@);
    }
    if paths.len() == 0 {
        return None;
    }
    let mut m = "The following solutions have solution checks for the samples: ".to_owned();
    let joined = join_paths(&paths);
    push_str(&mut m, joined.as_str());
    Some((m, "Subtask checks on samples are rarely useful.".to_owned()))
}

/// The errors about the directories among the attachments, in order: each entry is a path and
/// whether it leads to a directory.
pub fn att_directories(entries: &Vec<(String, bool)>) -> (res: Vec<String>)
    ensures
        res@.len() <= entries@.len(),
        views(res@) == dir_messages(entries@),
{
    let mut res: Vec<String> = Vec::new();
    let mut i: usize = 0;
    while i < entries.len()
        invariant
            i <= entries@.len(),
            res@.len() <= i,
            views(res@) == dir_messages(entries@.take(i as int)),
        decreases entries@.len() - i,
    {
        proof {
            assert(entries@.take(i + 1).drop_last() =~= entries@.take(i as int));
        }
        if entries[i].1 {
            let mut m = "Only file attachments are supported: ".to_owned();
            push_str(&mut m, entries[i].0.as_str());
            push_str(&mut m, " is a directory");
            res.push(m);
        }
        proof {
            assert(views(res@) =~= dir_messages(entries@.take(i + 1)));
        }
        i += 1;
    }
    proof {
        assert(entries@.take(entries@.len() as int) =~= entries@);
    }
    res
}

/// The errors about the directories among the attachments, in order.
pub open spec fn dir_messages(entries: Seq<(String, bool)>) -> Seq<Seq<char>>
    decreases entries.len(),
{
    if entries.len() == 0 {
        Seq::empty()
    } else {
        dir_messages(entries.drop_last()) + if entries.last().1 {
            seq!["Only file attachments are supported: "@ + entries.last().0@ + " is a directory"@]
        } else {
            Seq::empty()
        }
    }
}

} // verus!
