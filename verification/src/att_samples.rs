//! The check, once the evaluation is over, of the sample cases in `att/`: each should be a
//! symbolic link that leads somewhere, and the sample inputs in `att/` should be those of the
//! first subtask of the task.

use vstd::prelude::*;

use crate::ioi::InputGenerator;
use crate::samples::{join_comma, join_paths, views};
use crate::text::push_str;

verus! {

/// How serious a problem is.
#[derive(Debug, Clone, Copy, PartialEq, Eq)]
pub enum Severity {
    Error,
    Warning,
}

/// A problem found by a check, with an optional note and an optional help.
#[derive(Debug, Clone)]
pub struct Diagnostic {
    pub severity: Severity,
    pub message: String,
    pub note: Option<String>,
    pub help: Option<String>,
}

/// The texts of a diagnostic.
pub struct DiagnosticView {
    pub severity: Severity,
    pub message: Seq<char>,
    pub note: Option<Seq<char>>,
    pub help: Option<Seq<char>>,
}

/// The view of an optional text.
pub open spec fn opt_view(t: Option<String>) -> Option<Seq<char>> {
    match t {
        Some(s) => Some(s@),
        None => None,
    }
}

impl View for Diagnostic {
    type V = DiagnosticView;

    open spec fn view(&self) -> DiagnosticView {
        DiagnosticView { severity: self.severity, message: self.message@, note: opt_view(self.note), help: opt_view(self.help) }
    }
}

/// The views of a list of diagnostics.
pub open spec fn diag_views(v: Seq<Diagnostic>) -> Seq<DiagnosticView> {
    v.map_values(|d: Diagnostic| d@)
}

/// A sample file of `att/`: its path in the task, where it points when it is a symbolic link,
/// whether that leads nowhere, and, when it leads somewhere, the path it resolves to and whether
/// that file is a sample input (its name holds `input`).
#[derive(Debug, Clone)]
pub struct AttSample {
    pub path: String,
    pub link: Option<String>,
    pub broken: bool,
    pub resolved: Option<String>,
    pub is_input: bool,
}

/// A sample input of the task: the path it resolves to and the path shown for it.
#[derive(Debug, Clone)]
pub struct SampleInput {
    pub resolved: String,
    pub shown: String,
}

/// What is said of a sample file of `att/` by itself.
pub open spec fn sample_diag(s: AttSample) -> Seq<DiagnosticView> {
    match s.link {
        Some(target) => if s.broken {
            seq![DiagnosticView {
                severity: Severity::Error,
                message: "Sample case "@ + s.path@ + " is a broken link"@,
                note: Some("It points to "@ + target@),
                help: None,
            }]
        } else {
            Seq::empty()
        },
        None => seq![DiagnosticView {
            severity: Severity::Warning,
            message: "Sample case "@ + s.path@ + " is not a symlink"@,
            note: None,
            help: Some("Move this file in the statement folder and symlink it here. This way the sample file can be included in the compiled statement."@),
        }],
    }
}

/// What is said of the sample files of `att/` by themselves, in order.
pub open spec fn sample_diags(ss: Seq<AttSample>) -> Seq<DiagnosticView>
    decreases ss.len(),
{
    if ss.len() == 0 {
        Seq::empty()
    } else {
        sample_diags(ss.drop_last()) + sample_diag(ss.last())
    }
}

/// The sample file of `att/` resolves to this sample input.
pub open spec fn att_has(ss: Seq<AttSample>, p: Seq<char>) -> bool {
    exists|i: int| 0 <= i < ss.len() && ss[i].is_input && ((#[trigger] ss[i]).resolved matches Some(r) && r@ == p)
}

/// The shown paths of the inputs of the task that no sample file of `att/` resolves to, in order.
pub open spec fn missing_in_att(task: Seq<SampleInput>, ss: Seq<AttSample>) -> Seq<Seq<char>>
    decreases task.len(),
{
    if task.len() == 0 {
        Seq::empty()
    } else {
        missing_in_att(task.drop_last(), ss) + if att_has(ss, task.last().resolved@) { Seq::empty() } else { seq![task.last().shown@] }
    }
}

/// The task has this sample input.
pub open spec fn task_has(task: Seq<SampleInput>, p: Seq<char>) -> bool {
    exists|i: int| 0 <= i < task.len() && (#[trigger] task[i]).resolved@ == p
}

/// The sample inputs of `att/` that the task does not have, shown as `show` gives them, in order.
pub open spec fn missing_in_task(ss: Seq<AttSample>, task: Seq<SampleInput>, shown: Seq<String>) -> Seq<Seq<char>>
    decreases ss.len(),
{
    if ss.len() == 0 || shown.len() != ss.len() {
        Seq::empty()
    } else {
        missing_in_task(ss.drop_last(), task, shown.drop_last()) + match ss.last().resolved {
            Some(r) => if ss.last().is_input && !task_has(task, r@) { seq![shown.last()@] } else { Seq::empty() },
            None => Seq::empty(),
        }
    }
}

/// The whole report on the sample files of `att/`: what is said of each, then, when the task has
/// sample inputs, the inputs missing in `att/` and the sample inputs of `att/` missing in the
/// task, and the warning when `att/` has no sample file at all.
pub open spec fn att_samples_report(ss: Seq<AttSample>, task: Seq<SampleInput>, shown: Seq<String>) -> Seq<DiagnosticView> {
    let in_att = missing_in_att(task, ss);
    let in_task = missing_in_task(ss, task, shown);
    sample_diags(ss) + (if task.len() > 0 && in_att.len() > 0 {
        seq![DiagnosticView {
            severity: Severity::Error,
            message: "Missing samples in att/"@,
            note: Some("Samples in the task, but not in att/: "@ + join_comma(in_att)),
            help: None,
        }]
    } else {
        Seq::empty()
    }) + (if task.len() > 0 && in_task.len() > 0 {
        seq![DiagnosticView {
            severity: Severity::Error,
            message: "Missing samples in the task"@,
            note: Some("Samples in att/, but not in the task: "@ + join_comma(in_task)),
            help: None,
        }]
    } else {
        Seq::empty()
    }) + (if ss.len() == 0 {
        seq![DiagnosticView { severity: Severity::Warning, message: "No sample file in att/"@, note: None, help: None }]
    } else {
        Seq::empty()
    })
}

/// The report on the sample files of `att/`, in the order they are listed, against the sample
/// inputs of the task; `shown` holds the path shown for each sample file of `att/` that resolves
/// somewhere.
pub fn check_att_samples(samples: &Vec<AttSample>, task: &Vec<SampleInput>, shown: &Vec<String>) -> (res: Vec<Diagnostic>)
    requires
        shown@.len() == samples@.len(),
    ensures
        diag_views(res@) == att_samples_report(samples@, task@, shown@),
{
    let mut res: Vec<Diagnostic> = Vec::new();
    let mut i: usize = 0;
    while i < samples.len()
        invariant
            i <= samples@.len(),
            diag_views(res@) == sample_diags(samples@.take(i as int)),
        decreases samples@.len() - i,
    {
        proof {
            assert(samples@.take(i + 1).drop_last() =~= samples@.take(i as int));
        }
        let s = &samples[i];
        let ghost before = res@;
        match &s.link {
            Some(target) => {
                if s.broken {
                    let mut m = "Sample case ".to_owned();
                    push_str(&mut m, s.path.as_str());
                    push_str(&mut m, " is a broken link");
                    let mut n = "It points to ".to_owned();
                    push_str(&mut n, target.as_str());
                    res.push(Diagnostic { severity: Severity::Error, message: m, note: Some(n), help: None });
                }
            },
            None => {
                let mut m = "Sample case ".to_owned();
                push_str(&mut m, s.path.as_str());
                push_str(&mut m, " is not a symlink");
                let h = "Move this file in the statement folder and symlink it here. This way the sample file can be included in the compiled statement.".to_owned();
                res.push(Diagnostic { severity: Severity::Warning, message: m, note: None, help: Some(h) });
            },
        }
        proof {
            assert(diag_views(res@) =~= sample_diags(samples@.take(i + 1)));
        }
        i += 1;
    }
    proof {
        assert(samples@.take(samples@.len() as int) =~= samples@);
    }
    // the inputs of the task missing in att/
    let mut in_att: Vec<String> = Vec::new();
    let mut t: usize = 0;
    while t < task.len()
        invariant
            t <= task@.len(),
            views(in_att@) == missing_in_att(task@.take(t as int), samples@),
        decreases task@.len() - t,
    {
        proof {
            assert(task@.take(t + 1).drop_last() =~= task@.take(t as int));
        }
        let r = &task[t].resolved;
        let mut found = false;
        let mut j: usize = 0;
        while j < samples.len()
            invariant
                j <= samples@.len(),
                found == exists|k: int| 0 <= k < j && samples@[k].is_input && ((#[trigger] samples@[k]).resolved matches Some(x) && x@ == r@),
            decreases samples@.len() - j,
        {
            match &samples[j].resolved {
                Some(x) => {
                    if samples[j].is_input && crate::text::str_eq(x.as_str(), r.as_str()) {
                        found = true;
                    }
                },
                None => {},
            }
            j += 1;
        }
        if !found {
            in_att.push(task[t].shown.clone());
        }
        proof {
            assert(views(in_att@) =~= missing_in_att(task@.take(t + 1), samples@));
        }
        t += 1;
    }
    proof {
        assert(task@.take(task@.len() as int) =~= task@);
    }
    // the sample inputs of att/ missing in the task
    let mut in_task: Vec<String> = Vec::new();
    let mut k: usize = 0;
    while k < samples.len()
        invariant
            k <= samples@.len(),
            shown@.len() == samples@.len(),
            views(in_task@) == missing_in_task(samples@.take(k as int), task@, shown@.take(k as int)),
        decreases samples@.len() - k,
    {
        proof {
            assert(samples@.take(k + 1).drop_last() =~= samples@.take(k as int));
            assert(shown@.take(k + 1).drop_last() =~= shown@.take(k as int));
        }
        match &samples[k].resolved {
            Some(r) => {
                if samples[k].is_input {
                    let mut present = false;
                    let mut j: usize = 0;
                    while j < task.len()
                        invariant
                            j <= task@.len(),
                            present == exists|q: int| 0 <= q < j && (#[trigger] task@[q]).resolved@ == r@,
                        decreases task@.len() - j,
                    {
                        if crate::text::str_eq(task[j].resolved.as_str(), r.as_str()) {
                            present = true;
                        }
                        j += 1;
                    }
                    if !present {
                        in_task.push(shown[k].clone());
                    }
                }
            },
            None => {},
        }
        proof {
            assert(views(in_task@) =~= missing_in_task(samples@.take(k + 1), task@, shown@.take(k + 1)));
        }
        k += 1;
    }
    proof {
        assert(samples@.take(samples@.len() as int) =~= samples@);
        assert(shown@.take(shown@.len() as int) =~= shown@);
    }
    let ghost d0 = res@;
    if task.len() > 0 && in_att.len() > 0 {
        let mut n = "Samples in the task, but not in att/: ".to_owned();
        let joined = join_paths(&in_att);
        push_str(&mut n, joined.as_str());
        res.push(Diagnostic { severity: Severity::Error, message: "Missing samples in att/".to_owned(), note: Some(n), help: None });
    }
    let ghost d1 = res@;
    if task.len() > 0 && in_task.len() > 0 {
        let mut n = "Samples in att/, but not in the task: ".to_owned();
        let joined = join_paths(&in_task);
        push_str(&mut n, joined.as_str());
        res.push(Diagnostic { severity: Severity::Error, message: "Missing samples in the task".to_owned(), note: Some(n), help: None });
    }
    let ghost d2 = res@;
    if samples.len() == 0 {
        res.push(Diagnostic { severity: Severity::Warning, message: "No sample file in att/".to_owned(), note: None, help: None });
    }
    proof {
        assert(diag_views(res@) =~= att_samples_report(samples@, task@, shown@));
    }
    res
}

/// The sample inputs of a task are the static input files of its first subtask, unless one of
/// its inputs is generated: the inputs given are those of the testcases of the first subtask.
pub open spec fn static_paths(gs: Seq<InputGenerator>) -> Option<Seq<Seq<char>>>
    decreases gs.len(),
{
    if gs.len() == 0 {
        Some(Seq::empty())
    } else {
        match (static_paths(gs.drop_last()), gs.last()) {
            (Some(ps), InputGenerator::StaticFile(p)) => Some(ps.push(p@)),
            _ => None,
        }
    }
}

/// The paths of the sample inputs of a task, from the inputs of the testcases of its first
/// subtask: none when one of them is generated.
pub fn sample_inputs_of_task(inputs: &Vec<InputGenerator>) -> (res: Vec<String>)
    ensures
        static_paths(inputs@) matches Some(ps) ==> views(res@) == ps,
        static_paths(inputs@) is None ==> res@.len() == 0,
{
    let mut res: Vec<String> = Vec::new();
    let mut i: usize = 0;
    while i < inputs.len()
        invariant
            i <= inputs@.len(),
            static_paths(inputs@.take(i as int)) matches Some(ps) && views(res@) == ps,
        decreases inputs@.len() - i,
    {
        proof {
            assert(inputs@.take(i + 1).drop_last() =~= inputs@.take(i as int));
        }
        match &inputs[i] {
            InputGenerator::StaticFile(p) => {
                res.push(p.clone());
                proof {
                    assert(views(res@) =~= static_paths(inputs@.take(i + 1))->0);
                }
            },
            InputGenerator::Custom(_, _) => {
                proof {
                    lemma_static_paths_none(inputs@, i + 1);
                    assert(inputs@.take(inputs@.len() as int) =~= inputs@);
                }
                return Vec::new();
            },
        }
        i += 1;
    }
    proof {
        assert(inputs@.take(inputs@.len() as int) =~= inputs@);
    }
    res
}

/// Once a prefix of the inputs has a generated one, so do the longer prefixes.
pub proof fn lemma_static_paths_none(gs: Seq<InputGenerator>, n: int)
    requires
        0 <= n <= gs.len(),
        static_paths(gs.take(n)) is None,
    ensures
        static_paths(gs) is None,
    decreases gs.len() - n,
{
    if n < gs.len() {
        assert(gs.take(n + 1).drop_last() =~= gs.take(n));
        lemma_static_paths_none(gs, n + 1);
    } else {
        assert(gs.take(n) =~= gs);
    }
}

/// `w` occurs in `s`.
pub open spec fn has_infix(s: Seq<char>, w: Seq<char>) -> bool {
    exists|i: int| 0 <= i && i + w.len() <= s.len() && #[trigger] s.subrange(i, i + w.len()) == w
}

/// Whether `w` occurs in `s`.
fn contains_text(s: &str, w: &str) -> (res: bool)
    ensures
        res == has_infix(s@, w@),
{
    let cs = crate::lexing::to_chars(s);
    let ws = crate::lexing::to_chars(w);
    let n = cs.len();
    let m = ws.len();
    if m > n {
        proof {
            assert forall|i: int| 0 <= i && i + w@.len() <= s@.len() implies #[trigger] s@.subrange(i, i + w@.len()) != w@ by {}
        }
        return false;
    }
    let mut i: usize = 0;
    while i <= n - m
        invariant
            cs@ == s@,
            ws@ == w@,
            n == s@.len(),
            m == w@.len(),
            m <= n,
            i <= n - m + 1,
            forall|a: int| 0 <= a < i ==> #[trigger] s@.subrange(a, a + m) != w@,
        decreases n - i,
    {
        let mut j: usize = 0;
        while j < m && cs[i + j] == ws[j]
            invariant
                cs@ == s@,
                ws@ == w@,
                n == s@.len(),
                m == w@.len(),
                i + m <= n,
                j <= m,
                forall|b: int| 0 <= b < j ==> s@[i + b] == w@[b],
            decreases m - j,
        {
            j += 1;
        }
        if j == m {
            proof {
                assert(s@.subrange(i as int, i + m) =~= w@);
            }
            return true;
        }
        proof {
            assert(s@.subrange(i as int, i + m)[j as int] != w@[j as int]);
        }
        i += 1;
    }
    proof {
        assert forall|a: int| 0 <= a && a + w@.len() <= s@.len() implies #[trigger] s@.subrange(a, a + w@.len()) != w@ by {
            assert(a < i);
        }
    }
    false
}

/// Whether the name of the file a sample file resolves to tells an input: it holds `input`.
pub fn is_input_name(name: &str) -> (res: bool)
    ensures
        res == has_infix(name@, "input"@),
{
    contains_text(name, "input")
}

/// The name of a file of `att/` that is a sample file: it ends with `.txt` and holds `input` or
/// `output`.
pub open spec fn sample_file_name(name: Seq<char>) -> bool {
    &&& crate::samples::ends_with(name, ".txt"@)
    &&& (has_infix(name, "input"@) || has_infix(name, "output"@))
}

/// Whether the name of a file of `att/` is that of a sample file.
pub fn is_sample_file_name(name: &str) -> (res: bool)
    ensures
        res == sample_file_name(name@),
{
    let cs = crate::lexing::to_chars(name);
    let n = cs.len();
    let suffix = n >= 4 && cs[n - 4] == '.' && cs[n - 3] == 't' && cs[n - 2] == 'x' && cs[n - 1] == 't';
    proof {
        reveal_strlit(".txt");
        if n >= 4 {
            assert(suffix ==> name@.skip(n - 4) =~= ".txt"@);
            assert(name@.skip(n - 4) =~= ".txt"@ ==> suffix) by {
                if name@.skip(n - 4) =~= ".txt"@ {
                    assert(name@.skip(n - 4)[0] == '.');
                    assert(name@.skip(n - 4)[1] == 't');
                    assert(name@.skip(n - 4)[2] == 'x');
                    assert(name@.skip(n - 4)[3] == 't');
                }
            }
        }
    }
    suffix && (contains_text(name, "input") || contains_text(name, "output"))
}

/// The resolved paths of the inputs.
pub open spec fn resolved_views(v: Seq<SampleInput>) -> Seq<Seq<char>> {
    v.map_values(|x: SampleInput| x.resolved@)
}

/// The input at `j` is the first resolved to `r`.
pub open spec fn first_resolved_at(task: Seq<SampleInput>, r: Seq<char>, j: int) -> bool {
    &&& 0 <= j < task.len()
    &&& task[j].resolved@ == r
    &&& forall|j2: int| 0 <= j2 < j ==> task[j2].resolved@ != r
}

/// `x` is the first input of the task resolved to its file, with what is shown of it.
pub open spec fn kept_first(task: Seq<SampleInput>, x: SampleInput) -> bool {
    exists|q: int| #[trigger] first_resolved_at(task, x.resolved@, q) && task[q].shown@ == x.shown@
}

/// The inputs of the task, with no two resolved to the same file, in the order of their resolved
/// paths; each keeps what is shown of the first input resolved to its file.
pub fn unique_sample_inputs(task: &Vec<SampleInput>) -> (res: Vec<SampleInput>)
    ensures
        crate::text_order::strictly_sorted(resolved_views(res@)),
        forall|r: Seq<char>| #[trigger] resolved_views(res@).contains(r)
            <==> resolved_views(task@).contains(r),
        forall|a: int| 0 <= a < res@.len() ==> kept_first(task@, #[trigger] res@[a]),
{
    let ghost tv = resolved_views(task@);
    let mut resolved: Vec<String> = Vec::new();
    let mut k: usize = 0;
    while k < task.len()
        invariant
            k <= task@.len(),
            tv == resolved_views(task@),
            views(resolved@) == tv.take(k as int),
        decreases task@.len() - k,
    {
        let r = task[k].resolved.clone();
        let ghost before = resolved@;
        resolved.push(r);
        proof {
            assert(views(resolved@) =~= views(before).push(r@));
            assert(tv.take(k + 1) =~= tv.take(k as int).push(r@));
        }
        k += 1;
    }
    proof { assert(tv.take(k as int) =~= tv); }
    let sorted = crate::text_order::sort_unique(&resolved);
    let mut res: Vec<SampleInput> = Vec::new();
    let ghost mut firsts: Seq<int> = Seq::empty();
    let mut i: usize = 0;
    while i < sorted.len()
        invariant
            i <= sorted@.len(),
            tv == resolved_views(task@),
            views(resolved@) == tv,
            crate::text_order::strictly_sorted(views(sorted@)),
            forall|x: Seq<char>| views(sorted@).contains(x) <==> views(resolved@).contains(x),
            resolved_views(res@) == views(sorted@).take(i as int),
            res@.len() == i,
            firsts.len() == i,
            forall|a: int| 0 <= a < i ==> first_resolved_at(task@, res@[a].resolved@, #[trigger] firsts[a])
                && task@[firsts[a]].shown@ == res@[a].shown@,
        decreases sorted@.len() - i,
    {
        let r = &sorted[i];
        proof {
            assert(views(sorted@)[i as int] == r@);
            assert(views(sorted@).contains(r@));
            assert(tv.contains(r@));
        }
        let mut j: usize = 0;
        while j < task.len() && !crate::text::str_eq(task[j].resolved.as_str(), r.as_str())
            invariant
                j <= task@.len(),
                tv == resolved_views(task@),
                tv.contains(r@),
                forall|j2: int| 0 <= j2 < j ==> task@[j2].resolved@ != r@,
            decreases task@.len() - j,
        {
            j += 1;
        }
        proof {
            if j == task.len() {
                let q = choose|q: int| 0 <= q < tv.len() && tv[q] == r@;
                assert(task@[q].resolved@ == r@);
            }
        }
        let rr = r.clone();
        let sh = task[j].shown.clone();
        proof {
            assert(rr@ == r@);
            assert(sh@ == task@[j as int].shown@);
        }
        let item = SampleInput { resolved: rr, shown: sh };
        let ghost before = res@;
        res.push(item);
        proof {
            firsts = firsts.push(j as int);
            assert(res@[i as int] == item);
            assert(resolved_views(res@) =~= resolved_views(before).push(r@));
            assert(views(sorted@).take(i + 1) =~= views(sorted@).take(i as int).push(r@));
            assert forall|a: int| 0 <= a < i + 1 implies first_resolved_at(task@, res@[a].resolved@, #[trigger] firsts[a])
                && task@[firsts[a]].shown@ == res@[a].shown@ by {
                if a < i {
                    assert(res@[a] == before[a]);
                }
            }
        }
        i += 1;
    }
    proof {
        assert(views(sorted@).take(i as int) =~= views(sorted@));
        assert forall|a: int| 0 <= a < res@.len() implies kept_first(task@, #[trigger] res@[a]) by {
            assert(first_resolved_at(task@, res@[a].resolved@, firsts[a]));
        }
    }
    res
}

} // verus!
