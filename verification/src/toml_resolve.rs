//! Resolution of a `gen/gen.toml` description into the testcases and subtasks of the task.
//!
//! Testcases are numbered in order: first the samples, then the testcases of each group and of
//! each subtask in the order in which they are written (for each, its copied files first, then its
//! generated testcases with their repetitions written out). A testcase belongs to the group that
//! defines it and, when it says so, to one more group. A subtask has the testcases of every group
//! reachable from it through the inclusions (`*` standing for all groups), and owns those that no
//! earlier subtask has.

use vstd::prelude::*;

use crate::gen_toml::{
    candidates_for, choose_source, instantiate_args, ArgError, SourceError,
    binding_views, candidates_of, expand_repeats, expand_testcases, source_issue, testcase_views,
    ArgIssue, ConstValue, ConstView, GenConfig, GroupConfig, SourceIssue, SubtaskConfig,
    TestCase, TestCaseView,
};
use crate::ioi::{CommandView, InputGenerator, InputValidator, OutputGenerator, SourceFile, TM_VALIDATION_FILE_NAME};
use crate::text::{decimal, push_str, str_eq, u64_to_string};
use crate::subtask_name::InvalidName;
use crate::words::string_views;

verus! {

/// The groups processed in order: the groups of testcases, then the groups of the subtasks, each
/// with its name.
pub open spec fn jobs(cfg: GenConfig) -> Seq<(Seq<char>, GroupConfig)> {
    cfg.group@.map_values(|p: (String, GroupConfig)| (p.0@, p.1))
        + cfg.subtask@.map_values(|p: (String, SubtaskConfig)| (p.0@, p.1.group))
}

/// Where the input of a planned testcase comes from.
pub enum SourceView {
    /// A static file.
    Static(Seq<char>),
    /// A generated testcase: the testcase, the name of its generator and the constants its
    /// arguments may use.
    Generated { testcase: TestCaseView, generator: Seq<char>, bindings: Seq<(Seq<char>, ConstView)> },
}

/// A planned testcase: the group defining it, its position among the generated testcases of that
/// group, and where its input comes from.
pub struct PlanView {
    pub group: Seq<char>,
    pub index: nat,
    pub source: SourceView,
}

/// The other group a planned testcase belongs to, if any.
pub open spec fn plan_extra(e: PlanView) -> Option<Seq<char>> {
    match e.source {
        SourceView::Generated { testcase, .. } => testcase.group_name,
        SourceView::Static(_) => None,
    }
}

/// The generator of the testcases of a group that do not name their own.
pub open spec fn group_generator(cfg: GenConfig, g: GroupConfig) -> Seq<char> {
    match g.generator {
        Some(x) => x@,
        None => cfg.generator@,
    }
}

/// The constants usable by the testcases of a group: the global ones, then those of the group.
pub open spec fn group_bindings(cfg: GenConfig, g: GroupConfig) -> Seq<(Seq<char>, ConstView)> {
    binding_views(cfg.constants@) + binding_views(g.local_constants@)
}

/// The generated testcase at position `k` of a group.
pub open spec fn generated_plan(cfg: GenConfig, name: Seq<char>, g: GroupConfig, k: int) -> PlanView {
    let t = expand_repeats(testcase_views(g.testcases@), g.repeat)[k];
    PlanView {
        group: name,
        index: k as nat,
        source: SourceView::Generated {
            testcase: t,
            generator: match t.generator {
                Some(x) => x,
                None => group_generator(cfg, g),
            },
            bindings: group_bindings(cfg, g),
        },
    }
}

/// The planned testcases of a group: its copied files, then its generated testcases.
pub open spec fn job_plans(cfg: GenConfig, name: Seq<char>, g: GroupConfig) -> Seq<PlanView> {
    Seq::new(g.copy@.len(), |k: int| PlanView { group: name, index: k as nat, source: SourceView::Static(g.copy@[k]@) })
        + Seq::new(
            expand_repeats(testcase_views(g.testcases@), g.repeat).len(),
            |k: int| generated_plan(cfg, name, g, k),
        )
}

/// The planned sample testcases.
pub open spec fn sample_plans(cfg: GenConfig, task_name: Seq<char>) -> Seq<PlanView> {
    Seq::new(
        cfg.samples.num_spec() as nat,
        |i: int| PlanView {
            group: cfg.samples.group_name_spec(),
            index: i as nat,
            source: SourceView::Static(cfg.samples.path_spec(task_name, i as nat)),
        },
    )
}

/// The planned testcases of some groups, group by group.
pub open spec fn job_plan_lists(cfg: GenConfig, js: Seq<(Seq<char>, GroupConfig)>) -> Seq<Seq<PlanView>> {
    js.map_values(|j: (Seq<char>, GroupConfig)| job_plans(cfg, j.0, j.1))
}

/// All the planned testcases, in the order of their ids.
pub open spec fn plans(cfg: GenConfig, task_name: Seq<char>) -> Seq<PlanView> {
    sample_plans(cfg, task_name) + job_plan_lists(cfg, jobs(cfg)).flatten()
}

/// How the testcases are laid out in groups: the group of the samples, the processed groups and
/// the planned testcases.
pub struct Layout {
    pub samples: Seq<char>,
    pub jobs: Seq<(Seq<char>, GroupConfig)>,
    pub plans: Seq<PlanView>,
}

/// The layout of a configuration.
pub open spec fn layout(cfg: GenConfig, task_name: Seq<char>) -> Layout {
    Layout { samples: cfg.samples.group_name_spec(), jobs: jobs(cfg), plans: plans(cfg, task_name) }
}

/// Some processed group has the name `x`.
pub open spec fn job_named(js: Seq<(Seq<char>, GroupConfig)>, x: Seq<char>) -> bool {
    exists|j: int| 0 <= j < js.len() && (#[trigger] js[j]).0 == x
}

/// Some planned testcase names `x` as its other group.
pub open spec fn extra_named(es: Seq<PlanView>, x: Seq<char>) -> bool {
    exists|i: int| 0 <= i < es.len() && plan_extra(#[trigger] es[i]) == Some(x)
}

/// `x` is a group with a list of testcases: the samples, a processed group, or the other group
/// of a testcase.
pub open spec fn known_group(l: Layout, x: Seq<char>) -> bool {
    x == l.samples || job_named(l.jobs, x) || extra_named(l.plans, x)
}

/// `x` is a group with a list of inclusions: the samples or a processed group.
pub open spec fn declared_group(l: Layout, x: Seq<char>) -> bool {
    x == l.samples || job_named(l.jobs, x)
}

/// The groups included by the group `x`: those of every processed group named `x`, in order.
pub open spec fn inclusions_of(js: Seq<(Seq<char>, GroupConfig)>, x: Seq<char>) -> Seq<Seq<char>>
    decreases js.len(),
{
    if js.len() == 0 {
        Seq::empty()
    } else if js.last().0 == x {
        inclusions_of(js.drop_last(), x) + string_views(js.last().1.inclusions@)
    } else {
        inclusions_of(js.drop_last(), x)
    }
}

/// How many times the testcase `e` is in the list of the group `x`: once for the group defining
/// it and once more for its other group.
pub open spec fn in_group_count(e: PlanView, x: Seq<char>) -> nat {
    (if e.group == x { 1nat } else { 0nat }) + (if plan_extra(e) == Some(x) { 1nat } else { 0nat })
}

/// The list of testcases of the group `x`, in the order of their ids.
pub open spec fn members(es: Seq<PlanView>, x: Seq<char>) -> Seq<u32>
    decreases es.len(),
{
    if es.len() == 0 {
        Seq::empty()
    } else {
        members(es.drop_last(), x) + Seq::new(in_group_count(es.last(), x), |k: int| (es.len() - 1) as u32)
    }
}

/// The name that includes every group.
pub open spec fn wildcard() -> Seq<char> {
    "*"@
}

/// The group `y` is included by the group `x`.
pub open spec fn edge(l: Layout, x: Seq<char>, y: Seq<char>) -> bool {
    if x == wildcard() {
        known_group(l, y)
    } else {
        inclusions_of(l.jobs, x).contains(y)
    }
}

/// `p` is a chain of inclusions.
pub open spec fn is_path(l: Layout, p: Seq<Seq<char>>) -> bool {
    p.len() >= 1 && forall|i: int| 0 <= i < p.len() - 1 ==> edge(l, #[trigger] p[i], p[i + 1])
}

/// The group `to` is reached from the group `from` through inclusions.
pub open spec fn reachable(l: Layout, from: Seq<char>, to: Seq<char>) -> bool {
    exists|p: Seq<Seq<char>>| is_path(l, p) && p[0] == from && p.last() == to
}

/// The binding of `#` to the id of a testcase.
pub open spec fn id_binding(id: nat) -> (Seq<char>, ConstView) {
    ("#"@, ConstView::Text(decimal(id)))
}

} // verus!

verus! {

/// Where the input of a planned testcase comes from.
#[derive(Debug)]
pub enum PlanSource {
    /// A static file.
    Static(String),
    /// A generated testcase, with the name of its generator and the constants its arguments may
    /// use.
    Generated { testcase: TestCase, generator: String, bindings: Vec<(String, ConstValue)> },
}

/// A planned testcase: the group defining it, its position among the generated testcases of that
/// group, and where its input comes from.
#[derive(Debug)]
pub struct TestcasePlan {
    /// The group defining the testcase.
    pub group: String,
    /// The position of the testcase among the generated testcases of its group.
    pub index: usize,
    /// Where its input comes from.
    pub source: PlanSource,
}

impl View for TestcasePlan {
    type V = PlanView;

    open spec fn view(&self) -> PlanView {
        PlanView {
            group: self.group@,
            index: self.index as nat,
            source: match self.source {
                PlanSource::Static(p) => SourceView::Static(p@),
                PlanSource::Generated { testcase, generator, bindings } => SourceView::Generated {
                    testcase: testcase@,
                    generator: generator@,
                    bindings: binding_views(bindings@),
                },
            },
        }
    }
}

/// The views of some planned testcases.
pub open spec fn plan_views(v: Seq<TestcasePlan>) -> Seq<PlanView> {
    v.map_values(|p: TestcasePlan| p@)
}

/// A copy of some bindings of constants.
fn copy_bindings(v: &Vec<(String, ConstValue)>) -> (res: Vec<(String, ConstValue)>)
    ensures
        res@ == v@,
{
    let mut c: Vec<(String, ConstValue)> = Vec::new();
    let mut k: usize = 0;
    while k < v.len()
        invariant
            k <= v@.len(),
            c@ == v@.take(k as int),
        decreases v@.len() - k,
    {
        c.push((v[k].0.clone(), v[k].1.copy()));
        proof { assert(c@ =~= v@.take(k + 1)); }
        k += 1;
    }
    proof { assert(c@ =~= v@); }
    c
}

/// The flattening of a sequence is at least as long as any of its parts.
proof fn lemma_flatten_len_ge<A>(s: Seq<Seq<A>>, j: int)
    requires
        0 <= j < s.len(),
    ensures
        s.flatten().len() >= s[j].len(),
{
    crate::text::lemma_flatten_take_succ(s, j);
    crate::text::lemma_flatten_take_prefix(s, j + 1);
}

/// Appends the planned testcases of a group.
fn append_job_plans(cfg: &GenConfig, name: &String, g: &GroupConfig, out: &mut Vec<TestcasePlan>)
    requires
        expand_repeats(testcase_views(g.testcases@), g.repeat).len() <= usize::MAX,
    ensures
        plan_views(final(out)@) == plan_views(old(out)@) + job_plans(*cfg, name@, *g),
{
    let ghost base = plan_views(out@);
    let ghost jp = job_plans(*cfg, name@, *g);
    let ghost ncopy = g.copy@.len();
    let mut k: usize = 0;
    while k < g.copy.len()
        invariant
            plan_views(out@) == base + jp.take(k as int),
            jp == job_plans(*cfg, name@, *g),
            ncopy == g.copy@.len(),
            k <= ncopy,
        decreases ncopy - k,
    {
        let ghost before = plan_views(out@);
        out.push(TestcasePlan { group: name.clone(), index: k, source: PlanSource::Static(g.copy[k].clone()) });
        proof {
            assert(plan_views(out@) =~= before.push(jp[k as int]));
            assert(jp.take(k + 1) =~= jp.take(k as int).push(jp[k as int]));
        }
        k += 1;
    }
    let generator: String = match &g.generator {
        Some(x) => x.clone(),
        None => cfg.generator.clone(),
    };
    let mut bindings = copy_bindings(&cfg.constants);
    let local = copy_bindings(&g.local_constants);
    let mut m: usize = 0;
    while m < local.len()
        invariant
            bindings@ == cfg.constants@ + local@.take(m as int),
            m <= local@.len(),
        decreases local@.len() - m,
    {
        bindings.push((local[m].0.clone(), local[m].1.copy()));
        proof { assert(bindings@ =~= cfg.constants@ + local@.take(m + 1)); }
        m += 1;
    }
    proof {
        assert(local@.take(m as int) =~= local@);
        assert(binding_views(bindings@) =~= group_bindings(*cfg, *g));
    }
    let expanded = expand_testcases(&g.testcases, g.repeat);
    let mut i: usize = 0;
    while i < expanded.len()
        invariant
            plan_views(out@) == base + jp.take(ncopy + i),
            jp == job_plans(*cfg, name@, *g),
            ncopy == g.copy@.len(),
            testcase_views(expanded@) == expand_repeats(testcase_views(g.testcases@), g.repeat),
            binding_views(bindings@) == group_bindings(*cfg, *g),
            generator@ == group_generator(*cfg, *g),
            i <= expanded@.len(),
        decreases expanded@.len() - i,
    {
        let t = expanded[i].copy();
        let gen_name: String = match t.generator() {
            Some(x) => x.to_owned(),
            None => generator.clone(),
        };
        let ghost before = plan_views(out@);
        proof { assert(expanded@[i as int]@ == testcase_views(expanded@)[i as int]); }
        out.push(TestcasePlan {
            group: name.clone(),
            index: i,
            source: PlanSource::Generated { testcase: t, generator: gen_name, bindings: copy_bindings(&bindings) },
        });
        proof {
            assert(jp[ncopy + i] == generated_plan(*cfg, name@, *g, i as int));
            assert(plan_views(out@) =~= before.push(jp[ncopy + i]));
            assert(jp.take(ncopy + i + 1) =~= jp.take(ncopy + i).push(jp[ncopy + i]));
        }
        i += 1;
    }
    proof { assert(jp.take(ncopy + i) =~= jp); }
}

/// The planned testcases of the configuration, in the order of their ids.
pub fn list_plans(cfg: &GenConfig, task_name: &str) -> (res: Vec<TestcasePlan>)
    requires
        plans(*cfg, task_name@).len() <= u32::MAX,
    ensures
        plan_views(res@) == plans(*cfg, task_name@),
{
    let ghost all = plans(*cfg, task_name@);
    let ghost sp = sample_plans(*cfg, task_name@);
    let ghost lists = job_plan_lists(*cfg, jobs(*cfg));
    let mut out: Vec<TestcasePlan> = Vec::new();
    let num = cfg.samples.num();
    let gname = cfg.samples.group_name();
    let mut i: usize = 0;
    proof { assert(plan_views(out@) =~= sp.take(0)); }
    while i < num
        invariant
            num == cfg.samples.num_spec(),
            gname@ == cfg.samples.group_name_spec(),
            sp == sample_plans(*cfg, task_name@),
            i <= num,
            plan_views(out@) == sp.take(i as int),
        decreases num - i,
    {
        let ghost before = plan_views(out@);
        let path = cfg.samples.path(task_name, i);
        out.push(TestcasePlan { group: gname.to_owned(), index: i, source: PlanSource::Static(path) });
        proof {
            assert(plan_views(out@) =~= before.push(sp[i as int]));
            assert(sp.take(i + 1) =~= sp.take(i as int).push(sp[i as int]));
        }
        i += 1;
    }
    proof {
        assert(sp.take(num as int) =~= sp);
        assert(lists.take(0).flatten() =~= Seq::<PlanView>::empty());
        assert(plan_views(out@) =~= sp + lists.take(0).flatten());
    }
    let ng = cfg.group.len();
    let mut j: usize = 0;
    while j < ng
        invariant
            ng == cfg.group@.len(),
            lists == job_plan_lists(*cfg, jobs(*cfg)),
            sp == sample_plans(*cfg, task_name@),
            all == plans(*cfg, task_name@),
            all == sp + lists.flatten(),
            all.len() <= u32::MAX,
            j <= ng,
            plan_views(out@) == sp + lists.take(j as int).flatten(),
        decreases ng - j,
    {
        let name = &cfg.group[j].0;
        let g = &cfg.group[j].1;
        proof {
            assert(jobs(*cfg)[j as int] == (name@, *g));
            lemma_flatten_len_ge(lists, j as int);
            assert(lists[j as int] == job_plans(*cfg, name@, *g));
            crate::text::lemma_flatten_take_succ(lists, j as int);
        }
        append_job_plans(cfg, name, g, &mut out);
        proof {
            assert(plan_views(out@) =~= sp + lists.take(j + 1).flatten());
        }
        j += 1;
    }
    let ns = cfg.subtask.len();
    let mut k: usize = 0;
    while k < ns
        invariant
            ng == cfg.group@.len(),
            ns == cfg.subtask@.len(),
            lists == job_plan_lists(*cfg, jobs(*cfg)),
            lists.len() == ng + ns,
            sp == sample_plans(*cfg, task_name@),
            all == plans(*cfg, task_name@),
            all == sp + lists.flatten(),
            all.len() <= u32::MAX,
            k <= ns,
            plan_views(out@) == sp + lists.take(ng + k).flatten(),
        decreases ns - k,
    {
        let name = &cfg.subtask[k].0;
        let g = &cfg.subtask[k].1.group;
        let ghost j = ng + k;
        proof {
            assert(jobs(*cfg)[j] == (name@, *g));
            lemma_flatten_len_ge(lists, j);
            assert(lists[j] == job_plans(*cfg, name@, *g));
            crate::text::lemma_flatten_take_succ(lists, j);
        }
        append_job_plans(cfg, name, g, &mut out);
        proof {
            assert(plan_views(out@) =~= sp + lists.take(j + 1).flatten());
        }
        k += 1;
    }
    proof { assert(lists.take(ng + ns) =~= lists); }
    out
}

} // verus!

verus! {

/// An element of a flattening comes from one of the parts.
proof fn lemma_flatten_member<A>(s: Seq<Seq<A>>, i: int)
    requires
        0 <= i < s.flatten().len(),
    ensures
        exists|j: int, k: int| 0 <= j < s.len() && 0 <= k < s[j].len() && s[j][k] == s.flatten()[i],
    decreases s.len(),
{
    if s.len() == 0 {
    } else if i < s[0].len() {
        assert(s.flatten() == s.first() + s.drop_first().flatten());
        assert(s[0][i] == s.flatten()[i]);
    } else {
        assert(s.flatten() == s.first() + s.drop_first().flatten());
        lemma_flatten_member(s.drop_first(), i - s[0].len());
        let (j, k) = choose|j: int, k: int| 0 <= j < s.drop_first().len() && 0 <= k < s.drop_first()[j].len()
            && s.drop_first()[j][k] == s.drop_first().flatten()[i - s[0].len()];
        assert(s[j + 1][k] == s.flatten()[i]);
    }
}

/// The group defining a planned testcase is a declared group.
proof fn lemma_plan_group_declared(cfg: GenConfig, task_name: Seq<char>, i: int)
    requires
        0 <= i < plans(cfg, task_name).len(),
    ensures
        declared_group(layout(cfg, task_name), plans(cfg, task_name)[i].group),
{
    let sp = sample_plans(cfg, task_name);
    let lists = job_plan_lists(cfg, jobs(cfg));
    let l = layout(cfg, task_name);
    if i >= sp.len() {
        lemma_flatten_member(lists, i - sp.len());
        let (j, k) = choose|j: int, k: int| 0 <= j < lists.len() && 0 <= k < lists[j].len()
            && lists[j][k] == lists.flatten()[i - sp.len()];
        assert(lists[j] == job_plans(cfg, jobs(cfg)[j].0, jobs(cfg)[j].1));
        assert(lists[j][k].group == jobs(cfg)[j].0);
        assert(job_named(l.jobs, jobs(cfg)[j].0));
    }
}

/// A group of testcases as the resolution keeps it: its name, the ids of its testcases, and, for a
/// declared group, the groups it includes.
#[derive(Debug)]
pub struct GroupEntry {
    /// The name of the group.
    pub name: String,
    /// The ids of the testcases of the group, in order.
    pub members: Vec<u32>,
    /// The groups included by the group, when it is declared.
    pub inclusions: Option<Vec<String>>,
}

/// The table holds each group of the layout once, with its testcases and its inclusions.
pub open spec fn table_ok(t: Seq<GroupEntry>, l: Layout) -> bool {
    &&& forall|i: int, j: int| 0 <= i < j < t.len() ==> (#[trigger] t[i]).name@ != (#[trigger] t[j]).name@
    &&& forall|x: Seq<char>| known_group(l, x) <==> exists|j: int| 0 <= j < t.len() && (#[trigger] t[j]).name@ == x
    &&& forall|j: int| 0 <= j < t.len() ==> (#[trigger] t[j]).members@ == members(l.plans, t[j].name@)
    &&& forall|j: int| 0 <= j < t.len() ==> ((#[trigger] t[j]).inclusions is Some <==> declared_group(l, t[j].name@))
    &&& forall|j: int| 0 <= j < t.len() ==> ((#[trigger] t[j]).inclusions matches Some(v)
        ==> string_views(v@) == inclusions_of(l.jobs, t[j].name@))
}

/// The position of the group `name` in the table, if it is there.
fn find_group(t: &Vec<GroupEntry>, name: &str) -> (res: Option<usize>)
    ensures
        match res {
            Some(j) => j < t@.len() && t@[j as int].name@ == name@,
            None => forall|j: int| 0 <= j < t@.len() ==> (#[trigger] t@[j]).name@ != name@,
        },
{
    let mut j: usize = 0;
    while j < t.len()
        invariant
            j <= t@.len(),
            forall|k: int| 0 <= k < j ==> (#[trigger] t@[k]).name@ != name@,
        decreases t@.len() - j,
    {
        if str_eq(t[j].name.as_str(), name) {
            return Some(j);
        }
        j += 1;
    }
    None
}

/// Registers a processed group: its name and its inclusions, after those of the groups with the
/// same name processed before.
fn register_job(t: &mut Vec<GroupEntry>, name: &String, inclusions: &Vec<String>, Ghost(l): Ghost<Layout>, Ghost(g): Ghost<GroupConfig>)
    requires
        table_ok(old(t)@, l),
        l.plans.len() == 0,
        g.inclusions == *inclusions,
    ensures
        table_ok(final(t)@, Layout { jobs: l.jobs.push((name@, g)), ..l }),
{
    let ghost l2 = Layout { jobs: l.jobs.push((name@, g)), ..l };
    proof {
        assert(l2.jobs.drop_last() =~= l.jobs);
        assert forall|x: Seq<char>| #[trigger] inclusions_of(l2.jobs, x)
            == inclusions_of(l.jobs, x) + (if x == name@ { string_views(inclusions@) } else { Seq::empty() }) by {
            if x != name@ {
                assert(inclusions_of(l.jobs, x) + Seq::<Seq<char>>::empty() =~= inclusions_of(l.jobs, x));
            }
        }
        assert forall|x: Seq<char>| job_named(l2.jobs, x) <==> (job_named(l.jobs, x) || x == name@) by {
            if job_named(l.jobs, x) {
                let j = choose|j: int| 0 <= j < l.jobs.len() && (#[trigger] l.jobs[j]).0 == x;
                assert(l2.jobs[j] == l.jobs[j]);
            }
            if x == name@ {
                assert(l2.jobs[l.jobs.len() as int].0 == x);
            }
            if job_named(l2.jobs, x) {
                let j = choose|j: int| 0 <= j < l2.jobs.len() && (#[trigger] l2.jobs[j]).0 == x;
                if j < l.jobs.len() {
                    assert(l.jobs[j] == l2.jobs[j]);
                }
            }
        }
        assert forall|x: Seq<char>| !extra_named(l.plans, x) by {}
    }
    match find_group(t, name.as_str()) {
        Some(j) => {
            let mut incl: Vec<String> = match &t[j].inclusions {
                Some(v) => crate::ioi::copy_strings(v),
                None => Vec::new(),
            };
            let ghost prev = incl@;
            let mut k: usize = 0;
            while k < inclusions.len()
                invariant
                    k <= inclusions@.len(),
                    incl@ == prev + inclusions@.take(k as int),
                decreases inclusions@.len() - k,
            {
                incl.push(inclusions[k].clone());
                proof { assert(incl@ =~= prev + inclusions@.take(k + 1)); }
                k += 1;
            }
            proof {
                assert(inclusions@.take(k as int) =~= inclusions@);
                assert(string_views(incl@) =~= string_views(prev) + string_views(inclusions@));
                assert(t@[j as int].inclusions is Some ==> string_views(prev) == inclusions_of(l.jobs, name@));
                assert(t@[j as int].inclusions is None ==> !declared_group(l, name@));
                assert(t@[j as int].inclusions is None ==> inclusions_of(l.jobs, name@) =~= Seq::<Seq<char>>::empty()) by {
                    if t@[j as int].inclusions is None {
                        lemma_inclusions_of_undeclared(l.jobs, name@);
                    }
                }
            }
            let ghost before = t@;
            let entry = GroupEntry {
                name: t[j].name.clone(),
                members: crate::toml_resolve::copy_ids(&t[j].members),
                inclusions: Some(incl),
            };
            t.set(j, entry);
            proof {
                assert forall|x: Seq<char>| known_group(l2, x) <==> exists|i: int| 0 <= i < t@.len() && (#[trigger] t@[i]).name@ == x by {
                    if known_group(l, x) {
                        let i = choose|i: int| 0 <= i < before.len() && (#[trigger] before[i]).name@ == x;
                        assert(t@[i].name@ == x);
                    }
                    if x == name@ {
                        assert(t@[j as int].name@ == x);
                    }
                    if exists|i: int| 0 <= i < t@.len() && (#[trigger] t@[i]).name@ == x {
                        let i = choose|i: int| 0 <= i < t@.len() && (#[trigger] t@[i]).name@ == x;
                        assert(before[i].name@ == x);
                    }
                }
                assert forall|a: int| 0 <= a < t@.len() implies ((#[trigger] t@[a]).inclusions matches Some(v)
                    ==> string_views(v@) == inclusions_of(l2.jobs, t@[a].name@)) by {
                    if a != j {
                        assert(t@[a] == before[a]);
                        if before[a].inclusions is None {
                            lemma_inclusions_of_undeclared(l.jobs, before[a].name@);
                        }
                        assert(inclusions_of(l2.jobs, t@[a].name@) == inclusions_of(l.jobs, before[a].name@) + Seq::<Seq<char>>::empty());
                        assert(inclusions_of(l.jobs, before[a].name@) + Seq::<Seq<char>>::empty() =~= inclusions_of(l.jobs, before[a].name@));
                    }
                }
                assert forall|a: int| 0 <= a < t@.len() implies ((#[trigger] t@[a]).inclusions is Some <==> declared_group(l2, t@[a].name@)) by {
                    if a != j {
                        assert(t@[a] == before[a]);
                    }
                }
                assert forall|a: int, b: int| 0 <= a < b < t@.len() implies (#[trigger] t@[a]).name@ != (#[trigger] t@[b]).name@ by {
                    assert(before[a].name@ == t@[a].name@);
                    assert(before[b].name@ == t@[b].name@);
                }
                assert forall|a: int| 0 <= a < t@.len() implies (#[trigger] t@[a]).members@ == members(l2.plans, t@[a].name@) by {
                    assert(before[a].members@ == t@[a].members@);
                }
            }
        },
        None => {
            let ghost before = t@;
            proof {
                assert(!job_named(l.jobs, name@)) by {
                    if job_named(l.jobs, name@) {
                        assert(known_group(l, name@));
                        let i = choose|i: int| 0 <= i < t@.len() && (#[trigger] t@[i]).name@ == name@;
                        assert(t@[i].name@ != name@);
                    }
                }
                lemma_inclusions_of_undeclared(l.jobs, name@);
                assert(inclusions_of(l.jobs, name@) =~= Seq::<Seq<char>>::empty());
                assert(string_views(inclusions@) =~= Seq::<Seq<char>>::empty() + string_views(inclusions@));
            }
            t.push(GroupEntry { name: name.clone(), members: Vec::new(), inclusions: Some(crate::ioi::copy_strings(inclusions)) });
            proof {
                assert(members(l.plans, name@) =~= Seq::<u32>::empty());
                assert forall|x: Seq<char>| known_group(l2, x) <==> exists|i: int| 0 <= i < t@.len() && (#[trigger] t@[i]).name@ == x by {
                    if known_group(l, x) {
                        let i = choose|i: int| 0 <= i < before.len() && (#[trigger] before[i]).name@ == x;
                        assert(t@[i].name@ == x);
                    }
                    if x == name@ {
                        assert(t@[before.len() as int].name@ == x);
                    }
                    if exists|i: int| 0 <= i < t@.len() && (#[trigger] t@[i]).name@ == x {
                        let i = choose|i: int| 0 <= i < t@.len() && (#[trigger] t@[i]).name@ == x;
                        if i < before.len() {
                            assert(before[i].name@ == x);
                        }
                    }
                }
                assert forall|a: int| 0 <= a < t@.len() implies ((#[trigger] t@[a]).inclusions matches Some(v)
                    ==> string_views(v@) == inclusions_of(l2.jobs, t@[a].name@)) by {
                    if a < before.len() {
                        assert(t@[a] == before[a]);
                        if before[a].inclusions is None {
                            lemma_inclusions_of_undeclared(l.jobs, before[a].name@);
                        }
                        assert(inclusions_of(l2.jobs, t@[a].name@) == inclusions_of(l.jobs, before[a].name@) + Seq::<Seq<char>>::empty());
                        assert(inclusions_of(l.jobs, before[a].name@) + Seq::<Seq<char>>::empty() =~= inclusions_of(l.jobs, before[a].name@));
                    }
                }
                assert forall|a: int| 0 <= a < t@.len() implies ((#[trigger] t@[a]).inclusions is Some <==> declared_group(l2, t@[a].name@)) by {
                    if a < before.len() {
                        assert(t@[a] == before[a]);
                    }
                }
                assert forall|a: int, b: int| 0 <= a < b < t@.len() implies (#[trigger] t@[a]).name@ != (#[trigger] t@[b]).name@ by {
                    if b < before.len() {
                        assert(before[a] == t@[a]);
                        assert(before[b] == t@[b]);
                    } else {
                        assert(before[a] == t@[a]);
                    }
                }
                assert forall|a: int| 0 <= a < t@.len() implies (#[trigger] t@[a]).members@ == members(l2.plans, t@[a].name@) by {
                    if a < before.len() {
                        assert(before[a] == t@[a]);
                    }
                }
            }
        },
    }
}

/// A group named by no processed group includes nothing.
proof fn lemma_inclusions_of_undeclared(js: Seq<(Seq<char>, GroupConfig)>, x: Seq<char>)
    requires
        !job_named(js, x),
    ensures
        inclusions_of(js, x) == Seq::<Seq<char>>::empty(),
    decreases js.len(),
{
    if js.len() > 0 {
        assert(js.last() == js[js.len() - 1]);
        assert(!job_named(js.drop_last(), x)) by {
            if job_named(js.drop_last(), x) {
                let j = choose|j: int| 0 <= j < js.drop_last().len() && (#[trigger] js.drop_last()[j]).0 == x;
                assert(js[j] == js.drop_last()[j]);
            }
        }
        lemma_inclusions_of_undeclared(js.drop_last(), x);
    }
}

/// A copy of a list of ids.
pub fn copy_ids(v: &Vec<u32>) -> (res: Vec<u32>)
    ensures
        res@ == v@,
{
    let mut c: Vec<u32> = Vec::new();
    let mut k: usize = 0;
    while k < v.len()
        invariant
            k <= v@.len(),
            c@ == v@.take(k as int),
        decreases v@.len() - k,
    {
        c.push(v[k]);
        proof { assert(c@ =~= v@.take(k + 1)); }
        k += 1;
    }
    proof { assert(c@ =~= v@); }
    c
}

} // verus!

verus! {

/// Adds a testcase to the group at position `j` of the table.
fn push_member(t: &mut Vec<GroupEntry>, j: usize, id: u32)
    requires
        j < old(t)@.len(),
    ensures
        final(t)@.len() == old(t)@.len(),
        forall|a: int| 0 <= a < final(t)@.len() && a != j ==> final(t)@[a] == old(t)@[a],
        final(t)@[j as int].name == old(t)@[j as int].name,
        final(t)@[j as int].inclusions == old(t)@[j as int].inclusions,
        final(t)@[j as int].members@ == old(t)@[j as int].members@.push(id),
{
    let mut e = t.remove(j);
    e.members.push(id);
    t.insert(j, e);
}

/// A group that no testcase is in has no testcases.
proof fn lemma_members_empty(es: Seq<PlanView>, x: Seq<char>)
    requires
        forall|i: int| 0 <= i < es.len() ==> in_group_count(#[trigger] es[i], x) == 0,
    ensures
        members(es, x) == Seq::<u32>::empty(),
    decreases es.len(),
{
    if es.len() > 0 {
        assert(in_group_count(es[es.len() - 1], x) == 0);
        assert forall|i: int| 0 <= i < es.drop_last().len() implies in_group_count(#[trigger] es.drop_last()[i], x) == 0 by {
            assert(es.drop_last()[i] == es[i]);
        }
        lemma_members_empty(es.drop_last(), x);
        assert(members(es, x) =~= Seq::<u32>::empty());
    }
}

/// Adds the planned testcase `id` to its groups: the one defining it and its other group.
fn add_plan(t: &mut Vec<GroupEntry>, plan: &TestcasePlan, id: u32, Ghost(l): Ghost<Layout>)
    requires
        table_ok(old(t)@, l),
        l.plans.len() == id,
        declared_group(l, plan@.group),
        forall|i: int| 0 <= i < l.plans.len() ==> declared_group(l, #[trigger] l.plans[i].group),
    ensures
        table_ok(final(t)@, Layout { plans: l.plans.push(plan@), ..l }),
{
    let ghost e = plan@;
    let ghost l2 = Layout { plans: l.plans.push(e), ..l };
    let ghost before = t@;
    proof {
        assert(l2.plans.drop_last() =~= l.plans);
        assert(l2.plans.last() == e);
        assert forall|x: Seq<char>| #[trigger] members(l2.plans, x)
            == members(l.plans, x) + Seq::new(in_group_count(e, x), |k: int| id) by {
            assert(Seq::new(in_group_count(e, x), |k: int| id) =~= Seq::new(in_group_count(l2.plans.last(), x), |k: int| (l2.plans.len() - 1) as u32));
        }
        assert forall|x: Seq<char>| extra_named(l2.plans, x) <==> (extra_named(l.plans, x) || plan_extra(e) == Some(x)) by {
            if extra_named(l.plans, x) {
                let i = choose|i: int| 0 <= i < l.plans.len() && plan_extra(#[trigger] l.plans[i]) == Some(x);
                assert(l2.plans[i] == l.plans[i]);
            }
            if plan_extra(e) == Some(x) {
                assert(l2.plans[l.plans.len() as int] == e);
            }
            if extra_named(l2.plans, x) {
                let i = choose|i: int| 0 <= i < l2.plans.len() && plan_extra(#[trigger] l2.plans[i]) == Some(x);
                if i < l.plans.len() {
                    assert(l.plans[i] == l2.plans[i]);
                }
            }
        }
        assert(known_group(l, e.group));
    }
    let g = match find_group(t, plan.group.as_str()) {
        Some(g) => g,
        None => {
            proof {
                let i = choose|i: int| 0 <= i < t@.len() && (#[trigger] t@[i]).name@ == e.group;
                assert(t@[i].name@ != e.group);
            }
            0
        },
    };
    push_member(t, g, id);
    let ghost mid = t@;
    let extra: Option<&str> = match &plan.source {
        PlanSource::Generated { testcase, .. } => testcase.group_name(),
        PlanSource::Static(_) => None,
    };
    proof {
        assert(match plan_extra(e) {
            Some(y) => extra matches Some(r) && r@ == y,
            None => extra is None,
        });
    }
    match extra {
        Some(y) => {
            match find_group(t, y) {
                Some(h) => {
                    push_member(t, h, id);
                    proof {
                        assert forall|a: int| 0 <= a < t@.len() implies (#[trigger] t@[a]).members@ == members(l2.plans, t@[a].name@) by {
                            let x = t@[a].name@;
                            assert(before[a].name@ == x);
                            if a == g && a == h {
                                assert(in_group_count(e, x) == 2);
                                assert(t@[a].members@ =~= before[a].members@ + Seq::new(2, |k: int| id));
                            } else if a == g {
                                assert(x != y@) by {
                                    assert(before[h as int].name@ == y@);
                                }
                                assert(in_group_count(e, x) == 1);
                                assert(t@[a].members@ =~= before[a].members@ + Seq::new(1, |k: int| id));
                            } else if a == h {
                                assert(x != e.group) by {
                                    assert(before[g as int].name@ == e.group);
                                }
                                assert(in_group_count(e, x) == 1);
                                assert(t@[a].members@ =~= before[a].members@ + Seq::new(1, |k: int| id));
                            } else {
                                assert(x != e.group) by {
                                    assert(before[g as int].name@ == e.group);
                                }
                                assert(x != y@) by {
                                    assert(before[h as int].name@ == y@);
                                }
                                assert(in_group_count(e, x) == 0);
                                assert(t@[a] == before[a]);
                                assert(t@[a].members@ =~= before[a].members@ + Seq::new(0, |k: int| id));
                            }
                        }
                        assert forall|x: Seq<char>| known_group(l2, x) <==> exists|i: int| 0 <= i < t@.len() && (#[trigger] t@[i]).name@ == x by {
                            if known_group(l, x) {
                                let i = choose|i: int| 0 <= i < before.len() && (#[trigger] before[i]).name@ == x;
                                assert(t@[i].name@ == x);
                            }
                            if plan_extra(e) == Some(x) {
                                assert(t@[h as int].name@ == x);
                            }
                            if exists|i: int| 0 <= i < t@.len() && (#[trigger] t@[i]).name@ == x {
                                let i = choose|i: int| 0 <= i < t@.len() && (#[trigger] t@[i]).name@ == x;
                                assert(before[i].name@ == x);
                            }
                        }
                        assert forall|a: int, b: int| 0 <= a < b < t@.len() implies (#[trigger] t@[a]).name@ != (#[trigger] t@[b]).name@ by {
                            assert(before[a].name@ == t@[a].name@);
                            assert(before[b].name@ == t@[b].name@);
                        }
                        assert forall|a: int| 0 <= a < t@.len() implies ((#[trigger] t@[a]).inclusions is Some <==> declared_group(l2, t@[a].name@)) by {
                            assert(before[a].name@ == t@[a].name@);
                            assert(before[a].inclusions == t@[a].inclusions);
                        }
                        assert forall|a: int| 0 <= a < t@.len() implies ((#[trigger] t@[a]).inclusions matches Some(v)
                            ==> string_views(v@) == inclusions_of(l2.jobs, t@[a].name@)) by {
                            assert(before[a].name@ == t@[a].name@);
                            assert(before[a].inclusions == t@[a].inclusions);
                        }
                    }
                },
                None => {
                    let mut m: Vec<u32> = Vec::new();
                    m.push(id);
                    t.push(GroupEntry { name: y.to_owned(), members: m, inclusions: None });
                    proof {
                        assert(!known_group(l, y@)) by {
                            if known_group(l, y@) {
                                let i = choose|i: int| 0 <= i < before.len() && (#[trigger] before[i]).name@ == y@;
                                assert(mid[i].name@ == y@);
                            }
                        }
                        assert(y@ != e.group);
                        assert forall|i: int| 0 <= i < l.plans.len() implies in_group_count(#[trigger] l.plans[i], y@) == 0 by {
                            if l.plans[i].group == y@ {
                                assert(declared_group(l, l.plans[i].group));
                            }
                            if plan_extra(l.plans[i]) == Some(y@) {
                                assert(extra_named(l.plans, y@));
                            }
                        }
                        lemma_members_empty(l.plans, y@);
                        assert forall|a: int| 0 <= a < t@.len() implies (#[trigger] t@[a]).members@ == members(l2.plans, t@[a].name@) by {
                            let x = t@[a].name@;
                            if a == before.len() {
                                assert(in_group_count(e, x) == 1);
                                assert(t@[a].members@ =~= members(l.plans, x) + Seq::new(1, |k: int| id));
                            } else {
                                assert(before[a].name@ == x);
                                assert(mid[a].name@ == x);
                                if a == g {
                                    assert(in_group_count(e, x) == 1);
                                    assert(t@[a].members@ =~= before[a].members@ + Seq::new(1, |k: int| id));
                                } else {
                                    assert(x != e.group) by {
                                        assert(before[g as int].name@ == e.group);
                                    }
                                    assert(x != y@);
                                    assert(in_group_count(e, x) == 0);
                                    assert(t@[a].members@ =~= before[a].members@ + Seq::new(0, |k: int| id));
                                }
                            }
                        }
                        assert forall|x: Seq<char>| known_group(l2, x) <==> exists|i: int| 0 <= i < t@.len() && (#[trigger] t@[i]).name@ == x by {
                            if known_group(l, x) {
                                let i = choose|i: int| 0 <= i < before.len() && (#[trigger] before[i]).name@ == x;
                                assert(mid[i].name@ == x);
                                assert(t@[i].name@ == x);
                            }
                            if plan_extra(e) == Some(x) {
                                assert(t@[before.len() as int].name@ == x);
                            }
                            if exists|i: int| 0 <= i < t@.len() && (#[trigger] t@[i]).name@ == x {
                                let i = choose|i: int| 0 <= i < t@.len() && (#[trigger] t@[i]).name@ == x;
                                if i < before.len() {
                                    assert(mid[i].name@ == x);
                                    assert(before[i].name@ == x);
                                }
                            }
                        }
                        assert forall|a: int, b: int| 0 <= a < b < t@.len() implies (#[trigger] t@[a]).name@ != (#[trigger] t@[b]).name@ by {
                            assert(mid[a] == t@[a]);
                            assert(before[a].name@ == t@[a].name@);
                            if b < before.len() {
                                assert(mid[b] == t@[b]);
                                assert(before[b].name@ == t@[b].name@);
                            }
                        }
                        assert forall|a: int| 0 <= a < t@.len() implies ((#[trigger] t@[a]).inclusions is Some <==> declared_group(l2, t@[a].name@)) by {
                            if a < before.len() {
                                assert(mid[a] == t@[a]);
                                assert(before[a].name@ == t@[a].name@);
                                assert(before[a].inclusions == t@[a].inclusions);
                            } else {
                                assert(!declared_group(l, y@));
                            }
                        }
                        assert forall|a: int| 0 <= a < t@.len() implies ((#[trigger] t@[a]).inclusions matches Some(v)
                            ==> string_views(v@) == inclusions_of(l2.jobs, t@[a].name@)) by {
                            if a < before.len() {
                                assert(mid[a] == t@[a]);
                                assert(before[a].name@ == t@[a].name@);
                                assert(before[a].inclusions == t@[a].inclusions);
                            }
                        }
                    }
                },
            }
        },
        None => {
            proof {
                assert forall|a: int| 0 <= a < t@.len() implies (#[trigger] t@[a]).members@ == members(l2.plans, t@[a].name@) by {
                    let x = t@[a].name@;
                    assert(before[a].name@ == x);
                    if a == g {
                        assert(in_group_count(e, x) == 1);
                        assert(t@[a].members@ =~= before[a].members@ + Seq::new(1, |k: int| id));
                    } else {
                        assert(x != e.group) by {
                            assert(before[g as int].name@ == e.group);
                        }
                        assert(in_group_count(e, x) == 0);
                        assert(t@[a].members@ =~= before[a].members@ + Seq::new(0, |k: int| id));
                    }
                }
                assert forall|x: Seq<char>| known_group(l2, x) <==> exists|i: int| 0 <= i < t@.len() && (#[trigger] t@[i]).name@ == x by {
                    if known_group(l, x) {
                        let i = choose|i: int| 0 <= i < before.len() && (#[trigger] before[i]).name@ == x;
                        assert(t@[i].name@ == x);
                    }
                    if exists|i: int| 0 <= i < t@.len() && (#[trigger] t@[i]).name@ == x {
                        let i = choose|i: int| 0 <= i < t@.len() && (#[trigger] t@[i]).name@ == x;
                        assert(before[i].name@ == x);
                    }
                }
                assert forall|a: int, b: int| 0 <= a < b < t@.len() implies (#[trigger] t@[a]).name@ != (#[trigger] t@[b]).name@ by {
                    assert(before[a].name@ == t@[a].name@);
                    assert(before[b].name@ == t@[b].name@);
                }
                assert forall|a: int| 0 <= a < t@.len() implies ((#[trigger] t@[a]).inclusions is Some <==> declared_group(l2, t@[a].name@)) by {
                    assert(before[a].name@ == t@[a].name@);
                    assert(before[a].inclusions == t@[a].inclusions);
                }
                assert forall|a: int| 0 <= a < t@.len() implies ((#[trigger] t@[a]).inclusions matches Some(v)
                    ==> string_views(v@) == inclusions_of(l2.jobs, t@[a].name@)) by {
                    assert(before[a].name@ == t@[a].name@);
                    assert(before[a].inclusions == t@[a].inclusions);
                }
            }
        },
    }
}

} // verus!

verus! {

/// The table of the groups of the configuration, given its planned testcases.
pub fn build_group_table(cfg: &GenConfig, task_name: &str, plan_list: &Vec<TestcasePlan>) -> (res: Vec<GroupEntry>)
    requires
        plan_views(plan_list@) == plans(*cfg, task_name@),
        plan_list@.len() <= u32::MAX,
    ensures
        table_ok(res@, layout(*cfg, task_name@)),
{
    let ghost full = layout(*cfg, task_name@);
    let mut t: Vec<GroupEntry> = Vec::new();
    t.push(GroupEntry { name: cfg.samples.group_name().to_owned(), members: Vec::new(), inclusions: Some(Vec::new()) });
    let ghost l0 = Layout { samples: full.samples, jobs: Seq::empty(), plans: Seq::empty() };
    proof {
        assert(string_views(Seq::<String>::empty()) =~= Seq::<Seq<char>>::empty());
        assert forall|x: Seq<char>| known_group(l0, x) <==> exists|j: int| 0 <= j < t@.len() && (#[trigger] t@[j]).name@ == x by {
            if x == full.samples {
                assert(t@[0].name@ == x);
            }
        }
        assert(members(l0.plans, full.samples) =~= Seq::<u32>::empty());
    }
    let ng = cfg.group.len();
    let mut j: usize = 0;
    proof { assert(jobs(*cfg).take(0) =~= l0.jobs); }
    while j < ng
        invariant
            ng == cfg.group@.len(),
            full == layout(*cfg, task_name@),
            j <= ng,
            table_ok(t@, Layout { samples: full.samples, jobs: jobs(*cfg).take(j as int), plans: Seq::empty() }),
        decreases ng - j,
    {
        let ghost lj = Layout { samples: full.samples, jobs: jobs(*cfg).take(j as int), plans: Seq::empty() };
        proof {
            assert(jobs(*cfg)[j as int] == (cfg.group@[j as int].0@, cfg.group@[j as int].1));
            assert(jobs(*cfg).take(j + 1) =~= lj.jobs.push((cfg.group@[j as int].0@, cfg.group@[j as int].1)));
        }
        register_job(&mut t, &cfg.group[j].0, &cfg.group[j].1.inclusions, Ghost(lj), Ghost(cfg.group@[j as int].1));
        j += 1;
    }
    let ns = cfg.subtask.len();
    let mut k: usize = 0;
    while k < ns
        invariant
            ng == cfg.group@.len(),
            ns == cfg.subtask@.len(),
            full == layout(*cfg, task_name@),
            k <= ns,
            table_ok(t@, Layout { samples: full.samples, jobs: jobs(*cfg).take(ng + k), plans: Seq::empty() }),
        decreases ns - k,
    {
        let ghost lk = Layout { samples: full.samples, jobs: jobs(*cfg).take(ng + k), plans: Seq::empty() };
        proof {
            assert(jobs(*cfg)[ng + k] == (cfg.subtask@[k as int].0@, cfg.subtask@[k as int].1.group));
            assert(jobs(*cfg).take(ng + k + 1) =~= lk.jobs.push((cfg.subtask@[k as int].0@, cfg.subtask@[k as int].1.group)));
        }
        register_job(&mut t, &cfg.subtask[k].0, &cfg.subtask[k].1.group.inclusions, Ghost(lk), Ghost(cfg.subtask@[k as int].1.group));
        k += 1;
    }
    proof { assert(jobs(*cfg).take(ng + ns) =~= full.jobs); }
    let n = plan_list.len();
    let mut i: usize = 0;
    proof { assert(full.plans.take(0) =~= Seq::<PlanView>::empty()); }
    while i < n
        invariant
            n == plan_list@.len(),
            n <= u32::MAX,
            plan_views(plan_list@) == full.plans,
            full == layout(*cfg, task_name@),
            i <= n,
            table_ok(t@, Layout { plans: full.plans.take(i as int), ..full }),
        decreases n - i,
    {
        let ghost li = Layout { plans: full.plans.take(i as int), ..full };
        proof {
            assert(plan_list@[i as int]@ == full.plans[i as int]);
            lemma_plan_group_declared(*cfg, task_name@, i as int);
            assert forall|a: int| 0 <= a < li.plans.len() implies declared_group(li, #[trigger] li.plans[a].group) by {
                lemma_plan_group_declared(*cfg, task_name@, a);
            }
            assert(full.plans.take(i + 1) =~= li.plans.push(full.plans[i as int]));
        }
        add_plan(&mut t, &plan_list[i], i as u32, Ghost(li));
        i += 1;
    }
    proof { assert(full.plans.take(n as int) =~= full.plans); }
    t
}

} // verus!

verus! {

/// Whether the name `x` is in the list.
fn contains_name(v: &Vec<String>, x: &str) -> (res: bool)
    ensures
        res == string_views(v@).contains(x@),
{
    let mut i: usize = 0;
    while i < v.len()
        invariant
            i <= v@.len(),
            forall|k: int| 0 <= k < i ==> (#[trigger] v@[k])@ != x@,
        decreases v@.len() - i,
    {
        if str_eq(v[i].as_str(), x) {
            proof { assert(string_views(v@)[i as int] == x@); }
            return true;
        }
        i += 1;
    }
    proof {
        assert forall|k: int| 0 <= k < v@.len() implies string_views(v@)[k] != x@ by {
            assert(string_views(v@)[k] == v@[k]@);
        }
    }
    false
}

/// The names of the groups of the table.
pub open spec fn table_names(t: Seq<GroupEntry>) -> Seq<Seq<char>> {
    t.map_values(|e: GroupEntry| e.name@)
}

/// The inclusions of a group of the table.
pub open spec fn entry_inclusions(e: GroupEntry) -> Seq<Seq<char>> {
    match e.inclusions {
        Some(v) => string_views(v@),
        None => Seq::empty(),
    }
}

/// Every name of a part is in the flattening.
proof fn lemma_flatten_contains<A>(s: Seq<Seq<A>>, j: int, k: int)
    requires
        0 <= j < s.len(),
        0 <= k < s[j].len(),
    ensures
        s.flatten().contains(s[j][k]),
    decreases s.len(),
{
    assert(s.flatten() == s.first() + s.drop_first().flatten());
    if j == 0 {
        assert(s.flatten()[k] == s[j][k]);
    } else {
        lemma_flatten_contains(s.drop_first(), j - 1, k);
        let i = choose|i: int| 0 <= i < s.drop_first().flatten().len() && s.drop_first().flatten()[i] == s[j][k];
        assert(s.flatten()[s.first().len() + i] == s[j][k]);
    }
}

/// The names that a search from `start` can meet.
pub open spec fn name_universe(t: Seq<GroupEntry>, start: Seq<char>) -> Seq<Seq<char>> {
    seq![start, wildcard()] + table_names(t) + t.map_values(|e: GroupEntry| entry_inclusions(e)).flatten()
}

/// The groups included by `x` are those listed in the table for it.
proof fn lemma_edges_from_table(t: Seq<GroupEntry>, l: Layout, x: Seq<char>, y: Seq<char>)
    requires
        table_ok(t, l),
        x != wildcard(),
        edge(l, x, y),
    ensures
        exists|j: int| 0 <= j < t.len() && (#[trigger] t[j]).name@ == x && entry_inclusions(t[j]).contains(y),
{
    if !job_named(l.jobs, x) {
        lemma_inclusions_of_undeclared(l.jobs, x);
    }
    assert(known_group(l, x));
    let j = choose|j: int| 0 <= j < t.len() && (#[trigger] t[j]).name@ == x;
    assert(declared_group(l, x));
    assert(t[j].inclusions is Some);
}

/// A group reached from a set of visited groups closed under inclusion is visited.
proof fn lemma_closed_reach(l: Layout, vis: Seq<Seq<char>>, p: Seq<Seq<char>>, i: int)
    requires
        is_path(l, p),
        vis.contains(p[0]),
        forall|x: Seq<char>, y: Seq<char>| vis.contains(x) && edge(l, x, y) ==> vis.contains(y),
        0 <= i < p.len(),
    ensures
        vis.contains(p[i]),
    decreases i,
{
    if i > 0 {
        lemma_closed_reach(l, vis, p, i - 1);
        assert(edge(l, p[i - 1], p[i]));
    }
}

/// Extending a chain of inclusions by one more inclusion.
proof fn lemma_reach_step(l: Layout, from: Seq<char>, x: Seq<char>, y: Seq<char>)
    requires
        reachable(l, from, x),
        edge(l, x, y),
    ensures
        reachable(l, from, y),
{
    let p = choose|p: Seq<Seq<char>>| is_path(l, p) && p[0] == from && p.last() == x;
    let q = p.push(y);
    assert forall|i: int| 0 <= i < q.len() - 1 implies edge(l, #[trigger] q[i], q[i + 1]) by {
        if i < p.len() - 1 {
            assert(q[i] == p[i] && q[i + 1] == p[i + 1]);
        } else {
            assert(q[i] == x && q[i + 1] == y);
        }
    }
    assert(is_path(l, q));
    assert(q[0] == from && q.last() == y);
}

/// The groups reachable from `start` through inclusions, each once.
pub fn explore(t: &Vec<GroupEntry>, start: &str, Ghost(l): Ghost<Layout>) -> (res: Vec<String>)
    requires
        table_ok(t@, l),
    ensures
        string_views(res@).no_duplicates(),
        forall|x: Seq<char>| string_views(res@).contains(x) <==> reachable(l, start@, x),
{
    let ghost u = name_universe(t@, start@);
    let ghost incl_lists = t@.map_values(|e: GroupEntry| entry_inclusions(e));
    let mut visited: Vec<String> = Vec::new();
    let mut stack: Vec<String> = Vec::new();
    stack.push(start.to_owned());
    proof {
        assert(is_path(l, seq![start@]));
        assert(reachable(l, start@, start@)) by {
            let p = seq![start@];
            assert(is_path(l, p) && p[0] == start@ && p.last() == start@);
        }
        assert(u[0] == start@);
        assert(string_views(stack@) =~= seq![start@]);
        assert(string_views(stack@)[0] == start@);
    }
    while stack.len() > 0
        invariant
            table_ok(t@, l),
            u == name_universe(t@, start@),
            incl_lists == t@.map_values(|e: GroupEntry| entry_inclusions(e)),
            string_views(visited@).no_duplicates(),
            visited@.len() <= u.len(),
            forall|x: Seq<char>| string_views(visited@).contains(x) ==> u.contains(x),
            forall|x: Seq<char>| string_views(stack@).contains(x) ==> u.contains(x),
            forall|x: Seq<char>| string_views(visited@).contains(x) ==> reachable(l, start@, x),
            forall|x: Seq<char>| string_views(stack@).contains(x) ==> reachable(l, start@, x),
            string_views(visited@).contains(start@) || string_views(stack@).contains(start@),
            forall|x: Seq<char>, y: Seq<char>| string_views(visited@).contains(x) && edge(l, x, y)
                ==> string_views(visited@).contains(y) || string_views(stack@).contains(y),
        decreases u.len() - visited@.len(), stack@.len(),
    {
        let ghost old_stack = string_views(stack@);
        let cur = stack.pop().unwrap();
        proof {
            assert(old_stack =~= string_views(stack@).push(cur@));
            assert(old_stack.last() == cur@);
            assert(old_stack.contains(cur@));
            assert forall|x: Seq<char>| string_views(stack@).contains(x) implies old_stack.contains(x) by {
                let k = choose|k: int| 0 <= k < string_views(stack@).len() && string_views(stack@)[k] == x;
                assert(old_stack[k] == x);
            }
            assert forall|x: Seq<char>| old_stack.contains(x) implies (string_views(stack@).contains(x) || x == cur@) by {
                let k = choose|k: int| 0 <= k < old_stack.len() && old_stack[k] == x;
                if k < string_views(stack@).len() {
                    assert(string_views(stack@)[k] == x);
                }
            }
            assert forall|x: Seq<char>| #[trigger] string_views(stack@).contains(x) implies (reachable(l, start@, x) && u.contains(x)) by {
                assert(old_stack.contains(x));
            }
        }
        if contains_name(&visited, cur.as_str()) {
            continue;
        }
        let ghost old_vis = string_views(visited@);
        visited.push(cur.clone());
        proof {
            assert(string_views(visited@) =~= old_vis.push(cur@));
            crate::text::lemma_push_no_dup(old_vis, cur@);
            assert forall|x: Seq<char>| string_views(visited@).contains(x) implies (old_vis.contains(x) || x == cur@) by {
                let k = choose|k: int| 0 <= k < string_views(visited@).len() && string_views(visited@)[k] == x;
                if k < old_vis.len() {
                    assert(old_vis[k] == x);
                }
            }
            assert forall|x: Seq<char>| old_vis.contains(x) implies string_views(visited@).contains(x) by {
                let k = choose|k: int| 0 <= k < old_vis.len() && old_vis[k] == x;
                assert(string_views(visited@)[k] == x);
            }
            assert(string_views(visited@).contains(cur@)) by {
                assert(string_views(visited@)[old_vis.len() as int] == cur@);
            }
            string_views(visited@).unique_seq_to_set();
            u.lemma_cardinality_of_set();
            assert(string_views(visited@).to_set().subset_of(u.to_set()));
            vstd::set_lib::lemma_len_subset(string_views(visited@).to_set(), u.to_set());
        }
        let ghost mid_stack = string_views(stack@);
        proof {
            assert(forall|x: Seq<char>| #[trigger] mid_stack.contains(x) ==> reachable(l, start@, x) && u.contains(x));
        }
        if str_eq(cur.as_str(), "*") {
            let mut k: usize = 0;
            while k < t.len()
                invariant
                    table_ok(t@, l),
                    u == name_universe(t@, start@),
                    cur@ == wildcard(),
                    k <= t@.len(),
                    string_views(stack@) == mid_stack + table_names(t@).take(k as int),
                    forall|x: Seq<char>| mid_stack.contains(x) ==> u.contains(x),
                    forall|x: Seq<char>| mid_stack.contains(x) ==> reachable(l, start@, x),
                    reachable(l, start@, cur@),
                decreases t@.len() - k,
            {
                let ghost before = string_views(stack@);
                stack.push(t[k].name.clone());
                proof {
                    assert(string_views(stack@) =~= before.push(t@[k as int].name@));
                    assert(table_names(t@).take(k + 1) =~= table_names(t@).take(k as int).push(t@[k as int].name@));
                }
                k += 1;
            }
            proof {
                assert(table_names(t@).take(k as int) =~= table_names(t@));
                assert forall|x: Seq<char>| #[trigger] string_views(stack@).contains(x) implies (u.contains(x) && reachable(l, start@, x)) by {
                    let i = choose|i: int| 0 <= i < string_views(stack@).len() && string_views(stack@)[i] == x;
                    if i < mid_stack.len() {
                        assert(mid_stack[i] == x);
                        assert(mid_stack.contains(x));
                    } else {
                        let j = i - mid_stack.len();
                        assert(table_names(t@)[j] == x);
                        assert(t@[j].name@ == x);
                        assert(u[2 + j] == x);
                        assert(known_group(l, x));
                        lemma_reach_step(l, start@, cur@, x);
                    }
                }
                assert forall|y: Seq<char>| edge(l, cur@, y) implies string_views(stack@).contains(y) by {
                    assert(known_group(l, y));
                    let j = choose|j: int| 0 <= j < t@.len() && (#[trigger] t@[j]).name@ == y;
                    assert(string_views(stack@)[mid_stack.len() + j] == y);
                }
                assert forall|x: Seq<char>| mid_stack.contains(x) implies string_views(stack@).contains(x) by {
                    let i = choose|i: int| 0 <= i < mid_stack.len() && mid_stack[i] == x;
                    assert(string_views(stack@)[i] == x);
                }
            }
        } else {
            match find_group(t, cur.as_str()) {
                Some(j) => {
                    let empty: Vec<String> = Vec::new();
                    let incl: &Vec<String> = match &t[j].inclusions {
                        Some(v) => v,
                        None => &empty,
                    };
                    proof {
                        assert(string_views(incl@) == entry_inclusions(t@[j as int]));
                        assert(incl_lists[j as int] == entry_inclusions(t@[j as int]));
                    }
                    let mut k: usize = 0;
                    while k < incl.len()
                        invariant
                            k <= incl@.len(),
                            string_views(stack@) == mid_stack + string_views(incl@).take(k as int),
                        decreases incl@.len() - k,
                    {
                        let ghost before = string_views(stack@);
                        stack.push(incl[k].clone());
                        proof {
                            assert(string_views(stack@) =~= before.push(incl@[k as int]@));
                            assert(string_views(incl@).take(k + 1) =~= string_views(incl@).take(k as int).push(incl@[k as int]@));
                        }
                        k += 1;
                    }
                    proof {
                        assert(string_views(incl@).take(k as int) =~= string_views(incl@));
                        assert forall|x: Seq<char>| #[trigger] string_views(stack@).contains(x) implies (u.contains(x) && reachable(l, start@, x)) by {
                            let i = choose|i: int| 0 <= i < string_views(stack@).len() && string_views(stack@)[i] == x;
                            if i < mid_stack.len() {
                                assert(mid_stack[i] == x);
                                assert(mid_stack.contains(x));
                            } else {
                                let m = i - mid_stack.len();
                                assert(string_views(incl@)[m] == x);
                                lemma_flatten_contains(incl_lists, j as int, m);
                                let w = choose|w: int| 0 <= w < incl_lists.flatten().len() && incl_lists.flatten()[w] == x;
                                assert(u[2 + t@.len() + w] == x);
                                assert(t@[j as int].inclusions is Some);
                                assert(inclusions_of(l.jobs, cur@).contains(x));
                                assert(edge(l, cur@, x));
                                lemma_reach_step(l, start@, cur@, x);
                            }
                        }
                        assert forall|y: Seq<char>| edge(l, cur@, y) implies string_views(stack@).contains(y) by {
                            lemma_edges_from_table(t@, l, cur@, y);
                            let a = choose|a: int| 0 <= a < t@.len() && (#[trigger] t@[a]).name@ == cur@ && entry_inclusions(t@[a]).contains(y);
                            assert(a == j) by {
                                if a != j {
                                    if a < j {
                                        assert(t@[a].name@ != t@[j as int].name@);
                                    } else {
                                        assert(t@[j as int].name@ != t@[a].name@);
                                    }
                                }
                            }
                            let m = choose|m: int| 0 <= m < string_views(incl@).len() && string_views(incl@)[m] == y;
                            assert(string_views(stack@)[mid_stack.len() + m] == y);
                        }
                        assert forall|x: Seq<char>| mid_stack.contains(x) implies string_views(stack@).contains(x) by {
                            let i = choose|i: int| 0 <= i < mid_stack.len() && mid_stack[i] == x;
                            assert(string_views(stack@)[i] == x);
                        }
                    }
                },
                None => {
                    proof {
                        assert forall|y: Seq<char>| !edge(l, cur@, y) by {
                            if edge(l, cur@, y) {
                                lemma_edges_from_table(t@, l, cur@, y);
                            }
                        }
                    }
                },
            }
        }
    }
    proof {
        let vis = string_views(visited@);
        assert(string_views(stack@) =~= Seq::<Seq<char>>::empty());
        assert forall|x: Seq<char>| reachable(l, start@, x) implies vis.contains(x) by {
            let p = choose|p: Seq<Seq<char>>| is_path(l, p) && p[0] == start@ && p.last() == x;
            lemma_closed_reach(l, vis, p, p.len() - 1);
        }
    }
    visited
}

} // verus!

verus! {

/// A testcase of the task.
#[derive(Debug)]
pub struct TestcaseInfo {
    /// The id of the testcase.
    pub id: u32,
    /// The generator of the input file for this testcase.
    pub input_generator: InputGenerator,
    /// The generator of the output file for this testcase.
    pub output_generator: OutputGenerator,
}

/// Why a generated testcase cannot be made.
#[derive(Debug, Clone)]
pub enum TestcaseError {
    /// Its generator cannot be chosen.
    Generator(SourceError),
    /// Its arguments name a constant that does not exist or cannot be used.
    Arguments(ArgError),
}

/// Why a generated testcase cannot be made, over the characters of the texts.
pub enum TestcaseIssue {
    Generator(SourceIssue),
    Arguments(ArgIssue),
}

impl View for TestcaseError {
    type V = TestcaseIssue;

    open spec fn view(&self) -> TestcaseIssue {
        match self {
            TestcaseError::Generator(e) => TestcaseIssue::Generator(e@),
            TestcaseError::Arguments(e) => TestcaseIssue::Arguments(e@),
        }
    }
}

/// Why the planned testcase with the given id cannot be made, if it cannot: its generator must be
/// found exactly once among the source files found for it, and its arguments must use existing
/// constants (`#` standing for its id).
pub open spec fn plan_issue(e: PlanView, id: nat, gens: Seq<(String, Vec<SourceFile>)>) -> Option<TestcaseIssue> {
    match e.source {
        SourceView::Static(_) => None,
        SourceView::Generated { testcase, generator, bindings } => match source_issue(candidates_of(gens, generator), generator) {
            Some(i) => Some(TestcaseIssue::Generator(i)),
            None => match instantiate_args(testcase.args, bindings.push(id_binding(id))) {
                Err(a) => Some(TestcaseIssue::Arguments(a)),
                Ok(_) => None,
            },
        },
    }
}

/// `tc` is the testcase made from the planned testcase `e` with the given id.
pub open spec fn testcase_ok(tc: TestcaseInfo, id: nat, e: PlanView, gens: Seq<(String, Vec<SourceFile>)>, og: CommandView) -> bool {
    &&& tc.id == id
    &&& tc.output_generator@ == og
    &&& match e.source {
        SourceView::Static(p) => tc.input_generator@ == CommandView::File(p),
        SourceView::Generated { testcase, generator, bindings } =>
            match instantiate_args(testcase.args, bindings.push(id_binding(id))) {
                Ok(args) => tc.input_generator@ == CommandView::Program(candidates_of(gens, generator)[0].path@, args),
                Err(_) => false,
            },
    }
}

/// Makes the testcases of the planned testcases, or tells the first one that cannot be made.
fn make_testcases(
    plan_list: &Vec<TestcasePlan>,
    og: &OutputGenerator,
    gens: &Vec<(String, Vec<SourceFile>)>,
) -> (res: Result<Vec<TestcaseInfo>, (usize, TestcaseError)>)
    requires
        plan_list@.len() <= u32::MAX,
    ensures
        res is Ok <==> forall|i: int| 0 <= i < plan_list@.len() ==> plan_issue(#[trigger] plan_list@[i]@, i as nat, gens@) is None,
        res matches Ok(v) ==> v@.len() == plan_list@.len() && forall|i: int| 0 <= i < v@.len()
            ==> testcase_ok(#[trigger] v@[i], i as nat, plan_list@[i]@, gens@, og@),
        res matches Err((i, e)) ==> i < plan_list@.len() && plan_issue(plan_list@[i as int]@, i as nat, gens@) == Some(e@)
            && forall|j: int| 0 <= j < i ==> plan_issue(#[trigger] plan_list@[j]@, j as nat, gens@) is None,
{
    let mut out: Vec<TestcaseInfo> = Vec::new();
    let n = plan_list.len();
    let mut i: usize = 0;
    while i < n
        invariant
            n == plan_list@.len(),
            n <= u32::MAX,
            i <= n,
            out@.len() == i,
            forall|j: int| 0 <= j < i ==> plan_issue(#[trigger] plan_list@[j]@, j as nat, gens@) is None,
            forall|j: int| 0 <= j < i ==> testcase_ok(#[trigger] out@[j], j as nat, plan_list@[j]@, gens@, og@),
        decreases n - i,
    {
        let plan = &plan_list[i];
        let input_generator = match &plan.source {
            PlanSource::Static(p) => InputGenerator::StaticFile(p.clone()),
            PlanSource::Generated { testcase, generator, bindings } => {
                let cands = candidates_for(gens, generator.as_str());
                let source = match choose_source(generator.as_str(), cands) {
                    Ok(s) => s,
                    Err(e) => {
                        return Err((i, TestcaseError::Generator(e)));
                    },
                };
                let mut vars = copy_bindings(bindings);
                let ghost before = vars@;
                vars.push(("#".to_owned(), ConstValue::Text(u64_to_string(i as u64))));
                proof {
                    assert(binding_views(vars@) =~= binding_views(before).push(id_binding(i as nat)));
                }
                match testcase.args().instantiate(&vars) {
                    Ok(args) => InputGenerator::Custom(source, args),
                    Err(e) => {
                        return Err((i, TestcaseError::Arguments(e)));
                    },
                }
            },
        };
        out.push(TestcaseInfo { id: i as u32, input_generator, output_generator: og.copy() });
        proof {
            assert(out@[i as int].id == i);
        }
        i += 1;
    }
    Ok(out)
}

} // verus!

verus! {

/// An error in the testcase description of `gen/gen.toml`.
#[derive(Debug, Clone)]
pub enum GenTomlError {
    /// The name of a group or of a subtask is not valid.
    InvalidName(InvalidName),
    /// A generated testcase cannot be made: its position among the testcases of its group, the
    /// group, and why.
    Testcase { index: usize, group: String, cause: TestcaseError },
    /// The arguments of the validator of a subtask name a constant that does not exist or cannot
    /// be used.
    ValidatorArguments { subtask: String, cause: ArgError },
    /// The validator of a subtask cannot be chosen.
    Validator { subtask: String, cause: SourceError },
    /// A subtask reaches a group that does not exist.
    UnknownGroup { group: String, subtask: String },
    /// A testcase is in no subtask: the testcase and a group it belongs to.
    UnusedTestcase { testcase: u32, group: String },
}

impl GenTomlError {
    /// The message of the error: what failed, and where.
    pub fn message(&self) -> (res: String)
        ensures
            match self {
                GenTomlError::InvalidName(n) => res@ == "'"@ + n.name@ + "' is not a valid identifier: "@ + n.reason@,
                GenTomlError::Testcase { index, group, .. } => res@ == "while processing testcase "@
                    + decimal(*index as nat) + " of group "@ + group@,
                GenTomlError::ValidatorArguments { subtask, .. } =>
                    res@ == "when instantiating command line for validator of subtask "@ + subtask@,
                GenTomlError::Validator { subtask, .. } => res@ == "when finding validator of subtask "@ + subtask@,
                GenTomlError::UnknownGroup { group, subtask } => res@ == "unknown group "@ + group@
                    + " when computing testcases for subtask "@ + subtask@,
                GenTomlError::UnusedTestcase { testcase, group } => res@ == "Testcase "@ + decimal(*testcase as nat)
                    + ", from group "@ + group@ + ", is never used."@,
            },
    {
        match self {
            GenTomlError::InvalidName(n) => n.message(),
            GenTomlError::Testcase { index, group, .. } => {
                let mut m = "while processing testcase ".to_owned();
                let i = u64_to_string(*index as u64);
                push_str(&mut m, i.as_str());
                push_str(&mut m, " of group ");
                push_str(&mut m, group.as_str());
                m
            },
            GenTomlError::ValidatorArguments { subtask, .. } => {
                let mut m = "when instantiating command line for validator of subtask ".to_owned();
                push_str(&mut m, subtask.as_str());
                m
            },
            GenTomlError::Validator { subtask, .. } => {
                let mut m = "when finding validator of subtask ".to_owned();
                push_str(&mut m, subtask.as_str());
                m
            },
            GenTomlError::UnknownGroup { group, subtask } => {
                let mut m = "unknown group ".to_owned();
                push_str(&mut m, group.as_str());
                push_str(&mut m, " when computing testcases for subtask ");
                push_str(&mut m, subtask.as_str());
                m
            },
            GenTomlError::UnusedTestcase { testcase, group } => {
                let mut m = "Testcase ".to_owned();
                let t = u64_to_string(*testcase as u64);
                push_str(&mut m, t.as_str());
                push_str(&mut m, ", from group ");
                push_str(&mut m, group.as_str());
                push_str(&mut m, ", is never used.");
                m
            },
        }
    }
}

/// A subtask of the task.
#[derive(Debug)]
pub struct SubtaskInfo {
    /// The id of the subtask.
    pub id: u32,
    /// The name of the subtask.
    pub name: Option<String>,
    /// The maximum score of the subtask, as written in the file.
    pub max_score: String,
    /// The testcases of the subtask, in increasing order (a testcase reached through two groups is
    /// there twice).
    pub testcases: Vec<u32>,
    /// The testcases of the subtask that no earlier subtask has, in increasing order.
    pub testcases_owned: Vec<u32>,
    /// The validator of the input files of the subtask.
    pub input_validator: InputValidator,
}

/// The name of the subtask at position `k`.
pub open spec fn subtask_name_at(cfg: GenConfig, k: int) -> Seq<char> {
    cfg.subtask@[k].0@
}

/// The constants usable by the arguments of the validator of the subtask at position `k`: the
/// global ones, those of the subtask, its name and the file to validate.
pub open spec fn validator_bindings(cfg: GenConfig, k: int) -> Seq<(Seq<char>, ConstView)> {
    binding_views(cfg.constants@) + binding_views(cfg.subtask@[k].1.group.local_constants@) + seq![
        ("SUBTASK_NAME#"@, ConstView::Text(subtask_name_at(cfg, k))),
        ("FILENAME#"@, ConstView::Text(TM_VALIDATION_FILE_NAME@)),
    ]
}

/// The arguments of the validator of the subtask at position `k`.
pub open spec fn validator_items(cfg: GenConfig, k: int) -> Seq<Seq<char>> {
    match cfg.subtask@[k].1.validator_args {
        Some(a) => a.items(),
        None => cfg.validator_args.items(),
    }
}

/// The name of the validator of the subtask at position `k`.
pub open spec fn validator_name(cfg: GenConfig, k: int) -> Seq<char> {
    match cfg.subtask@[k].1.validator {
        Some(v) => v@,
        None => cfg.validator@,
    }
}

/// Some group that does not exist is reached from `from`.
pub open spec fn unknown_reachable(l: Layout, from: Seq<char>) -> bool {
    exists|x: Seq<char>| #[trigger] reachable(l, from, x) && x != wildcard() && !known_group(l, x)
}

/// The subtask at position `k` can be made: its validator arguments use existing constants, its
/// validator is found exactly once, and it reaches only existing groups.
pub open spec fn subtask_clean(cfg: GenConfig, l: Layout, vals: Seq<(String, Vec<SourceFile>)>, k: int) -> bool {
    &&& instantiate_args(validator_items(cfg, k), validator_bindings(cfg, k)) is Ok
    &&& source_issue(candidates_of(vals, validator_name(cfg, k)), validator_name(cfg, k)) is None
    &&& !unknown_reachable(l, subtask_name_at(cfg, k))
}

/// The name `y` is one of `names`, and not the wildcard.
pub open spec fn in_names(names: Seq<Seq<char>>, y: Seq<char>) -> bool {
    names.contains(y) && y != wildcard()
}

/// How many times the testcase `t` is reached through the groups `names`: once for the group
/// defining it and once more for its other group.
pub open spec fn times_in(l: Layout, names: Seq<Seq<char>>, t: u32) -> nat {
    if (t as int) < l.plans.len() {
        let e = l.plans[t as int];
        (if in_names(names, e.group) { 1nat } else { 0nat }) + (match plan_extra(e) {
            Some(y) => if in_names(names, y) { 1nat } else { 0nat },
            None => 0nat,
        })
    } else {
        0
    }
}

/// How many times the testcase `t` is among the testcases of the subtask named `from`: once if
/// the group defining it is reached, once more if its other group is reached.
pub open spec fn multiplicity(l: Layout, from: Seq<char>, t: u32) -> nat {
    if (t as int) < l.plans.len() {
        let e = l.plans[t as int];
        (if reachable(l, from, e.group) && e.group != wildcard() { 1nat } else { 0nat }) + (match plan_extra(e) {
            Some(y) => if reachable(l, from, y) && y != wildcard() { 1nat } else { 0nat },
            None => 0nat,
        })
    } else {
        0
    }
}

/// The testcase `t` belongs to one of the first `k` subtasks.
pub open spec fn owned_before(cfg: GenConfig, l: Layout, k: int, t: u32) -> bool {
    exists|k2: int| 0 <= k2 < k && #[trigger] multiplicity(l, subtask_name_at(cfg, k2), t) > 0
}

/// `st` is the subtask at position `k`.
pub open spec fn subtask_ok(st: SubtaskInfo, k: int, cfg: GenConfig, l: Layout, vals: Seq<(String, Vec<SourceFile>)>) -> bool {
    let name = subtask_name_at(cfg, k);
    &&& st.id == k
    &&& st.name matches Some(n) && n@ == name
    &&& st.max_score@ == cfg.subtask@[k].1.score@
    &&& crate::sorting::sorted(st.testcases@)
    &&& forall|t: u32| #[trigger] crate::sorting::count_of(st.testcases@, t) == multiplicity(l, name, t)
    &&& crate::sorting::sorted(st.testcases_owned@)
    &&& forall|t: u32| #[trigger] crate::sorting::count_of(st.testcases_owned@, t)
        == (if multiplicity(l, name, t) > 0 && !owned_before(cfg, l, k, t) { 1nat } else { 0nat })
    &&& match instantiate_args(validator_items(cfg, k), validator_bindings(cfg, k)) {
        Ok(args) => st.input_validator@ == CommandView::Program(candidates_of(vals, validator_name(cfg, k))[0].path@, args),
        Err(_) => false,
    }
}

/// How many times `t` is in the list of the group `x`.
proof fn lemma_members_count(es: Seq<PlanView>, x: Seq<char>, t: u32)
    requires
        es.len() <= u32::MAX + 1,
    ensures
        crate::sorting::count_of(members(es, x), t) == (if (t as int) < es.len() { in_group_count(es[t as int], x) } else { 0 }),
    decreases es.len(),
{
    if es.len() > 0 {
        lemma_members_count(es.drop_last(), x, t);
        crate::sorting::lemma_count_concat(members(es.drop_last(), x), Seq::new(in_group_count(es.last(), x), |k: int| (es.len() - 1) as u32), t);
        crate::sorting::lemma_count_repeat(in_group_count(es.last(), x), (es.len() - 1) as u32, t);
        if (t as int) < es.len() - 1 {
            assert(es.drop_last()[t as int] == es[t as int]);
        }
    }
}

/// The lists of groups hold only ids of planned testcases.
proof fn lemma_members_bound(es: Seq<PlanView>, x: Seq<char>, i: int)
    requires
        0 <= i < members(es, x).len(),
    ensures
        (members(es, x)[i] as int) < es.len(),
    decreases es.len(),
{
    if es.len() > 0 {
        let a = members(es.drop_last(), x);
        if i < a.len() {
            lemma_members_bound(es.drop_last(), x, i);
        }
    }
}

} // verus!

verus! {

/// `e` tells why the subtask at position `k` cannot be made: the first of its validator
/// arguments, its validator and the groups it reaches that fails.
pub open spec fn subtask_error_ok(cfg: GenConfig, l: Layout, vals: Seq<(String, Vec<SourceFile>)>, k: int, e: GenTomlError) -> bool {
    match e {
        GenTomlError::ValidatorArguments { subtask, cause } => subtask@ == subtask_name_at(cfg, k)
            && instantiate_args(validator_items(cfg, k), validator_bindings(cfg, k)) == Err::<Seq<Seq<char>>, ArgIssue>(cause@),
        GenTomlError::Validator { subtask, cause } => subtask@ == subtask_name_at(cfg, k)
            && instantiate_args(validator_items(cfg, k), validator_bindings(cfg, k)) is Ok
            && source_issue(candidates_of(vals, validator_name(cfg, k)), validator_name(cfg, k)) == Some(cause@),
        GenTomlError::UnknownGroup { group, subtask } => subtask@ == subtask_name_at(cfg, k)
            && instantiate_args(validator_items(cfg, k), validator_bindings(cfg, k)) is Ok
            && source_issue(candidates_of(vals, validator_name(cfg, k)), validator_name(cfg, k)) is None
            && reachable(l, subtask@, group@) && group@ != wildcard() && !known_group(l, group@),
        _ => false,
    }
}

/// Makes the subtask at position `k`, marking in `owner` the testcases it has.
fn make_subtask(
    cfg: &GenConfig,
    k: usize,
    t: &Vec<GroupEntry>,
    owner: &mut Vec<bool>,
    vals: &Vec<(String, Vec<SourceFile>)>,
    Ghost(l): Ghost<Layout>,
) -> (res: Result<SubtaskInfo, GenTomlError>)
    requires
        table_ok(t@, l),
        l.plans.len() <= u32::MAX,
        k < cfg.subtask@.len(),
        cfg.subtask@.len() <= u32::MAX,
        old(owner)@.len() == l.plans.len(),
        forall|i: int| 0 <= i < l.plans.len() ==> (old(owner)@[i] <==> owned_before(*cfg, l, k as int, i as u32)),
    ensures
        res is Ok <==> subtask_clean(*cfg, l, vals@, k as int),
        res matches Ok(st) ==> subtask_ok(st, k as int, *cfg, l, vals@),
        res is Ok ==> final(owner)@.len() == l.plans.len()
            && forall|i: int| 0 <= i < l.plans.len() ==> (final(owner)@[i] <==> owned_before(*cfg, l, k + 1, i as u32)),
        res matches Err(e) ==> subtask_error_ok(*cfg, l, vals@, k as int, e),
{
    let name = &cfg.subtask[k].0;
    let st = &cfg.subtask[k].1;
    let ghost ki = k as int;
    let mut vars = copy_bindings(&cfg.constants);
    let local = copy_bindings(&st.group.local_constants);
    let mut m: usize = 0;
    while m < local.len()
        invariant
            vars@ == cfg.constants@ + local@.take(m as int),
            m <= local@.len(),
        decreases local@.len() - m,
    {
        vars.push((local[m].0.clone(), local[m].1.copy()));
        proof { assert(vars@ =~= cfg.constants@ + local@.take(m + 1)); }
        m += 1;
    }
    proof { assert(local@.take(m as int) =~= local@); }
    let ghost before = vars@;
    vars.push(("SUBTASK_NAME#".to_owned(), ConstValue::Text(name.clone())));
    vars.push(("FILENAME#".to_owned(), ConstValue::Text(TM_VALIDATION_FILE_NAME.to_owned())));
    proof {
        assert(binding_views(vars@) =~= validator_bindings(*cfg, ki));
    }
    let args = match &st.validator_args {
        Some(a) => a.instantiate(&vars),
        None => cfg.validator_args.instantiate(&vars),
    };
    let args = match args {
        Ok(a) => a,
        Err(e) => {
            return Err(GenTomlError::ValidatorArguments { subtask: name.clone(), cause: e });
        },
    };
    let vname: &str = match &st.validator {
        Some(v) => v.as_str(),
        None => cfg.validator.as_str(),
    };
    let source = match choose_source(vname, candidates_for(vals, vname)) {
        Ok(s) => s,
        Err(e) => {
            return Err(GenTomlError::Validator { subtask: name.clone(), cause: e });
        },
    };
    let reach = explore(t, name.as_str(), Ghost(l));
    let ghost rv = string_views(reach@);
    let ghost n = l.plans.len();
    let mut acc: Vec<u32> = Vec::new();
    let mut owned: Vec<u32> = Vec::new();
    let mut r: usize = 0;
    proof {
        assert(rv.take(0) =~= Seq::<Seq<char>>::empty());
        assert forall|tt: u32| #[trigger] crate::sorting::count_of(acc@, tt) == times_in(l, rv.take(0), tt) by {}
    }
    while r < reach.len()
        invariant
            ki == k,
            k < cfg.subtask@.len(),
            name@ == subtask_name_at(*cfg, ki),
            instantiate_args(validator_items(*cfg, ki), validator_bindings(*cfg, ki)) is Ok,
            source_issue(candidates_of(vals@, validator_name(*cfg, ki)), validator_name(*cfg, ki)) is None,
            table_ok(t@, l),
            n == l.plans.len(),
            n <= u32::MAX,
            rv == string_views(reach@),
            rv.no_duplicates(),
            forall|x: Seq<char>| rv.contains(x) <==> reachable(l, name@, x),
            r <= reach@.len(),
            owner@.len() == n,
            forall|tt: u32| #[trigger] crate::sorting::count_of(acc@, tt) == times_in(l, rv.take(r as int), tt),
            forall|i: int| 0 <= i < n ==> (owner@[i] <==> (owned_before(*cfg, l, ki, i as u32)
                || crate::sorting::count_of(acc@, i as u32) > 0)),
            owned@.no_duplicates(),
            forall|tt: u32| owned@.contains(tt) <==> ((tt as int) < n && crate::sorting::count_of(acc@, tt) > 0
                && !owned_before(*cfg, l, ki, tt)),
            forall|x: Seq<char>| rv.take(r as int).contains(x) && x != wildcard() ==> known_group(l, x),
        decreases reach@.len() - r,
    {
        let x = &reach[r];
        proof {
            assert(rv[r as int] == x@);
            assert(rv.take(r + 1) =~= rv.take(r as int).push(x@));
            assert(!rv.take(r as int).contains(x@)) by {
                if rv.take(r as int).contains(x@) {
                    let a = choose|a: int| 0 <= a < r && rv.take(r as int)[a] == x@;
                    assert(rv[a] == rv[r as int]);
                }
            }
            let tk1 = rv.take(r + 1);
            let tk0 = rv.take(r as int);
            assert forall|y: Seq<char>| tk1.contains(y) <==> (tk0.contains(y) || y == x@) by {
                if tk0.contains(y) {
                    let a = choose|a: int| 0 <= a < tk0.len() && tk0[a] == y;
                    assert(tk1[a] == y);
                }
                if y == x@ {
                    assert(tk1[r as int] == y);
                }
                if tk1.contains(y) {
                    let a = choose|a: int| 0 <= a < tk1.len() && tk1[a] == y;
                    if a < r {
                        assert(tk0[a] == y);
                    }
                }
            }
            assert(rv.contains(x@)) by { assert(rv[r as int] == x@); }
        }
        if crate::text::str_eq(x.as_str(), "*") {
            proof {
                assert forall|tt: u32| #[trigger] crate::sorting::count_of(acc@, tt) == times_in(l, rv.take(r + 1), tt) by {}
            }
        } else {
            let j = match find_group(t, x.as_str()) {
                Some(j) => j,
                None => {
                    proof {
                        assert(!known_group(l, x@)) by {
                            if known_group(l, x@) {
                                let a = choose|a: int| 0 <= a < t@.len() && (#[trigger] t@[a]).name@ == x@;
                                assert(t@[a].name@ != x@);
                            }
                        }
                        assert(reachable(l, name@, x@));
                    }
                    return Err(GenTomlError::UnknownGroup { group: x.clone(), subtask: name.clone() });
                },
            };
            let mem = &t[j].members;
            let ghost base = acc@;
            proof {
                assert(mem@ == members(l.plans, x@));
            }
            let mut q: usize = 0;
            proof {
                assert forall|tt: u32| #[trigger] crate::sorting::count_of(acc@, tt)
                    == crate::sorting::count_of(base, tt) + crate::sorting::count_of(mem@.take(0), tt) by {
                    assert(mem@.take(0) =~= Seq::<u32>::empty());
                }
            }
            while q < mem.len()
                invariant
                    n == l.plans.len(),
                    n <= u32::MAX,
                    mem@ == members(l.plans, x@),
                    q <= mem@.len(),
                    owner@.len() == n,
                    forall|tt: u32| #[trigger] crate::sorting::count_of(acc@, tt)
                        == crate::sorting::count_of(base, tt) + crate::sorting::count_of(mem@.take(q as int), tt),
                    forall|i: int| 0 <= i < n ==> (owner@[i] <==> (owned_before(*cfg, l, ki, i as u32)
                        || crate::sorting::count_of(acc@, i as u32) > 0)),
                    owned@.no_duplicates(),
                    forall|tt: u32| owned@.contains(tt) <==> ((tt as int) < n && crate::sorting::count_of(acc@, tt) > 0
                        && !owned_before(*cfg, l, ki, tt)),
                decreases mem@.len() - q,
            {
                let id = mem[q];
                proof {
                    lemma_members_bound(l.plans, x@, q as int);
                    assert(mem@.take(q + 1) =~= mem@.take(q as int).push(id));
                }
                let ghost acc_before = acc@;
                acc.push(id);
                proof {
                    assert(acc@.drop_last() =~= acc_before);
                    assert forall|tt: u32| #[trigger] crate::sorting::count_of(acc@, tt)
                        == crate::sorting::count_of(acc_before, tt) + (if id == tt { 1nat } else { 0nat }) by {}
                    assert forall|tt: u32| #[trigger] crate::sorting::count_of(acc@, tt)
                        == crate::sorting::count_of(base, tt) + crate::sorting::count_of(mem@.take(q + 1), tt) by {
                        assert(mem@.take(q + 1).drop_last() =~= mem@.take(q as int));
                    }
                }
                if !owner[id as usize] {
                    let ghost owned_before_push = owned@;
                    owner.set(id as usize, true);
                    owned.push(id);
                    proof {
                        assert(!owned_before_push.contains(id)) by {
                            if owned_before_push.contains(id) {
                                assert(crate::sorting::count_of(acc_before, id) > 0);
                                assert(owner@[id as int]);
                            }
                        }
                        crate::text::lemma_push_no_dup(owned_before_push, id);
                        assert forall|tt: u32| owned@.contains(tt) <==> ((tt as int) < n && crate::sorting::count_of(acc@, tt) > 0
                            && !owned_before(*cfg, l, ki, tt)) by {
                            if owned@.contains(tt) && tt != id {
                                let a = choose|a: int| 0 <= a < owned@.len() && owned@[a] == tt;
                                assert(owned_before_push[a] == tt);
                            }
                            if tt == id {
                                assert(owned@[owned_before_push.len() as int] == tt);
                            } else if owned_before_push.contains(tt) {
                                let a = choose|a: int| 0 <= a < owned_before_push.len() && owned_before_push[a] == tt;
                                assert(owned@[a] == tt);
                            }
                        }
                    }
                } else {
                    proof {
                        assert forall|tt: u32| owned@.contains(tt) <==> ((tt as int) < n && crate::sorting::count_of(acc@, tt) > 0
                            && !owned_before(*cfg, l, ki, tt)) by {
                            if tt == id && !owned_before(*cfg, l, ki, tt) {
                                assert(owner@[id as int]);
                                assert(crate::sorting::count_of(acc_before, id) > 0);
                            }
                        }
                    }
                }
                q += 1;
            }
            proof {
                assert(mem@.take(q as int) =~= mem@);
                assert forall|tt: u32| #[trigger] crate::sorting::count_of(acc@, tt) == times_in(l, rv.take(r + 1), tt) by {
                    lemma_members_count(l.plans, x@, tt);
                }
                assert(known_group(l, x@)) by {
                    assert(t@[j as int].name@ == x@);
                }
            }
        }
        r += 1;
    }
    proof {
        assert(rv.take(r as int) =~= rv);
        assert forall|tt: u32| #[trigger] times_in(l, rv, tt) == multiplicity(l, name@, tt) by {}
        assert(!unknown_reachable(l, name@)) by {
            if unknown_reachable(l, name@) {
                let x = choose|x: Seq<char>| #[trigger] reachable(l, name@, x) && x != wildcard() && !known_group(l, x);
                assert(rv.contains(x));
            }
        }
        assert forall|i: int| 0 <= i < n implies (owner@[i] <==> owned_before(*cfg, l, ki + 1, i as u32)) by {
            let tt = i as u32;
            if owned_before(*cfg, l, ki, tt) {
                let k2 = choose|k2: int| 0 <= k2 < ki && #[trigger] multiplicity(l, subtask_name_at(*cfg, k2), tt) > 0;
                assert(0 <= k2 < ki + 1 && multiplicity(l, subtask_name_at(*cfg, k2), tt) > 0);
            }
            if crate::sorting::count_of(acc@, tt) > 0 {
                assert(multiplicity(l, subtask_name_at(*cfg, ki), tt) > 0);
            }
            if owned_before(*cfg, l, ki + 1, tt) {
                let k2 = choose|k2: int| 0 <= k2 < ki + 1 && #[trigger] multiplicity(l, subtask_name_at(*cfg, k2), tt) > 0;
                if k2 < ki {
                    assert(owned_before(*cfg, l, ki, tt));
                }
            }
        }
    }
    let testcases = crate::sorting::sort_ids(&acc);
    let testcases_owned = crate::sorting::sort_ids(&owned);
    proof {
        assert forall|tt: u32| #[trigger] crate::sorting::count_of(testcases_owned@, tt)
            == (if multiplicity(l, name@, tt) > 0 && !owned_before(*cfg, l, ki, tt) { 1nat } else { 0nat }) by {
            crate::sorting::lemma_count_no_dup(owned@, tt);
            crate::sorting::lemma_count_contains(owned@, tt);
        }
    }
    Ok(SubtaskInfo {
        id: k as u32,
        name: Some(name.clone()),
        max_score: st.score.clone(),
        testcases,
        testcases_owned,
        input_validator: InputValidator::Custom(source, args),
    })
}

} // verus!

verus! {

/// Subtask `k` reaches, through inclusions, a group that has testcases but was never declared.
pub open spec fn reaches_undeclared(cfg: GenConfig, l: Layout, k: int) -> bool {
    exists|x: Seq<char>| #[trigger] reachable(l, subtask_name_at(cfg, k), x) && x != wildcard()
        && known_group(l, x) && !declared_group(l, x)
}

/// The validator of subtask `k` cannot be made: its arguments or its source.
pub open spec fn validator_fails(cfg: GenConfig, vals: Seq<(String, Vec<SourceFile>)>, k: int) -> bool {
    ||| instantiate_args(validator_items(cfg, k), validator_bindings(cfg, k)) is Err
    ||| source_issue(candidates_of(vals, validator_name(cfg, k)), validator_name(cfg, k)) is Some
}

/// The resolution ends with an error, or ends at all, before it walks into a group that has
/// testcases but was never declared, on which the program would stop: no subtask reaches such a
/// group, or a testcase cannot be made, or, before the walk of the first subtask that reaches
/// one, an earlier subtask cannot be made or the validator of that subtask cannot.
pub open spec fn stops_before_undeclared(
    cfg: GenConfig,
    l: Layout,
    gens: Seq<(String, Vec<SourceFile>)>,
    vals: Seq<(String, Vec<SourceFile>)>,
) -> bool {
    ||| no_undeclared_reached(cfg, l)
    ||| !testcases_clean(l, gens)
    ||| exists|k: int| 0 <= k < cfg.subtask@.len() && #[trigger] reaches_undeclared(cfg, l, k)
        && (forall|k0: int| 0 <= k0 < k ==> !reaches_undeclared(cfg, l, k0))
        && ((exists|k2: int| 0 <= k2 < k && !subtask_clean(cfg, l, vals, k2)) || validator_fails(cfg, vals, k))
}

/// No subtask reaches, through inclusions, a group that has testcases but was never declared
/// (a group named only as the other group of some testcases).
pub open spec fn no_undeclared_reached(cfg: GenConfig, l: Layout) -> bool {
    forall|k: int, x: Seq<char>| 0 <= k < cfg.subtask@.len() && #[trigger] reachable(l, subtask_name_at(cfg, k), x)
        && x != wildcard() && known_group(l, x) ==> declared_group(l, x)
}

/// All the planned testcases can be made.
pub open spec fn testcases_clean(l: Layout, gens: Seq<(String, Vec<SourceFile>)>) -> bool {
    forall|i: int| 0 <= i < l.plans.len() ==> plan_issue(#[trigger] l.plans[i], i as nat, gens) is None
}

/// All the subtasks can be made.
pub open spec fn subtasks_clean(cfg: GenConfig, l: Layout, vals: Seq<(String, Vec<SourceFile>)>) -> bool {
    forall|k: int| 0 <= k < cfg.subtask@.len() ==> subtask_clean(cfg, l, vals, k)
}

/// Every testcase belongs to some subtask.
pub open spec fn all_used(cfg: GenConfig, l: Layout) -> bool {
    forall|t: u32| (t as int) < l.plans.len() ==> owned_before(cfg, l, cfg.subtask@.len() as int, t)
}

/// `e` tells why the description cannot be resolved: the first step that fails among making the
/// testcases (in the order of their ids), making the subtasks (in order), and checking that every
/// testcase is used.
pub open spec fn resolution_error_ok(
    cfg: GenConfig,
    l: Layout,
    gens: Seq<(String, Vec<SourceFile>)>,
    vals: Seq<(String, Vec<SourceFile>)>,
    e: GenTomlError,
) -> bool {
    match e {
        GenTomlError::Testcase { index, group, cause } => exists|i: int| 0 <= i < l.plans.len()
            && #[trigger] plan_issue(l.plans[i], i as nat, gens) == Some(cause@)
            && (forall|j: int| 0 <= j < i ==> plan_issue(#[trigger] l.plans[j], j as nat, gens) is None)
            && index == l.plans[i].index && group@ == l.plans[i].group,
        GenTomlError::UnusedTestcase { testcase, group } => testcases_clean(l, gens) && subtasks_clean(cfg, l, vals)
            && (testcase as int) < l.plans.len() && !owned_before(cfg, l, cfg.subtask@.len() as int, testcase)
            && (l.plans[testcase as int].group == group@ || plan_extra(l.plans[testcase as int]) == Some(group@)),
        GenTomlError::InvalidName(_) => false,
        _ => testcases_clean(l, gens) && exists|k: int| 0 <= k < cfg.subtask@.len()
            && (forall|k2: int| 0 <= k2 < k ==> subtask_clean(cfg, l, vals, k2))
            && #[trigger] subtask_error_ok(cfg, l, vals, k, e),
    }
}

/// Resolves the description of `gen/gen.toml` (with valid names) into the subtasks and the
/// testcases of the task, given the output generator of the task and the source files found for
/// each generator and validator name. Testcases are numbered in order (samples, then groups, then
/// subtasks); a subtask has the testcases of the groups it reaches through inclusions and owns
/// those that no earlier subtask has; every testcase must belong to some subtask.
pub fn resolve(
    cfg: &GenConfig,
    task_name: &str,
    output_generator: &OutputGenerator,
    generators: &Vec<(String, Vec<SourceFile>)>,
    validators: &Vec<(String, Vec<SourceFile>)>,
) -> (res: Result<(Vec<SubtaskInfo>, Vec<TestcaseInfo>), GenTomlError>)
    requires
        plans(*cfg, task_name@).len() <= u32::MAX,
        cfg.subtask@.len() <= u32::MAX,
        stops_before_undeclared(*cfg, layout(*cfg, task_name@), generators@, validators@),
        names_distinct(*cfg),
    ensures
        res is Ok <==> (testcases_clean(layout(*cfg, task_name@), generators@)
            && subtasks_clean(*cfg, layout(*cfg, task_name@), validators@)
            && all_used(*cfg, layout(*cfg, task_name@))),
        res matches Ok((subs, tcs)) ==> {
            let l = layout(*cfg, task_name@);
            &&& tcs@.len() == l.plans.len()
            &&& forall|i: int| 0 <= i < tcs@.len() ==> testcase_ok(#[trigger] tcs@[i], i as nat, l.plans[i], generators@, output_generator@)
            &&& forall|i: int| 0 <= i < tcs@.len() ==> (#[trigger] tcs@[i]).id == i
            &&& forall|i: int| 0 <= i < cfg.samples.num_spec() ==>
                (#[trigger] tcs@[i]).input_generator@ == CommandView::File(cfg.samples.path_spec(task_name@, i as nat))
            &&& subs@.len() == cfg.subtask@.len()
            &&& forall|k: int| 0 <= k < subs@.len() ==> subtask_ok(#[trigger] subs@[k], k, *cfg, l, validators@)
        },
        res matches Err(e) ==> resolution_error_ok(*cfg, layout(*cfg, task_name@), generators@, validators@, e),
{
    let ghost l = layout(*cfg, task_name@);
    let plan_list = list_plans(cfg, task_name);
    let table = build_group_table(cfg, task_name, &plan_list);
    let testcases = match make_testcases(&plan_list, output_generator, generators) {
        Ok(v) => v,
        Err((i, cause)) => {
            proof {
                assert(plan_list@[i as int]@ == l.plans[i as int]);
                assert forall|j: int| 0 <= j < i implies plan_issue(#[trigger] l.plans[j], j as nat, generators@) is None by {
                    assert(plan_list@[j]@ == l.plans[j]);
                }
            }
            return Err(GenTomlError::Testcase { index: plan_list[i].index, group: plan_list[i].group.clone(), cause });
        },
    };
    proof {
        assert forall|i: int| 0 <= i < l.plans.len() implies plan_issue(#[trigger] l.plans[i], i as nat, generators@) is None by {
            assert(plan_list@[i]@ == l.plans[i]);
        }
    }
    let n = plan_list.len();
    let mut owner: Vec<bool> = Vec::new();
    let mut i: usize = 0;
    while i < n
        invariant
            i <= n,
            owner@.len() == i,
            forall|a: int| 0 <= a < i ==> !owner@[a],
        decreases n - i,
    {
        owner.push(false);
        i += 1;
    }
    let mut subtasks: Vec<SubtaskInfo> = Vec::new();
    let ns = cfg.subtask.len();
    let mut k: usize = 0;
    while k < ns
        invariant
            l == layout(*cfg, task_name@),
            plan_views(plan_list@) == l.plans,
            n == l.plans.len(),
            n <= u32::MAX,
            ns == cfg.subtask@.len(),
            ns <= u32::MAX,
            table_ok(table@, l),
            testcases_clean(l, generators@),
            k <= ns,
            subtasks@.len() == k,
            owner@.len() == n,
            forall|i: int| 0 <= i < n ==> (owner@[i] <==> owned_before(*cfg, l, k as int, i as u32)),
            forall|k2: int| 0 <= k2 < k ==> subtask_clean(*cfg, l, validators@, k2),
            forall|k2: int| 0 <= k2 < k ==> subtask_ok(#[trigger] subtasks@[k2], k2, *cfg, l, validators@),
        decreases ns - k,
    {
        match make_subtask(cfg, k, &table, &mut owner, validators, Ghost(l)) {
            Ok(st) => {
                subtasks.push(st);
            },
            Err(e) => {
                proof {
                    assert(subtask_error_ok(*cfg, l, validators@, k as int, e));
                }
                return Err(e);
            },
        }
        k += 1;
    }
    let mut t: usize = 0;
    while t < n
        invariant
            l == layout(*cfg, task_name@),
            plan_views(plan_list@) == l.plans,
            n == l.plans.len(),
            n <= u32::MAX,
            ns == cfg.subtask@.len(),
            owner@.len() == n,
            forall|i: int| 0 <= i < n ==> (owner@[i] <==> owned_before(*cfg, l, ns as int, i as u32)),
            t <= n,
            forall|a: int| 0 <= a < t ==> owner@[a],
            testcases_clean(l, generators@),
            subtasks_clean(*cfg, l, validators@),
        decreases n - t,
    {
        if !owner[t] {
            proof {
                assert(plan_list@[t as int]@ == l.plans[t as int]);
            }
            return Err(GenTomlError::UnusedTestcase { testcase: t as u32, group: plan_list[t].group.clone() });
        }
        t += 1;
    }
    proof {
        assert forall|tt: u32| (tt as int) < l.plans.len() implies owned_before(*cfg, l, cfg.subtask@.len() as int, tt) by {
            assert(owner@[tt as int]);
            assert((tt as int) as u32 == tt);
        }
        assert forall|i: int| 0 <= i < cfg.samples.num_spec() implies
            (#[trigger] testcases@[i]).input_generator@ == CommandView::File(cfg.samples.path_spec(task_name@, i as nat)) by {
            let sp = sample_plans(*cfg, task_name@);
            assert(l.plans[i] == sp[i]);
            assert(testcase_ok(testcases@[i], i as nat, l.plans[i], generators@, output_generator@));
        }
    }
    Ok((subtasks, testcases))
}

} // verus!

verus! {

/// The first subtask, in order, that reaches through inclusions a group that has testcases but
/// was never declared (named only as the other group of some testcases), if there is one.
pub fn first_undeclared_subtask(cfg: &GenConfig, task_name: &str) -> (res: Option<usize>)
    requires
        plans(*cfg, task_name@).len() <= u32::MAX,
    ensures
        res is None <==> no_undeclared_reached(*cfg, layout(*cfg, task_name@)),
        res matches Some(k) ==> k < cfg.subtask@.len() && reaches_undeclared(*cfg, layout(*cfg, task_name@), k as int)
            && forall|k0: int| 0 <= k0 < k ==> !reaches_undeclared(*cfg, layout(*cfg, task_name@), k0),
{
    let ghost l = layout(*cfg, task_name@);
    let plan_list = list_plans(cfg, task_name);
    let table = build_group_table(cfg, task_name, &plan_list);
    let ns = cfg.subtask.len();
    let mut k: usize = 0;
    while k < ns
        invariant
            l == layout(*cfg, task_name@),
            table_ok(table@, l),
            ns == cfg.subtask@.len(),
            k <= ns,
            forall|k2: int, x: Seq<char>| 0 <= k2 < k && #[trigger] reachable(l, subtask_name_at(*cfg, k2), x)
                && x != wildcard() && known_group(l, x) ==> declared_group(l, x),
        decreases ns - k,
    {
        let name = &cfg.subtask[k].0;
        let reach = explore(&table, name.as_str(), Ghost(l));
        let ghost rv = string_views(reach@);
        let mut r: usize = 0;
        while r < reach.len()
            invariant
                l == layout(*cfg, task_name@),
                ns == cfg.subtask@.len(),
                k < ns,
                name@ == subtask_name_at(*cfg, k as int),
                table_ok(table@, l),
                rv == string_views(reach@),
                forall|x: Seq<char>| rv.contains(x) <==> reachable(l, name@, x),
                r <= reach@.len(),
                forall|a: int| 0 <= a < r ==> (rv[a] != wildcard() && known_group(l, rv[a]) ==> declared_group(l, rv[a])),
                forall|k2: int, x: Seq<char>| 0 <= k2 < k && #[trigger] reachable(l, subtask_name_at(*cfg, k2), x)
                    && x != wildcard() && known_group(l, x) ==> declared_group(l, x),
            decreases reach@.len() - r,
        {
            let x = &reach[r];
            proof { assert(rv[r as int] == x@); }
            if !crate::text::str_eq(x.as_str(), "*") {
                match find_group(&table, x.as_str()) {
                    Some(j) => {
                        if table[j].inclusions.is_none() {
                            proof {
                                assert(rv.contains(x@));
                                assert(known_group(l, x@));
                                assert(!declared_group(l, x@));
                                assert(k < cfg.subtask@.len());
                                assert(reachable(l, subtask_name_at(*cfg, k as int), x@));
                                assert(reaches_undeclared(*cfg, l, k as int));
                                assert forall|k0: int| 0 <= k0 < k implies !reaches_undeclared(*cfg, l, k0) by {
                                    if reaches_undeclared(*cfg, l, k0) {
                                        let y = choose|y: Seq<char>| #[trigger] reachable(l, subtask_name_at(*cfg, k0), y)
                                            && y != wildcard() && known_group(l, y) && !declared_group(l, y);
                                    }
                                }
                            }
                            return Some(k);
                        }
                    },
                    None => {
                        proof {
                            assert(!known_group(l, x@)) by {
                                if known_group(l, x@) {
                                    let a = choose|a: int| 0 <= a < table@.len() && (#[trigger] table@[a]).name@ == x@;
                                    assert(table@[a].name@ != x@);
                                }
                            }
                        }
                    },
                }
            }
            r += 1;
        }
        proof {
            assert forall|x: Seq<char>| #[trigger] reachable(l, subtask_name_at(*cfg, k as int), x)
                && x != wildcard() && known_group(l, x) implies declared_group(l, x) by {
                assert(rv.contains(x));
                let a = choose|a: int| 0 <= a < rv.len() && rv[a] == x;
            }
        }
        k += 1;
    }
    None
}

/// Whether the validator of the subtask at position `k` can be made: its arguments name usable
/// constants and its source is found.
fn validator_can_be_made(cfg: &GenConfig, k: usize, vals: &Vec<(String, Vec<SourceFile>)>) -> (res: bool)
    requires
        k < cfg.subtask@.len(),
    ensures
        res == !validator_fails(*cfg, vals@, k as int),
{
    let name = &cfg.subtask[k].0;
    let st = &cfg.subtask[k].1;
    let mut vars = copy_bindings(&cfg.constants);
    let local = copy_bindings(&st.group.local_constants);
    let mut m: usize = 0;
    while m < local.len()
        invariant
            vars@ == cfg.constants@ + local@.take(m as int),
            m <= local@.len(),
        decreases local@.len() - m,
    {
        vars.push((local[m].0.clone(), local[m].1.copy()));
        proof { assert(vars@ =~= cfg.constants@ + local@.take(m + 1)); }
        m += 1;
    }
    proof { assert(local@.take(m as int) =~= local@); }
    vars.push(("SUBTASK_NAME#".to_owned(), ConstValue::Text(name.clone())));
    vars.push(("FILENAME#".to_owned(), ConstValue::Text(TM_VALIDATION_FILE_NAME.to_owned())));
    proof {
        assert(binding_views(vars@) =~= validator_bindings(*cfg, k as int));
    }
    let args = match &st.validator_args {
        Some(a) => a.instantiate(&vars),
        None => cfg.validator_args.instantiate(&vars),
    };
    if args.is_err() {
        return false;
    }
    let vname: &str = match &st.validator {
        Some(v) => v.as_str(),
        None => cfg.validator.as_str(),
    };
    choose_source(vname, candidates_for(vals, vname)).is_ok()
}

/// Whether the resolution of the description would walk into a group that has testcases but was
/// never declared, where the program stops: some subtask reaches such a group, all the testcases
/// can be made, and so can the subtasks before the first one that reaches it and its validator.
pub fn stops_at_undeclared_group(
    cfg: &GenConfig,
    task_name: &str,
    output_generator: &OutputGenerator,
    generators: &Vec<(String, Vec<SourceFile>)>,
    validators: &Vec<(String, Vec<SourceFile>)>,
) -> (res: bool)
    requires
        plans(*cfg, task_name@).len() <= u32::MAX,
        cfg.subtask@.len() <= u32::MAX,
    ensures
        res == !stops_before_undeclared(*cfg, layout(*cfg, task_name@), generators@, validators@),
{
    let ghost l = layout(*cfg, task_name@);
    let first = match first_undeclared_subtask(cfg, task_name) {
        None => {
            return false;
        },
        Some(k) => k,
    };
    let plan_list = list_plans(cfg, task_name);
    let table = build_group_table(cfg, task_name, &plan_list);
    match make_testcases(&plan_list, output_generator, generators) {
        Ok(_) => {},
        Err((i, cause)) => {
            proof {
                assert(plan_list@[i as int]@ == l.plans[i as int]);
                assert(!testcases_clean(l, generators@));
            }
            return false;
        },
    }
    proof {
        assert forall|i: int| 0 <= i < l.plans.len() implies plan_issue(#[trigger] l.plans[i], i as nat, generators@) is None by {
            assert(plan_list@[i]@ == l.plans[i]);
        }
    }
    let n = plan_list.len();
    let mut owner: Vec<bool> = Vec::new();
    let mut i: usize = 0;
    while i < n
        invariant
            i <= n,
            owner@.len() == i,
            forall|a: int| 0 <= a < i ==> !owner@[a],
        decreases n - i,
    {
        owner.push(false);
        i += 1;
    }
    let mut k: usize = 0;
    while k < first
        invariant
            l == layout(*cfg, task_name@),
            plan_views(plan_list@) == l.plans,
            n == l.plans.len(),
            n <= u32::MAX,
            first < cfg.subtask@.len(),
            cfg.subtask@.len() <= u32::MAX,
            table_ok(table@, l),
            k <= first,
            owner@.len() == n,
            forall|i: int| 0 <= i < n ==> (owner@[i] <==> owned_before(*cfg, l, k as int, i as u32)),
            forall|k2: int| 0 <= k2 < k ==> subtask_clean(*cfg, l, validators@, k2),
            reaches_undeclared(*cfg, l, first as int),
            forall|k0: int| 0 <= k0 < first ==> !reaches_undeclared(*cfg, l, k0),
            testcases_clean(l, generators@),
        decreases first - k,
    {
        match make_subtask(cfg, k, &table, &mut owner, validators, Ghost(l)) {
            Ok(_) => {},
            Err(_) => {
                proof {
                    assert(!subtask_clean(*cfg, l, validators@, k as int));
                    assert(stops_before_undeclared(*cfg, l, generators@, validators@)) by {
                        assert(reaches_undeclared(*cfg, l, first as int));
                    }
                }
                return false;
            },
        }
        k += 1;
    }
    let ok = validator_can_be_made(cfg, first, validators);
    proof {
        if !ok {
            assert(reaches_undeclared(*cfg, l, first as int));
        } else {
            assert(testcases_clean(l, generators@));
            assert(!no_undeclared_reached(*cfg, l)) by {
                let y = choose|y: Seq<char>| #[trigger] reachable(l, subtask_name_at(*cfg, first as int), y)
                    && y != wildcard() && known_group(l, y) && !declared_group(l, y);
            }
            if exists|kk: int| 0 <= kk < cfg.subtask@.len() && #[trigger] reaches_undeclared(*cfg, l, kk)
                && (forall|k0: int| 0 <= k0 < kk ==> !reaches_undeclared(*cfg, l, k0))
                && ((exists|k2: int| 0 <= k2 < kk && !subtask_clean(*cfg, l, validators@, k2)) || validator_fails(*cfg, validators@, kk)) {
                let kk = choose|kk: int| 0 <= kk < cfg.subtask@.len() && #[trigger] reaches_undeclared(*cfg, l, kk)
                    && (forall|k0: int| 0 <= k0 < kk ==> !reaches_undeclared(*cfg, l, k0))
                    && ((exists|k2: int| 0 <= k2 < kk && !subtask_clean(*cfg, l, validators@, k2)) || validator_fails(*cfg, validators@, kk));
                assert(kk == first as int) by {
                    if kk < first as int {
                        assert(!reaches_undeclared(*cfg, l, kk));
                    } else if kk > first as int {
                        assert(!reaches_undeclared(*cfg, l, first as int));
                    }
                }
            }
        }
    }
    ok
}

/// The name of a group or subtask once validated: without its surrounding whitespace, in Unicode
/// normalization form KC.
pub open spec fn clean_name(s: Seq<char>) -> Seq<char> {
    crate::subtask_name::nfkc(crate::words::trimmed(s))
}

/// The name is valid.
pub open spec fn name_valid(s: Seq<char>) -> bool {
    crate::subtask_name::name_problem(clean_name(s)) is None
}

/// `e` tells why the name `s` is not valid.
pub open spec fn name_error_ok(s: Seq<char>, e: GenTomlError) -> bool {
    e matches GenTomlError::InvalidName(n) && n.name@ == crate::words::trimmed(s)
        && crate::subtask_name::name_problem(clean_name(s)) == Some(n.problem)
}

/// Validates and normalizes the names of a list of groups; the error is that of the first
/// invalid name.
fn clean_list<T>(v: Vec<(String, T)>) -> (res: Result<Vec<(String, T)>, GenTomlError>)
    ensures
        res is Ok <==> forall|j: int| 0 <= j < v@.len() ==> name_valid(#[trigger] v@[j].0@),
        res matches Ok(c) ==> c@.len() == v@.len() && forall|j: int| 0 <= j < v@.len()
            ==> (#[trigger] c@[j]).0@ == clean_name(v@[j].0@) && c@[j].1 == v@[j].1,
        res matches Err(e) ==> exists|j: int| 0 <= j < v@.len() && !name_valid(#[trigger] v@[j].0@)
            && (forall|i: int| 0 <= i < j ==> name_valid(#[trigger] v@[i].0@)) && name_error_ok(v@[j].0@, e),
{
    let ghost orig = v@;
    let n = v.len();
    let mut rest = v;
    let mut out: Vec<(String, T)> = Vec::new();
    let mut i: usize = 0;
    while i < n
        invariant
            orig == v@,
            n == orig.len(),
            i <= n,
            rest@ == orig.skip(i as int),
            out@.len() == i,
            forall|j: int| 0 <= j < i ==> name_valid(#[trigger] orig[j].0@),
            forall|j: int| 0 <= j < i ==> (#[trigger] out@[j]).0@ == clean_name(orig[j].0@) && out@[j].1 == orig[j].1,
        decreases n - i,
    {
        let (name, value) = rest.remove(0);
        proof {
            assert(orig[i as int] == (name, value));
            assert(rest@ =~= orig.skip(i + 1));
        }
        match crate::subtask_name::cleanup_subtask_name(name.as_str()) {
            Ok(c) => {
                out.push((c, value));
            },
            Err(e) => {
                proof {
                    assert(!name_valid(orig[i as int].0@));
                }
                return Err(GenTomlError::InvalidName(e));
            },
        }
        i += 1;
    }
    Ok(out)
}

impl GenConfig {
    /// Validates the names of the groups and of the subtasks and returns the configuration with
    /// the names normalized; the error is that of the first invalid name, groups first.
    pub fn clean_names(self) -> (res: Result<GenConfig, GenTomlError>)
        ensures
            res is Ok <==> (forall|j: int| 0 <= j < self.group@.len() ==> name_valid(#[trigger] self.group@[j].0@))
                && (forall|j: int| 0 <= j < self.subtask@.len() ==> name_valid(#[trigger] self.subtask@[j].0@)),
            res matches Ok(c) ==> {
                &&& c.generator == self.generator
                &&& c.validator == self.validator
                &&& c.validator_args == self.validator_args
                &&& c.samples == self.samples
                &&& c.constants == self.constants
                &&& c.group@.len() == self.group@.len()
                &&& forall|j: int| 0 <= j < c.group@.len() ==> (#[trigger] c.group@[j]).0@ == clean_name(self.group@[j].0@)
                    && c.group@[j].1 == self.group@[j].1
                &&& c.subtask@.len() == self.subtask@.len()
                &&& forall|j: int| 0 <= j < c.subtask@.len() ==> (#[trigger] c.subtask@[j]).0@ == clean_name(self.subtask@[j].0@)
                    && c.subtask@[j].1 == self.subtask@[j].1
            },
            res matches Err(e) ==> (exists|j: int| 0 <= j < self.group@.len() && !name_valid(#[trigger] self.group@[j].0@)
                && (forall|i: int| 0 <= i < j ==> name_valid(#[trigger] self.group@[i].0@)) && name_error_ok(self.group@[j].0@, e))
                || ((forall|i: int| 0 <= i < self.group@.len() ==> name_valid(#[trigger] self.group@[i].0@))
                && exists|j: int| 0 <= j < self.subtask@.len() && !name_valid(#[trigger] self.subtask@[j].0@)
                && (forall|i: int| 0 <= i < j ==> name_valid(#[trigger] self.subtask@[i].0@)) && name_error_ok(self.subtask@[j].0@, e)),
    {
        let GenConfig { generator, validator, validator_args, samples, group, subtask, constants } = self;
        let group = match clean_list(group) {
            Ok(g) => g,
            Err(e) => {
                return Err(e);
            },
        };
        let subtask = match clean_list(subtask) {
            Ok(s) => s,
            Err(e) => {
                return Err(e);
            },
        };
        Ok(GenConfig { generator, validator, validator_args, samples, group, subtask, constants })
    }
}

} // verus!

verus! {

/// The names of the generators used by the planned testcases: the programs to look for before
/// resolving the description.
pub fn generator_names(cfg: &GenConfig, task_name: &str) -> (res: Vec<String>)
    requires
        plans(*cfg, task_name@).len() <= u32::MAX,
    ensures
        forall|i: int| 0 <= i < plans(*cfg, task_name@).len() ==> match (#[trigger] plans(*cfg, task_name@)[i]).source {
            SourceView::Generated { generator, .. } => string_views(res@).contains(generator),
            SourceView::Static(_) => true,
        },
{
    let plan_list = list_plans(cfg, task_name);
    let ghost ps = plans(*cfg, task_name@);
    let mut out: Vec<String> = Vec::new();
    let mut i: usize = 0;
    while i < plan_list.len()
        invariant
            plan_views(plan_list@) == ps,
            i <= plan_list@.len(),
            forall|a: int| 0 <= a < i ==> match (#[trigger] ps[a]).source {
                SourceView::Generated { generator, .. } => string_views(out@).contains(generator),
                SourceView::Static(_) => true,
            },
        decreases plan_list@.len() - i,
    {
        proof { assert(plan_list@[i as int]@ == ps[i as int]); }
        match &plan_list[i].source {
            PlanSource::Generated { generator, .. } => {
                if !contains_name(&out, generator.as_str()) {
                    let ghost before = string_views(out@);
                    out.push(generator.clone());
                    proof {
                        assert(string_views(out@) =~= before.push(generator@));
                        assert(string_views(out@)[before.len() as int] == generator@);
                        assert forall|x: Seq<char>| before.contains(x) implies string_views(out@).contains(x) by {
                            let a = choose|a: int| 0 <= a < before.len() && before[a] == x;
                            assert(string_views(out@)[a] == x);
                        }
                    }
                }
            },
            PlanSource::Static(_) => {},
        }
        i += 1;
    }
    out
}

/// The names of the validators of the subtasks: the programs to look for before resolving the
/// description.
pub fn validator_names(cfg: &GenConfig) -> (res: Vec<String>)
    ensures
        forall|k: int| 0 <= k < cfg.subtask@.len() ==> string_views(res@).contains(#[trigger] validator_name(*cfg, k)),
{
    let mut out: Vec<String> = Vec::new();
    let mut k: usize = 0;
    while k < cfg.subtask.len()
        invariant
            k <= cfg.subtask@.len(),
            forall|a: int| 0 <= a < k ==> string_views(out@).contains(#[trigger] validator_name(*cfg, a)),
        decreases cfg.subtask@.len() - k,
    {
        let v: &String = match &cfg.subtask[k].1.validator {
            Some(v) => v,
            None => &cfg.validator,
        };
        if !contains_name(&out, v.as_str()) {
            let ghost before = string_views(out@);
            out.push(v.clone());
            proof {
                assert(string_views(out@) =~= before.push(v@));
                assert(string_views(out@)[before.len() as int] == v@);
                assert forall|x: Seq<char>| before.contains(x) implies string_views(out@).contains(x) by {
                    let a = choose|a: int| 0 <= a < before.len() && before[a] == x;
                    assert(string_views(out@)[a] == x);
                }
            }
        }
        k += 1;
    }
    out
}

/// Some subtask among the first `n` has the testcase: then there is a first one.
proof fn lemma_first_owner(cfg: GenConfig, l: Layout, t: u32, n: int)
    requires
        owned_before(cfg, l, n, t),
    ensures
        exists|k: int| 0 <= k < n && #[trigger] multiplicity(l, subtask_name_at(cfg, k), t) > 0 && !owned_before(cfg, l, k, t),
    decreases n,
{
    let k2 = choose|k2: int| 0 <= k2 < n && #[trigger] multiplicity(l, subtask_name_at(cfg, k2), t) > 0;
    if owned_before(cfg, l, n - 1, t) {
        lemma_first_owner(cfg, l, t, n - 1);
        let k = choose|k: int| 0 <= k < n - 1 && #[trigger] multiplicity(l, subtask_name_at(cfg, k), t) > 0 && !owned_before(cfg, l, k, t);
        assert(0 <= k < n);
    } else {
        assert(k2 == n - 1) by {
            if k2 < n - 1 {
                assert(owned_before(cfg, l, n - 1, t));
            }
        }
        assert(multiplicity(l, subtask_name_at(cfg, n - 1), t) > 0 && !owned_before(cfg, l, n - 1, t));
    }
}

/// Once a description is resolved, every testcase is owned by exactly one subtask, the first
/// one that has it, and a subtask owns only testcases it has.
pub proof fn lemma_ownership_partition(
    cfg: GenConfig,
    l: Layout,
    vals: Seq<(String, Vec<SourceFile>)>,
    subs: Seq<SubtaskInfo>,
    t: u32,
)
    requires
        subs.len() == cfg.subtask@.len(),
        forall|k: int| 0 <= k < subs.len() ==> subtask_ok(#[trigger] subs[k], k, cfg, l, vals),
        all_used(cfg, l),
        (t as int) < l.plans.len(),
    ensures
        exists|k: int| 0 <= k < subs.len()
            && crate::sorting::count_of((#[trigger] subs[k]).testcases_owned@, t) == 1
            && crate::sorting::count_of(subs[k].testcases@, t) > 0
            && (forall|k2: int| 0 <= k2 < k ==> crate::sorting::count_of((#[trigger] subs[k2]).testcases@, t) == 0)
            && (forall|k2: int| 0 <= k2 < subs.len() && k2 != k ==> crate::sorting::count_of((#[trigger] subs[k2]).testcases_owned@, t) == 0),
        forall|k: int| 0 <= k < subs.len() && crate::sorting::count_of((#[trigger] subs[k]).testcases_owned@, t) > 0
            ==> crate::sorting::count_of(subs[k].testcases@, t) > 0,
{
    let n = subs.len() as int;
    assert(owned_before(cfg, l, n, t));
    lemma_first_owner(cfg, l, t, n);
    let k = choose|k: int| 0 <= k < n && #[trigger] multiplicity(l, subtask_name_at(cfg, k), t) > 0 && !owned_before(cfg, l, k, t);
    assert(subtask_ok(subs[k], k, cfg, l, vals));
    assert(crate::sorting::count_of(subs[k].testcases_owned@, t) == 1);
    assert forall|k2: int| 0 <= k2 < k implies crate::sorting::count_of((#[trigger] subs[k2]).testcases@, t) == 0 by {
        assert(subtask_ok(subs[k2], k2, cfg, l, vals));
        if multiplicity(l, subtask_name_at(cfg, k2), t) > 0 {
            assert(owned_before(cfg, l, k, t));
        }
    }
    assert forall|k2: int| 0 <= k2 < subs.len() && k2 != k implies crate::sorting::count_of((#[trigger] subs[k2]).testcases_owned@, t) == 0 by {
        assert(subtask_ok(subs[k2], k2, cfg, l, vals));
        if k2 < k {
            if multiplicity(l, subtask_name_at(cfg, k2), t) > 0 {
                assert(owned_before(cfg, l, k, t));
            }
        } else {
            assert(owned_before(cfg, l, k2, t));
        }
    }
    assert forall|k3: int| 0 <= k3 < subs.len() && crate::sorting::count_of((#[trigger] subs[k3]).testcases_owned@, t) > 0
        implies crate::sorting::count_of(subs[k3].testcases@, t) > 0 by {
        assert(subtask_ok(subs[k3], k3, cfg, l, vals));
    }
}

} // verus!

verus! {

/// The position of the first entry named `k`, or -1.
pub open spec fn key_pos<T>(m: Seq<(String, T)>, k: Seq<char>) -> int
    decreases m.len(),
{
    if m.len() == 0 {
        -1
    } else if key_pos(m.drop_last(), k) >= 0 {
        key_pos(m.drop_last(), k)
    } else if m.last().0@ == k {
        m.len() - 1
    } else {
        -1
    }
}

/// A map kept in the order of insertion, after inserting `e`: an entry with the same name takes
/// its value and keeps its place, otherwise `e` goes at the end.
pub open spec fn index_insert<T>(m: Seq<(String, T)>, e: (String, T)) -> Seq<(String, T)> {
    let p = key_pos(m, e.0@);
    if p >= 0 {
        m.update(p, e)
    } else {
        m.push(e)
    }
}

/// The map, kept in the order of insertion, made of the entries in order.
pub open spec fn index_collect<T>(items: Seq<(String, T)>) -> Seq<(String, T)>
    decreases items.len(),
{
    if items.len() == 0 {
        Seq::empty()
    } else {
        index_insert(index_collect(items.drop_last()), items.last())
    }
}

/// No two entries have the same name.
pub open spec fn keys_distinct<T>(m: Seq<(String, T)>) -> bool {
    forall|i: int, j: int| 0 <= i < j < m.len() ==> m[i].0@ != m[j].0@
}

/// The names of the groups, and those of the subtasks, are distinct.
pub open spec fn names_distinct(cfg: GenConfig) -> bool {
    keys_distinct(cfg.group@) && keys_distinct(cfg.subtask@)
}

/// `key_pos` is the first position of the name, or -1 when no entry has it.
proof fn lemma_key_pos<T>(m: Seq<(String, T)>, k: Seq<char>)
    ensures
        -1 <= key_pos(m, k) < m.len(),
        key_pos(m, k) >= 0 ==> m[key_pos(m, k)].0@ == k,
        forall|j: int| 0 <= j < m.len() && (key_pos(m, k) < 0 || j < key_pos(m, k)) ==> (#[trigger] m[j]).0@ != k,
    decreases m.len(),
{
    if m.len() > 0 {
        lemma_key_pos(m.drop_last(), k);
        assert forall|j: int| 0 <= j < m.len() - 1 implies #[trigger] m[j] == m.drop_last()[j] by {}
    }
}

/// The entries with their names merged as a map kept in the order of insertion does it: each
/// name keeps the place of its first entry and takes the value of its last one.
fn merge_entries<T>(items: Vec<(String, T)>) -> (res: Vec<(String, T)>)
    ensures
        res@ == index_collect(items@),
        keys_distinct(res@),
{
    let ghost all = items@;
    let mut rest = items;
    let mut out: Vec<(String, T)> = Vec::new();
    let n = rest.len();
    let mut i: usize = 0;
    proof {
        assert(all.take(0) =~= Seq::<(String, T)>::empty());
        assert(all.skip(0) =~= all);
    }
    while i < n
        invariant
            n == all.len(),
            i <= n,
            rest@ == all.skip(i as int),
            out@ == index_collect(all.take(i as int)),
            keys_distinct(out@),
        decreases n - i,
    {
        let e = rest.remove(0);
        proof {
            assert(e == all[i as int]);
            assert(rest@ =~= all.skip(i + 1));
            assert(all.take(i + 1).drop_last() =~= all.take(i as int));
            assert(all.take(i + 1).last() == e);
            lemma_key_pos(out@, e.0@);
        }
        let mut p: usize = 0;
        while p < out.len() && !str_eq(out[p].0.as_str(), e.0.as_str())
            invariant
                p <= out@.len(),
                forall|j: int| 0 <= j < p ==> (#[trigger] out@[j]).0@ != e.0@,
            decreases out@.len() - p,
        {
            p += 1;
        }
        let ghost before = out@;
        if p < out.len() {
            proof {
                assert(key_pos(before, e.0@) == p as int) by {
                    if key_pos(before, e.0@) < 0 || p < key_pos(before, e.0@) {
                        assert(before[p as int].0@ != e.0@);
                    }
                }
            }
            out.set(p, e);
            proof {
                assert(out@ == index_insert(before, all[i as int]));
                assert forall|a: int, b: int| 0 <= a < b < out@.len() implies out@[a].0@ != out@[b].0@ by {
                    if a != p && b != p {
                        assert(out@[a] == before[a] && out@[b] == before[b]);
                    } else if a == p {
                        assert(out@[b] == before[b]);
                    } else {
                        assert(out@[a] == before[a]);
                    }
                }
            }
        } else {
            proof {
                assert(key_pos(before, e.0@) < 0) by {
                    if key_pos(before, e.0@) >= 0 {
                        assert(before[key_pos(before, e.0@)].0@ == e.0@);
                    }
                }
            }
            out.push(e);
            proof {
                assert(out@ == index_insert(before, all[i as int]));
                assert forall|a: int, b: int| 0 <= a < b < out@.len() implies out@[a].0@ != out@[b].0@ by {
                    if b < before.len() {
                        assert(out@[a] == before[a] && out@[b] == before[b]);
                    } else {
                        assert(out@[a] == before[a]);
                    }
                }
            }
        }
        i += 1;
    }
    proof {
        assert(all.take(n as int) =~= all);
    }
    out
}

impl GenConfig {
    /// The configuration with the groups, and the subtasks, merged by name as maps kept in the
    /// order of insertion merge them: each name keeps the place of its first entry and takes the
    /// value of its last one. Two names that were different may become equal once normalized.
    pub fn merge_names(self) -> (res: GenConfig)
        ensures
            res.group@ == index_collect(self.group@),
            res.subtask@ == index_collect(self.subtask@),
            names_distinct(res),
            res.generator == self.generator,
            res.validator == self.validator,
            res.validator_args == self.validator_args,
            res.samples == self.samples,
            res.constants == self.constants,
    {
        let GenConfig { generator, validator, validator_args, samples, group, subtask, constants } = self;
        let group = merge_entries(group);
        let subtask = merge_entries(subtask);
        GenConfig { generator, validator, validator_args, samples, group, subtask, constants }
    }
}

} // verus!

verus! {

/// The value found for a name is that of its last binding.
proof fn lemma_lookup_last(vars: Seq<(Seq<char>, ConstView)>, x: Seq<char>, j: int)
    requires
        0 <= j < vars.len(),
        vars[j].0 == x,
        forall|j2: int| j < j2 < vars.len() ==> (#[trigger] vars[j2]).0 != x,
    ensures
        crate::gen_toml::lookup(vars, x) == Some(vars[j].1),
    decreases vars.len(),
{
    if j < vars.len() - 1 {
        assert(vars.last() == vars[vars.len() - 1]);
        lemma_lookup_last(vars.drop_last(), x, j);
    }
}

/// A generated testcase of a group that binds a name locally gets, for an argument `$name`, the
/// value the group binds (its last binding of that name), whatever the global constants bind.
pub proof fn law_local_constants_override(
    cfg: GenConfig,
    name: Seq<char>,
    g: GroupConfig,
    k: int,
    id: nat,
    x: Seq<char>,
    v: Seq<char>,
    j: int,
)
    requires
        0 <= k < expand_repeats(testcase_views(g.testcases@), g.repeat).len(),
        x != "#"@,
        0 <= j < g.local_constants@.len(),
        g.local_constants@[j].0@ == x,
        g.local_constants@[j].1@ == ConstView::Text(v),
        forall|j2: int| j < j2 < g.local_constants@.len() ==> (#[trigger] g.local_constants@[j2]).0@ != x,
    ensures
        generated_plan(cfg, name, g, k).source matches SourceView::Generated { bindings, .. }
            && crate::gen_toml::map_arg(seq!['$'] + x, bindings.push(id_binding(id))) == Ok::<Seq<char>, ArgIssue>(v),
{
    let b = group_bindings(cfg, g);
    let all = b.push(id_binding(id));
    let c = binding_views(cfg.constants@).len();
    let pos = c + j;
    assert(all[pos] == binding_views(g.local_constants@)[j]);
    assert forall|j2: int| pos < j2 < all.len() implies (#[trigger] all[j2]).0 != x by {
        if j2 < all.len() - 1 {
            assert(all[j2] == binding_views(g.local_constants@)[j2 - c]);
        } else {
            reveal_strlit("#");
            assert(all[j2] == id_binding(id));
        }
    }
    lemma_lookup_last(all, x, pos);
    assert((seq!['$'] + x).drop_first() =~= x);
}

} // verus!
