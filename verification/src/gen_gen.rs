//! The `gen/GEN` file: each line is a comment, an empty line, the start of a subtask (`#ST:`
//! followed by its score), a testcase copied from a static file (`#COPY:` followed by its path)
//! or a testcase generated by passing the whitespace-separated arguments of the line to the
//! generator. Everything after a `#` on a testcase line is a comment. If no `#ST:` line comes
//! before the first testcase, a single subtask worth 100 points is added.

use vstd::prelude::*;

use crate::words::string_views;

use crate::ioi::{
    input_validator_for, input_validator_spec, output_generator_spec, InputGenerator, OfficialOutput,
    SourceFile, SubtaskInfo, TaskInputEntry, TestcaseInfo,
};
use crate::text::{all_digits, decimal, is_digit, push_str, u64_to_string};
use crate::lexing::{find_char, first_index, lemma_first_index_range, is_blank, split_lines, to_chars, tokenize, tokens};

verus! {

/// A line of the `gen/GEN` file.
#[derive(Debug, Clone)]
pub enum GenLine {
    /// `#ST: score`: the start of a new subtask worth `score` points.
    Subtask(String),
    /// `#COPY: path`: a testcase whose input file is copied from `path`.
    Copy(String),
    /// A testcase generated passing these arguments to the generator.
    Command(Vec<String>),
    /// A comment.
    Comment,
    /// An empty line.
    Empty,
}

/// The content of a line of the `gen/GEN` file.
pub enum GenLineView {
    Subtask(Seq<char>),
    Copy(Seq<char>),
    Command(Seq<Seq<char>>),
    Comment,
    Empty,
}

impl View for GenLine {
    type V = GenLineView;

    open spec fn view(&self) -> GenLineView {
        match self {
            GenLine::Subtask(s) => GenLineView::Subtask(s@),
            GenLine::Copy(p) => GenLineView::Copy(p@),
            GenLine::Command(args) => GenLineView::Command(args@.map_values(|a: String| a@)),
            GenLine::Comment => GenLineView::Comment,
            GenLine::Empty => GenLineView::Empty,
        }
    }
}

/// A score: an integer, or an integer and a fractional part separated by a dot.
pub open spec fn is_score(t: Seq<char>) -> bool {
    ||| t.len() > 0 && all_digits(t)
    ||| exists|k: int| 0 < k < t.len() - 1 && #[trigger] t[k] == '.' && all_digits(t.take(k)) && all_digits(t.skip(k + 1))
}

/// The meaning of a line of the `gen/GEN` file.
///
/// The part before the first `#` holds the arguments of a generated testcase, if it has any.
/// Otherwise the line is empty, or the `#` starts either `ST:` followed by a score, or `COPY:`
/// followed by a path, or a comment.
pub open spec fn classify(line: Seq<char>) -> GenLineView {
    let h = first_index(line, '#');
    let args = tokens(line.take(h));
    let r = line.skip(h + 1);
    if args.len() > 0 {
        GenLineView::Command(args)
    } else if h >= line.len() {
        GenLineView::Empty
    } else if r.len() >= 3 && r.take(3) == seq!['S', 'T', ':'] && tokens(r.skip(3)).len() == 1
        && is_score(tokens(r.skip(3))[0]) {
        GenLineView::Subtask(tokens(r.skip(3))[0])
    } else if r.len() >= 5 && r.take(5) == seq!['C', 'O', 'P', 'Y', ':'] && tokens(r.skip(5)).len() == 1 {
        GenLineView::Copy(tokens(r.skip(5))[0])
    } else {
        GenLineView::Comment
    }
}

/// Whether a token is a score.
fn check_score(t: &String) -> (res: bool)
    ensures
        res == is_score(t@),
{
    let c = to_chars(t.as_str());
    let n = c.len();
    let k = find_char(&c, 0, n, '.');
    proof {
        assert(c@.subrange(0, n as int) =~= c@);
    }
    let mut i: usize = 0;
    let mut digits_before = true;
    while i < k
        invariant
            k <= n == c@.len(),
            i <= k,
            digits_before == forall|j: int| 0 <= j < i ==> is_digit(#[trigger] c@[j]),
        decreases k - i,
    {
        if !('0' <= c[i] && c[i] <= '9') {
            digits_before = false;
        }
        i += 1;
    }
    let mut j: usize = if k < n { k + 1 } else { n };
    let start = j;
    let mut digits_after = true;
    while j < n
        invariant
            start <= j <= n == c@.len(),
            digits_after == forall|m: int| start <= m < j ==> is_digit(#[trigger] c@[m]),
        decreases n - j,
    {
        if !('0' <= c[j] && c[j] <= '9') {
            digits_after = false;
        }
        j += 1;
    }
    proof {
        let t = c@;
        assert(forall|m: int| 0 <= m < k ==> t[m] != '.') by {
            assert forall|m: int| 0 <= m < k implies t[m] != '.' by {
                lemma_before_first(t, '.', m);
            }
        }
        if k < n {
            lemma_at_first(t, '.', k as int);
        }
    }
    if k == n {
        proof {
            if is_score(c@) && !(n > 0 && digits_before) {
                let kk = choose|kk: int| 0 < kk < c@.len() - 1 && #[trigger] c@[kk] == '.' && all_digits(c@.take(kk)) && all_digits(c@.skip(kk + 1));
                assert(c@[kk] != '.');
            }
            if n > 0 && digits_before {
                assert(all_digits(c@));
            }
        }
        n > 0 && digits_before
    } else {
        let res = k > 0 && k + 1 < n && digits_before && digits_after;
        proof {
            let t = c@;
            assert(!all_digits(t)) by {
                assert(!is_digit(t[k as int]));
            }
            if res {
                assert(all_digits(t.take(k as int)));
                assert forall|m: int| 0 <= m < t.skip(k + 1).len() implies is_digit(#[trigger] t.skip(k + 1)[m]) by {
                    assert(t.skip(k + 1)[m] == t[k + 1 + m]);
                }
                assert(t[k as int] == '.');
            }
            if is_score(t) {
                let kk = choose|kk: int| 0 < kk < t.len() - 1 && #[trigger] t[kk] == '.' && all_digits(t.take(kk)) && all_digits(t.skip(kk + 1));
                if kk > k {
                    assert(t.take(kk)[k as int] == '.');
                }
                if kk < k {
                    assert(t[kk] != '.');
                }
                assert(kk == k);
                assert forall|m: int| start <= m < n implies is_digit(#[trigger] t[m]) by {
                    assert(t.skip(k + 1)[m - k - 1] == t[m]);
                }
                assert forall|m: int| 0 <= m < k implies is_digit(#[trigger] t[m]) by {
                    assert(t.take(k as int)[m] == t[m]);
                }
            }
        }
        res
    }
}

proof fn lemma_before_first(t: Seq<char>, c: char, m: int)
    requires
        0 <= m < first_index(t, c),
        m < t.len(),
    ensures
        t[m] != c,
    decreases t.len(),
{
    if t.len() > 0 && t[0] != c && m > 0 {
        lemma_before_first(t.drop_first(), c, m - 1);
        assert(t.drop_first()[m - 1] == t[m]);
    }
}

proof fn lemma_at_first(t: Seq<char>, c: char, k: int)
    requires
        k == first_index(t, c),
        0 <= k < t.len(),
    ensures
        t[k] == c,
    decreases t.len(),
{
    if t.len() > 0 && t[0] != c {
        lemma_first_index_range(t.drop_first(), c);
        lemma_at_first(t.drop_first(), c, k - 1);
        assert(t.drop_first()[k - 1] == t[k]);
    }
}

/// Whether `chars[at..]` starts with `lit`.
fn has_prefix_at(chars: &Vec<char>, at: usize, hi: usize, lit: &Vec<char>) -> (res: bool)
    requires
        at <= hi <= chars@.len(),
    ensures
        res == (hi - at >= lit@.len() && chars@.subrange(at as int, hi as int).take(lit@.len() as int) == lit@),
{
    if hi - at < lit.len() {
        return false;
    }
    let mut i: usize = 0;
    while i < lit.len()
        invariant
            at <= hi <= chars@.len(),
            hi - at >= lit@.len(),
            i <= lit@.len(),
            forall|j: int| 0 <= j < i ==> chars@[at + j] == lit@[j],
        decreases lit@.len() - i,
    {
        if chars[at + i] != lit[i] {
            assert(chars@.subrange(at as int, hi as int).take(lit@.len() as int)[i as int] != lit@[i as int]);
            return false;
        }
        i += 1;
    }
    assert(chars@.subrange(at as int, hi as int).take(lit@.len() as int) =~= lit@);
    true
}

/// The meaning of the line `text[lo..hi]`, where `chars` are the characters of `text`.
fn classify_line(text: &str, chars: &Vec<char>, lo: usize, hi: usize) -> (res: GenLine)
    requires
        chars@ == text@,
        lo <= hi <= chars@.len(),
    ensures
        res@ == classify(chars@.subrange(lo as int, hi as int)),
{
    let ghost line = chars@.subrange(lo as int, hi as int);
    let hp = find_char(chars, lo, hi, '#');
    let args = tokenize(text, chars, lo, hp);
    proof {
        assert(line.take(hp - lo) =~= chars@.subrange(lo as int, hp as int));
    }
    if args.len() > 0 {
        return GenLine::Command(args);
    }
    if hp == hi {
        return GenLine::Empty;
    }
    let ghost r = line.skip(hp - lo + 1);
    proof {
        assert(r =~= chars@.subrange(hp + 1, hi as int));
    }
    let st = vec!['S', 'T', ':'];
    if has_prefix_at(chars, hp + 1, hi, &st) {
        let toks = tokenize(text, chars, hp + 4, hi);
        proof {
            assert(r.skip(3) =~= chars@.subrange(hp + 4, hi as int));
        }
        if toks.len() == 1 && check_score(&toks[0]) {
            let score = toks[0].clone();
            return GenLine::Subtask(score);
        }
    }
    let copy = vec!['C', 'O', 'P', 'Y', ':'];
    if has_prefix_at(chars, hp + 1, hi, &copy) {
        let toks = tokenize(text, chars, hp + 6, hi);
        proof {
            assert(r.skip(5) =~= chars@.subrange(hp + 6, hi as int));
        }
        if toks.len() == 1 {
            let path = toks[0].clone();
            return GenLine::Copy(path);
        }
    }
    GenLine::Comment
}

proof fn lemma_split_lines_nonempty(s: Seq<char>)
    ensures
        split_lines(s).len() >= 1,
    decreases s.len(),
{
    if s.len() > 0 {
        lemma_split_lines_nonempty(s.drop_last());
    }
}

/// The `gen/GEN` file parser.
pub struct GENParser;

impl GENParser {
    /// Split the content of a `gen/GEN` file into its lines, telling the meaning of each.
    pub fn parse(content: &str) -> (res: Vec<GenLine>)
        ensures
            res@.map_values(|l: GenLine| l@) == split_lines(content@).map_values(|l: Seq<char>| classify(l)),
    {
        let chars = to_chars(content);
        let n = chars.len();
        let mut res: Vec<GenLine> = Vec::new();
        let mut start: usize = 0;
        let mut i: usize = 0;
        proof {
            assert(chars@.take(0) =~= Seq::<char>::empty());
            assert(chars@.subrange(0, 0) =~= Seq::<char>::empty());
            assert(split_lines(chars@.take(0)).drop_last() =~= Seq::<Seq<char>>::empty());
        }
        while i < n
            invariant
                chars@ == content@,
                n == chars@.len(),
                start <= i <= n,
                res@.map_values(|l: GenLine| l@) == split_lines(chars@.take(i as int)).drop_last().map_values(|l: Seq<char>| classify(l)),
                split_lines(chars@.take(i as int)).len() >= 1,
                split_lines(chars@.take(i as int)).last() == chars@.subrange(start as int, i as int),
            decreases n - i,
        {
            let ghost prev = split_lines(chars@.take(i as int));
            proof {
                assert(chars@.take(i + 1).drop_last() =~= chars@.take(i as int));
                assert(chars@.take(i + 1).last() == chars@[i as int]);
            }
            if chars[i] == '\n' {
                let line = classify_line(content, &chars, start, i);
                let ghost before = res@;
                res.push(line);
                proof {
                    let cur = split_lines(chars@.take(i + 1));
                    assert(cur == prev.push(Seq::<char>::empty()));
                    assert(cur.drop_last() =~= prev);
                    assert(prev =~= prev.drop_last().push(prev.last()));
                    assert(res@.map_values(|l: GenLine| l@) =~= before.map_values(|l: GenLine| l@).push(classify(prev.last())));
                    assert(cur.drop_last().map_values(|l: Seq<char>| classify(l)) =~= prev.drop_last().map_values(|l: Seq<char>| classify(l)).push(classify(prev.last())));
                    assert(chars@.subrange(i + 1, i + 1) =~= Seq::<char>::empty());
                }
                start = i + 1;
            } else {
                proof {
                    let cur = split_lines(chars@.take(i + 1));
                    assert(cur == prev.drop_last().push(prev.last().push(chars@[i as int])));
                    assert(cur.drop_last() =~= prev.drop_last());
                    assert(chars@.subrange(start as int, i + 1) =~= chars@.subrange(start as int, i as int).push(chars@[i as int]));
                }
            }
            i += 1;
        }
        let last = classify_line(content, &chars, start, n);
        let ghost before = res@;
        res.push(last);
        proof {
            let all = split_lines(chars@.take(n as int));
            assert(chars@.take(n as int) =~= chars@);
            assert(all =~= all.drop_last().push(all.last()));
            assert(res@.map_values(|l: GenLine| l@) =~= before.map_values(|l: GenLine| l@).push(classify(all.last())));
            assert(all.map_values(|l: Seq<char>| classify(l)) =~= all.drop_last().map_values(|l: Seq<char>| classify(l)).push(classify(all.last())));
        }
        res
    }
}


/// What a testcase of the `gen/GEN` file takes its input from.
pub enum GenInput {
    /// A static file, by its path.
    Copy(Seq<char>),
    /// The generator, with these arguments.
    Generate(Seq<Seq<char>>),
}

/// An entry produced by the `gen/GEN` file.
pub enum GenEntry {
    /// A subtask with its id and score.
    Subtask { id: nat, score: Seq<char> },
    /// A testcase with its id, the id of the subtask it belongs to and its input.
    Testcase { id: nat, subtask: nat, input: GenInput },
}

/// The state of the reading of a `gen/GEN` file.
pub struct GenState {
    /// The entries produced so far.
    pub entries: Seq<GenEntry>,
    /// The id of the next subtask.
    pub next_subtask: nat,
    /// The id of the next testcase.
    pub next_testcase: nat,
    /// No subtask was started yet: the first testcase starts the default one.
    pub default_pending: bool,
}

/// The score of the default subtask, used when the file declares none.
pub open spec fn default_score() -> Seq<char> {
    seq!['1', '0', '0']
}

/// Before a testcase: if no subtask was started, start the default one.
pub open spec fn open_default(st: GenState) -> GenState {
    if st.default_pending {
        GenState {
            entries: st.entries.push(GenEntry::Subtask { id: st.next_subtask, score: default_score() }),
            next_subtask: st.next_subtask + 1,
            next_testcase: st.next_testcase,
            default_pending: false,
        }
    } else {
        st
    }
}

/// Adds a testcase to the last subtask.
pub open spec fn add_testcase(st: GenState, input: GenInput) -> GenState {
    let st1 = open_default(st);
    GenState {
        entries: st1.entries.push(GenEntry::Testcase { id: st1.next_testcase, subtask: (st1.next_subtask - 1) as nat, input }),
        next_testcase: st1.next_testcase + 1,
        ..st1
    }
}

/// The effect of a line on the state.
pub open spec fn gen_step(st: GenState, line: GenLineView) -> GenState {
    match line {
        GenLineView::Subtask(score) => GenState {
            entries: st.entries.push(GenEntry::Subtask { id: st.next_subtask, score }),
            next_subtask: st.next_subtask + 1,
            next_testcase: st.next_testcase,
            default_pending: false,
        },
        GenLineView::Copy(path) => add_testcase(st, GenInput::Copy(path)),
        GenLineView::Command(args) => add_testcase(st, GenInput::Generate(args)),
        _ => st,
    }
}

/// The state after reading the given lines.
pub open spec fn gen_fold(lines: Seq<GenLineView>) -> GenState
    decreases lines.len(),
{
    if lines.len() == 0 {
        GenState { entries: Seq::empty(), next_subtask: 0, next_testcase: 0, default_pending: true }
    } else {
        gen_step(gen_fold(lines.drop_last()), lines.last())
    }
}

/// The number of subtasks among the entries.
pub open spec fn count_subtasks(es: Seq<GenEntry>) -> nat
    decreases es.len(),
{
    if es.len() == 0 {
        0
    } else {
        count_subtasks(es.drop_last()) + if es.last() is Subtask { 1nat } else { 0nat }
    }
}

/// The number of testcases among the entries.
pub open spec fn count_testcases(es: Seq<GenEntry>) -> nat
    decreases es.len(),
{
    if es.len() == 0 {
        0
    } else {
        count_testcases(es.drop_last()) + if es.last() is Testcase { 1nat } else { 0nat }
    }
}

/// The entry at `i` is numbered in order: a subtask gets the number of the subtasks before it, a
/// testcase the number of the testcases before it, and it follows some subtask and belongs to
/// the last one before it.
pub open spec fn entry_numbered(es: Seq<GenEntry>, i: int) -> bool {
    match es[i] {
        GenEntry::Subtask { id, .. } => id == count_subtasks(es.take(i)),
        GenEntry::Testcase { id, subtask, .. } => id == count_testcases(es.take(i))
            && count_subtasks(es.take(i)) >= 1 && subtask + 1 == count_subtasks(es.take(i)),
    }
}

/// The state is consistent with its entries.
pub open spec fn gen_state_numbered(st: GenState) -> bool {
    &&& st.next_subtask == count_subtasks(st.entries)
    &&& st.next_testcase == count_testcases(st.entries)
    &&& (st.default_pending <==> st.next_subtask == 0)
    &&& forall|i: int| 0 <= i < st.entries.len() ==> #[trigger] entry_numbered(st.entries, i)
}

/// Adding an entry keeps the numbering of the earlier ones.
proof fn lemma_push_keeps_numbering(es: Seq<GenEntry>, e: GenEntry)
    requires
        forall|i: int| 0 <= i < es.len() ==> #[trigger] entry_numbered(es, i),
    ensures
        forall|i: int| 0 <= i < es.len() ==> #[trigger] entry_numbered(es.push(e), i),
        es.push(e).take(es.len() as int) == es,
{
    assert(es.push(e).take(es.len() as int) =~= es);
    assert forall|i: int| 0 <= i < es.len() implies #[trigger] entry_numbered(es.push(e), i) by {
        assert(es.push(e).take(i) =~= es.take(i));
        assert(es.push(e)[i] == es[i]);
        assert(entry_numbered(es, i));
    }
}

/// Reading lines keeps the state consistent.
proof fn lemma_gen_fold_numbered(lines: Seq<GenLineView>)
    ensures
        gen_state_numbered(gen_fold(lines)),
    decreases lines.len(),
{
    if lines.len() > 0 {
        lemma_gen_fold_numbered(lines.drop_last());
        let st = gen_fold(lines.drop_last());
        let es = st.entries;
        match lines.last() {
            GenLineView::Subtask(score) => {
                let e = GenEntry::Subtask { id: st.next_subtask, score };
                lemma_push_keeps_numbering(es, e);
                assert(es.push(e).drop_last() =~= es);
                assert(entry_numbered(es.push(e), es.len() as int));
            },
            GenLineView::Copy(_) | GenLineView::Command(_) => {
                let input = match lines.last() {
                    GenLineView::Copy(p) => GenInput::Copy(p),
                    GenLineView::Command(a) => GenInput::Generate(a),
                    _ => GenInput::Copy(Seq::empty()),
                };
                let st1 = open_default(st);
                if st.default_pending {
                    let d = GenEntry::Subtask { id: st.next_subtask, score: default_score() };
                    lemma_push_keeps_numbering(es, d);
                    assert(es.push(d).drop_last() =~= es);
                    assert(entry_numbered(es.push(d), es.len() as int));
                }
                assert(gen_state_numbered(st1));
                let t = GenEntry::Testcase { id: st1.next_testcase, subtask: (st1.next_subtask - 1) as nat, input };
                lemma_push_keeps_numbering(st1.entries, t);
                assert(st1.entries.push(t).drop_last() =~= st1.entries);
                assert(entry_numbered(st1.entries.push(t), st1.entries.len() as int));
                assert(gen_step(st, lines.last()) == add_testcase(st, input));
            },
            _ => {},
        }
    }
}

/// The entries of a `gen/GEN` file are numbered in file order: subtasks 0, 1, ... and testcases
/// 0, 1, ...; every testcase follows some subtask and belongs to the last one before it.
pub proof fn law_gen_numbering(lines: Seq<GenLineView>)
    ensures
        forall|i: int| 0 <= i < gen_fold(lines).entries.len() ==> #[trigger] entry_numbered(gen_fold(lines).entries, i),
{
    lemma_gen_fold_numbered(lines);
}

/// Without a subtask line, the only subtask is the default one, numbered 0 with score 100, and
/// it is there exactly when some line is a testcase.
pub proof fn law_gen_default_subtask(lines: Seq<GenLineView>)
    requires
        forall|i: int| 0 <= i < lines.len() ==> !(#[trigger] lines[i] is Subtask),
    ensures
        forall|i: int| 0 <= i < gen_fold(lines).entries.len() && (#[trigger] gen_fold(lines).entries[i]) is Subtask
            ==> gen_fold(lines).entries[i] == (GenEntry::Subtask { id: 0, score: default_score() }),
        count_subtasks(gen_fold(lines).entries) > 0 <==> exists|i: int| 0 <= i < lines.len()
            && ((#[trigger] lines[i]) is Copy || lines[i] is Command),
    decreases lines.len(),
{
    lemma_gen_fold_numbered(lines);
    if lines.len() > 0 {
        let prev = lines.drop_last();
        assert forall|i: int| 0 <= i < prev.len() implies !(#[trigger] prev[i] is Subtask) by {
            assert(prev[i] == lines[i]);
        }
        law_gen_default_subtask(prev);
        lemma_gen_fold_numbered(prev);
        let st = gen_fold(prev);
        let es = gen_fold(lines).entries;
        assert forall|i: int| 0 <= i < es.len() && (#[trigger] es[i]) is Subtask
            implies es[i] == (GenEntry::Subtask { id: 0, score: default_score() }) by {
            if i < st.entries.len() {
                assert(es[i] == st.entries[i]);
            } else if st.default_pending && i == st.entries.len() {
                assert(st.next_subtask == 0);
            }
        }
        if exists|i: int| 0 <= i < prev.len() && ((#[trigger] prev[i]) is Copy || prev[i] is Command) {
            let i = choose|i: int| 0 <= i < prev.len() && ((#[trigger] prev[i]) is Copy || prev[i] is Command);
            assert(lines[i] == prev[i]);
        }
        if exists|i: int| 0 <= i < lines.len() && ((#[trigger] lines[i]) is Copy || lines[i] is Command) {
            let i = choose|i: int| 0 <= i < lines.len() && ((#[trigger] lines[i]) is Copy || lines[i] is Command);
            if i < prev.len() {
                assert(prev[i] == lines[i]);
            }
        }
    }
}

/// Some line asks the generator for a testcase.
pub open spec fn has_command(lines: Seq<GenLineView>) -> bool {
    exists|i: int| 0 <= i < lines.len() && lines[i] is Command
}

/// The entry `e` is the one described by `g`, with the programs of the task.
pub open spec fn entry_matches(
    e: TaskInputEntry,
    g: GenEntry,
    generator: SourceFile,
    validator: Option<SourceFile>,
    official: OfficialOutput,
) -> bool {
    match g {
        GenEntry::Subtask { id, score } => e matches TaskInputEntry::Subtask(s) && s.id == id
            && s.max_score@ == score && s.description is None && s.testcases@.len() == 0,
        GenEntry::Testcase { id, subtask, input } => e matches TaskInputEntry::Testcase(t) && t.id == id
            && input_validator_spec(validator, subtask, t.input_validator)
            && output_generator_spec(official, id, t.output_generator)
            && match input {
                GenInput::Copy(p) => t.input_generator matches InputGenerator::StaticFile(q) && q@ == p,
                GenInput::Generate(args) => t.input_generator matches InputGenerator::Custom(s, a) && s == generator
                    && a@.map_values(|x: String| x@) == args,
            },
    }
}

/// An error in the `gen/GEN` file.
#[derive(Debug, Clone, PartialEq, Eq, Structural)]
pub enum GenError {
    /// A testcase needs the generator but there is no official solution to produce its output.
    GeneratorWithoutSolution,
}

/// Builds the subtasks and testcases described by the lines of a `gen/GEN` file.
///
/// `generator` is the generator of the task, `validator` its validator if any, and `official`
/// tells where the official output files come from. A generated testcase needs an official
/// solution when the output files would otherwise be static.
pub fn gen_entries(
    lines: &Vec<GenLine>,
    generator: &SourceFile,
    validator: &Option<SourceFile>,
    official: &OfficialOutput,
) -> (res: Result<Vec<TaskInputEntry>, GenError>)
    requires
        lines@.len() < u32::MAX,
    ensures
        res is Err <==> (official is StaticFiles && has_command(lines@.map_values(|l: GenLine| l@))),
        res matches Ok(v) ==> {
            let st = gen_fold(lines@.map_values(|l: GenLine| l@));
            &&& v@.len() == st.entries.len()
            &&& forall|i: int| 0 <= i < v@.len() ==> entry_matches(#[trigger] v@[i], st.entries[i], *generator, *validator, *official)
        },
{
    let ghost lv = lines@.map_values(|l: GenLine| l@);
    let mut entries: Vec<TaskInputEntry> = Vec::new();
    let mut subtask_id: u32 = 0;
    let mut testcase_id: u32 = 0;
    let mut pending = true;
    let mut i: usize = 0;
    while i < lines.len()
        invariant
            lv == lines@.map_values(|l: GenLine| l@),
            lines@.len() < u32::MAX,
            i <= lines@.len(),
            gen_fold(lv.take(i as int)).next_subtask == subtask_id,
            gen_fold(lv.take(i as int)).next_testcase == testcase_id,
            gen_fold(lv.take(i as int)).default_pending == pending,
            subtask_id <= i + 1,
            testcase_id <= i,
            !pending ==> subtask_id >= 1,
            entries@.len() == gen_fold(lv.take(i as int)).entries.len(),
            forall|j: int| 0 <= j < entries@.len() ==> entry_matches(#[trigger] entries@[j], gen_fold(lv.take(i as int)).entries[j], *generator, *validator, *official),
            official is StaticFiles ==> forall|j: int| 0 <= j < i ==> !(lv[j] is Command),
        decreases lines@.len() - i,
    {
        let ghost st = gen_fold(lv.take(i as int));
        proof {
            assert(lv.take(i + 1).drop_last() =~= lv.take(i as int));
            assert(lv.take(i + 1).last() == lv[i as int]);
        }
        let ghost old_entries = entries@;
        match &lines[i] {
            GenLine::Subtask(score) => {
                entries.push(TaskInputEntry::Subtask(SubtaskInfo {
                    id: subtask_id,
                    description: None,
                    max_score: score.clone(),
                    testcases: Vec::new(),
                }));
                subtask_id = subtask_id + 1;
                pending = false;
                proof {
                    assert forall|j: int| 0 <= j < entries@.len() implies entry_matches(#[trigger] entries@[j], gen_fold(lv.take(i + 1)).entries[j], *generator, *validator, *official) by {
                        if j < old_entries.len() {
                            assert(entries@[j] == old_entries[j]);
                        }
                    }
                }
            },
            GenLine::Copy(path) => {
                if pending {
                    entries.push(TaskInputEntry::Subtask(SubtaskInfo {
                        id: subtask_id,
                        description: None,
                        max_score: "100".to_owned(),
                        testcases: Vec::new(),
                    }));
                    proof { reveal_strlit("100"); }
                    subtask_id = subtask_id + 1;
                    pending = false;
                }
                let ghost mid = entries@;
                proof {
                    assert(lv[i as int] == lines@[i as int]@);
                    assert(gen_fold(lv.take(i + 1)) == add_testcase(st, GenInput::Copy(path@)));
                    assert(open_default(st).entries.len() == mid.len());
                    assert("100"@ =~= default_score()) by { reveal_strlit("100"); }
                }
                let input_validator = input_validator_for(validator, subtask_id - 1);
                let output_generator = official.output_generator(testcase_id);
                entries.push(TaskInputEntry::Testcase(TestcaseInfo {
                    id: testcase_id,
                    input_generator: InputGenerator::StaticFile(path.clone()),
                    input_validator,
                    output_generator,
                }));
                testcase_id = testcase_id + 1;
                proof {
                    assert forall|j: int| 0 <= j < entries@.len() implies entry_matches(#[trigger] entries@[j], gen_fold(lv.take(i + 1)).entries[j], *generator, *validator, *official) by {
                        if j < old_entries.len() {
                            assert(entries@[j] == old_entries[j]);
                        } else if j < mid.len() {
                            assert(entries@[j] == mid[j]);
                        }
                    }
                }
            },
            GenLine::Command(args) => {
                if let OfficialOutput::StaticFiles = official {
                    proof { assert(lv[i as int] is Command); }
                    return Err(GenError::GeneratorWithoutSolution);
                }
                if pending {
                    entries.push(TaskInputEntry::Subtask(SubtaskInfo {
                        id: subtask_id,
                        description: None,
                        max_score: "100".to_owned(),
                        testcases: Vec::new(),
                    }));
                    proof { reveal_strlit("100"); }
                    subtask_id = subtask_id + 1;
                    pending = false;
                }
                let ghost mid = entries@;
                proof {
                    assert(lv[i as int] == lines@[i as int]@);
                    assert(gen_fold(lv.take(i + 1)) == add_testcase(st, GenInput::Generate(args@.map_values(|a: String| a@))));
                    assert(open_default(st).entries.len() == mid.len());
                    assert("100"@ =~= default_score()) by { reveal_strlit("100"); }
                }
                let input_validator = input_validator_for(validator, subtask_id - 1);
                let output_generator = official.output_generator(testcase_id);
                entries.push(TaskInputEntry::Testcase(TestcaseInfo {
                    id: testcase_id,
                    input_generator: InputGenerator::Custom(generator.clone(), args.clone()),
                    input_validator,
                    output_generator,
                }));
                testcase_id = testcase_id + 1;
                proof {
                    assert forall|j: int| 0 <= j < entries@.len() implies entry_matches(#[trigger] entries@[j], gen_fold(lv.take(i + 1)).entries[j], *generator, *validator, *official) by {
                        if j < old_entries.len() {
                            assert(entries@[j] == old_entries[j]);
                        } else if j < mid.len() {
                            assert(entries@[j] == mid[j]);
                        }
                    }
                }
            },
            _ => {},
        }
        i += 1;
    }
    proof {
        assert(lv.take(i as int) =~= lv);
    }
    Ok(entries)
}


pub proof fn lemma_split_lines_len(s: Seq<char>)
    ensures
        split_lines(s).len() <= s.len() + 1,
        split_lines(s).len() >= 1,
    decreases s.len(),
{
    if s.len() > 0 {
        lemma_split_lines_len(s.drop_last());
    }
}

/// Why the generator of the testcases of a `gen/GEN` file cannot be chosen.
#[derive(Debug, Clone)]
pub enum GeneratorSearchError {
    /// No generator was found.
    NotFound,
    /// More than one generator was found: their file names.
    Multiple(Vec<String>),
}

/// The generator of the testcases of a `gen/GEN` file, given the source files found as
/// `gen/generator.*`, `gen/generatore.*`, `gen/generator` and `gen/generatore`: there must be
/// exactly one.
pub fn gen_gen_generator(candidates: Vec<SourceFile>) -> (res: Result<SourceFile, GeneratorSearchError>)
    ensures
        candidates@.len() == 0 <==> (res matches Err(GeneratorSearchError::NotFound)),
        candidates@.len() > 1 <==> (res matches Err(GeneratorSearchError::Multiple(ps))
            && string_views(ps@) == crate::gen_toml::source_names(candidates@)),
        candidates@.len() == 1 ==> res == Ok::<SourceFile, GeneratorSearchError>(candidates@[0]),
{
    let n = candidates.len();
    if n == 0 {
        return Err(GeneratorSearchError::NotFound);
    }
    if n > 1 {
        let mut paths: Vec<String> = Vec::new();
        let mut k: usize = 0;
        while k < n
            invariant
                n == candidates@.len(),
                k <= n,
                string_views(paths@) == crate::gen_toml::source_names(candidates@.take(k as int)),
            decreases n - k,
        {
            let p = crate::gen_toml::file_name(candidates[k].path.as_str());
            let ghost before = paths@;
            paths.push(p);
            proof {
                assert(string_views(paths@) =~= string_views(before).push(p@));
                assert(string_views(paths@) =~= crate::gen_toml::source_names(candidates@.take(k + 1)));
            }
            k += 1;
        }
        proof {
            assert(candidates@.take(n as int) =~= candidates@);
        }
        return Err(GeneratorSearchError::Multiple(paths));
    }
    let mut c = candidates;
    let g = c.remove(0);
    Ok(g)
}

impl GeneratorSearchError {
    /// The message of the error: the paths are listed as `{:?}` writes them.
    pub fn message(&self) -> (res: String)
        ensures
            match self {
                GeneratorSearchError::NotFound => res@ == "No generator found"@,
                GeneratorSearchError::Multiple(ps) => res@ == "Multiple generators found: "@
                    + crate::task_checks::debug_list(string_views(ps@)),
            },
    {
        match self {
            GeneratorSearchError::NotFound => "No generator found".to_owned(),
            GeneratorSearchError::Multiple(ps) => {
                let mut m = "Multiple generators found: ".to_owned();
                let l = crate::task_checks::debug_names(ps);
                push_str(&mut m, l.as_str());
                m
            },
        }
    }
}

/// Where the inputs of an IOI task come from.
#[derive(Debug, Clone, Copy, PartialEq, Eq, Structural)]
pub enum InputSource {
    /// The `gen/cases.gen` file.
    CasesGen,
    /// The `gen/GEN` file.
    GenGen,
    /// The files inside `input/`.
    StaticFiles,
}

/// Where the inputs of a task come from: `gen/cases.gen` when it exists, otherwise `gen/GEN`
/// when it exists, otherwise the files inside `input/`.
pub fn input_source(cases_gen_exists: bool, gen_gen_exists: bool) -> (res: InputSource)
    ensures
        cases_gen_exists ==> res == InputSource::CasesGen,
        !cases_gen_exists && gen_gen_exists ==> res == InputSource::GenGen,
        !cases_gen_exists && !gen_gen_exists ==> res == InputSource::StaticFiles,
{
    if cases_gen_exists {
        InputSource::CasesGen
    } else if gen_gen_exists {
        InputSource::GenGen
    } else {
        InputSource::StaticFiles
    }
}

/// Parse the content of a `gen/GEN` file extracting the subtasks and the testcases.
///
/// `generator` is the generator of the task, `validator` its validator if any, and `official`
/// tells where the official output files come from.
pub fn parse_gen_gen(
    content: &str,
    generator: &SourceFile,
    validator: &Option<SourceFile>,
    official: &OfficialOutput,
) -> (res: Result<Vec<TaskInputEntry>, GenError>)
    requires
        content@.len() + 1 < u32::MAX,
    ensures
        ({
            let lines = split_lines(content@).map_values(|l: Seq<char>| classify(l));
            &&& res is Err <==> (official is StaticFiles && has_command(lines))
            &&& res matches Ok(v) ==> {
                let st = gen_fold(lines);
                &&& v@.len() == st.entries.len()
                &&& forall|i: int| 0 <= i < v@.len() ==> entry_matches(#[trigger] v@[i], st.entries[i], *generator, *validator, *official)
                &&& forall|i: int| 0 <= i < v@.len() && (#[trigger] v@[i]) is Testcase
                    ==> exists|j: int| 0 <= j < i && (#[trigger] v@[j]) is Subtask
                &&& (forall|i: int| 0 <= i < lines.len() ==> !(#[trigger] lines[i] is Subtask)) ==>
                    forall|i: int| 0 <= i < v@.len() && (#[trigger] v@[i]) is Subtask
                        ==> i == 0 && v@[i]->Subtask_0.id == 0 && v@[i]->Subtask_0.max_score@ == "100"@
            }
        }),
{
    let lines = GENParser::parse(content);
    proof {
        lemma_split_lines_len(content@);
        assert(lines@.len() == lines@.map_values(|l: GenLine| l@).len());
    }
    let res = gen_entries(&lines, generator, validator, official);
    proof {
        let lv = split_lines(content@).map_values(|l: Seq<char>| classify(l));
        if let Ok(v) = &res {
            let es = gen_fold(lv).entries;
            lemma_gen_fold_numbered(lv);
            assert forall|i: int| 0 <= i < v@.len() && (#[trigger] v@[i]) is Testcase
                implies exists|j: int| 0 <= j < i && (#[trigger] v@[j]) is Subtask by {
                assert(entry_matches(v@[i], es[i], *generator, *validator, *official));
                assert(entry_numbered(es, i));
                let j = lemma_some_subtask(es.take(i));
                assert(es.take(i)[j] == es[j]);
                assert(entry_matches(v@[j], es[j], *generator, *validator, *official));
            }
            if forall|i: int| 0 <= i < lv.len() ==> !(#[trigger] lv[i] is Subtask) {
                law_gen_default_subtask(lv);
                assert forall|i: int| 0 <= i < v@.len() && (#[trigger] v@[i]) is Subtask
                    implies i == 0 && v@[i]->Subtask_0.id == 0 && v@[i]->Subtask_0.max_score@ == "100"@ by {
                    reveal_strlit("100");
                    assert(entry_matches(v@[i], es[i], *generator, *validator, *official));
                    assert(es[i] == (GenEntry::Subtask { id: 0, score: default_score() }));
                    assert(entry_numbered(es, i));
                    if i > 0 {
                        assert(entry_numbered(es, 0));
                        assert(es.take(0) =~= Seq::<GenEntry>::empty());
                        if es[0] is Subtask {
                            lemma_subtask_counted(es.take(i), 0);
                            assert(es.take(i)[0] == es[0]);
                        }
                    }
                }
            }
        }
    }
    res
}

/// Some subtask is among the entries counted.
proof fn lemma_some_subtask(es: Seq<GenEntry>) -> (j: int)
    requires
        count_subtasks(es) >= 1,
    ensures
        0 <= j < es.len(),
        es[j] is Subtask,
    decreases es.len(),
{
    if es.last() is Subtask {
        es.len() - 1
    } else {
        let j = lemma_some_subtask(es.drop_last());
        assert(es.drop_last()[j] == es[j]);
        j
    }
}

/// A subtask among the entries is counted.
proof fn lemma_subtask_counted(es: Seq<GenEntry>, j: int)
    requires
        0 <= j < es.len(),
        es[j] is Subtask,
    ensures
        count_subtasks(es) >= 1,
    decreases es.len(),
{
    if j < es.len() - 1 {
        assert(es.drop_last()[j] == es[j]);
        lemma_subtask_counted(es.drop_last(), j);
    }
}

/// The entry of the single subtask of the static testcases.
pub open spec fn static_subtask_matches(e: TaskInputEntry) -> bool {
    match e {
        TaskInputEntry::Subtask(s) => {
            &&& s.id == 0
            &&& s.max_score@ == default_score()
            &&& s.description matches Some(d) && d@ == "Static testcases"@
            &&& s.testcases@.len() == 0
        },
        _ => false,
    }
}

/// The entry of the testcase `id` whose input is the static file `input/input{id}.txt`.
pub open spec fn static_testcase_matches(e: TaskInputEntry, id: nat, validator: Option<SourceFile>, official: OfficialOutput) -> bool {
    match e {
        TaskInputEntry::Testcase(t) => {
            &&& t.id == id
            &&& t.input_generator matches InputGenerator::StaticFile(p) && p@ == "input/input"@ + decimal(id) + ".txt"@
            &&& input_validator_spec(validator, 0, t.input_validator)
            &&& output_generator_spec(official, id, t.output_generator)
        },
        _ => false,
    }
}

/// The entries of a task whose input files are the static files `input/input{i}.txt`, for `i`
/// from zero to `num_inputs - 1`: a single subtask worth 100 points with a testcase for each file.
pub fn static_inputs(num_inputs: u32, validator: &Option<SourceFile>, official: &OfficialOutput) -> (res: Vec<TaskInputEntry>)
    ensures
        res@.len() == num_inputs + 1,
        static_subtask_matches(res@[0]),
        forall|i: int| 1 <= i < res@.len() ==> static_testcase_matches(#[trigger] res@[i], (i - 1) as nat, *validator, *official),
{
    let mut res: Vec<TaskInputEntry> = Vec::new();
    proof {
        reveal_strlit("100");
        assert("100"@ =~= default_score());
    }
    res.push(TaskInputEntry::Subtask(SubtaskInfo {
        id: 0,
        description: Some("Static testcases".to_owned()),
        max_score: "100".to_owned(),
        testcases: Vec::new(),
    }));
    let mut id: u32 = 0;
    while id < num_inputs
        invariant
            id <= num_inputs,
            res@.len() == id + 1,
            static_subtask_matches(res@[0]),
            forall|i: int| 1 <= i < res@.len() ==> static_testcase_matches(#[trigger] res@[i], (i - 1) as nat, *validator, *official),
        decreases num_inputs - id,
    {
        let mut path = "input/input".to_owned();
        let n = u64_to_string(id as u64);
        push_str(&mut path, n.as_str());
        push_str(&mut path, ".txt");
        res.push(TaskInputEntry::Testcase(TestcaseInfo {
            id,
            input_generator: InputGenerator::StaticFile(path),
            input_validator: input_validator_for(validator, 0),
            output_generator: official.output_generator(id),
        }));
        id += 1;
    }
    res
}

} // verus!
