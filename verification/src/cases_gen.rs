//! The `gen/cases.gen` file: each line is a comment, a command starting with `:`, or a testcase
//! given by the arguments of the current generator. Everything from the first `#` of a line on is
//! a comment. The commands are `GEN` and `VAL` (define a generator or a validator with its path
//! and arguments, or select one for the current subtask), `CONSTRAINT` (operands separated by
//! comparison operators), `SUBTASK` (a score and an optional description), `COPY` (a testcase
//! copied from a file) and `RUN` (a testcase generated by a named generator).

use vstd::prelude::*;

use crate::ioi::{
    CommandView, InputGenerator, InputValidator, OfficialOutput, SourceFile, SubtaskInfo,
    TaskInputEntry, TestcaseInfo, TM_VALIDATION_FILE_NAME,
};
use crate::lexing::{find_char, first_index, is_blank, split_lines, to_chars, tokenize, tokens};
use crate::text::{all_digits, decimal, signed_value, unsigned_value};
use crate::words::string_views;

verus! {

/// The number of leading characters of `s` that are blank when `blank` holds, or not blank
/// otherwise.
pub open spec fn run_len(s: Seq<char>, blank: bool) -> nat
    decreases s.len(),
{
    if s.len() > 0 && is_blank(s[0]) == blank {
        1 + run_len(s.drop_first(), blank)
    } else {
        0
    }
}

/// The number of trailing blank characters of `s`.
pub open spec fn trailing_blanks(s: Seq<char>) -> nat
    decreases s.len(),
{
    if s.len() > 0 && is_blank(s.last()) {
        1 + trailing_blanks(s.drop_last())
    } else {
        0
    }
}

/// `s` without its leading blanks.
pub open spec fn skip_blanks(s: Seq<char>) -> Seq<char> {
    s.skip(run_len(s, true) as int)
}

/// The first word of `s`: its first run of non-blank characters.
pub open spec fn first_word(s: Seq<char>) -> Seq<char> {
    let t = skip_blanks(s);
    t.take(run_len(t, false) as int)
}

/// What follows the first word of `s`.
pub open spec fn after_word(s: Seq<char>) -> Seq<char> {
    let t = skip_blanks(s);
    t.skip(run_len(t, false) as int)
}

/// `s` without its leading and trailing blanks.
pub open spec fn trim_blanks(s: Seq<char>) -> Seq<char> {
    let t = skip_blanks(s);
    t.take(t.len() - trailing_blanks(t))
}

proof fn lemma_run_len(s: Seq<char>, blank: bool, i: int)
    requires
        0 <= i <= s.len(),
        forall|j: int| 0 <= j < i ==> is_blank(#[trigger] s[j]) == blank,
        i == s.len() || is_blank(s[i]) != blank,
    ensures
        run_len(s, blank) == i,
    decreases i,
{
    if i > 0 {
        assert forall|j: int| 0 <= j < i - 1 implies is_blank(#[trigger] s.drop_first()[j]) == blank by {
            assert(s.drop_first()[j] == s[j + 1]);
        }
        if i < s.len() {
            assert(s.drop_first()[i - 1] == s[i]);
        }
        lemma_run_len(s.drop_first(), blank, i - 1);
    }
}

proof fn lemma_trailing_blanks(s: Seq<char>, i: int)
    requires
        0 <= i <= s.len(),
        forall|j: int| i <= j < s.len() ==> is_blank(#[trigger] s[j]),
        i == 0 || !is_blank(s[i - 1]),
    ensures
        trailing_blanks(s) == s.len() - i,
    decreases s.len() - i,
{
    if i < s.len() {
        assert forall|j: int| i <= j < s.len() - 1 implies is_blank(#[trigger] s.drop_last()[j]) by {
            assert(s.drop_last()[j] == s[j]);
        }
        if i > 0 {
            assert(s.drop_last()[i - 1] == s[i - 1]);
        }
        assert(is_blank(s[s.len() - 1]));
        lemma_trailing_blanks(s.drop_last(), i);
    } else if s.len() > 0 {
        assert(!is_blank(s.last()));
    }
}

/// The end of the run of characters of `chars[lo..hi]` that are blank when `blank` holds, or
/// not blank otherwise.
fn run_end(chars: &Vec<char>, lo: usize, hi: usize, blank: bool) -> (res: usize)
    requires
        lo <= hi <= chars@.len(),
    ensures
        lo <= res <= hi,
        res - lo == run_len(chars@.subrange(lo as int, hi as int), blank),
{
    let mut i = lo;
    while i < hi && ((chars[i] == ' ' || chars[i] == '\t' || chars[i] == '\r') == blank)
        invariant
            lo <= i <= hi <= chars@.len(),
            forall|j: int| lo <= j < i ==> is_blank(#[trigger] chars@[j]) == blank,
        decreases hi - i,
    {
        i += 1;
    }
    proof {
        let sub = chars@.subrange(lo as int, hi as int);
        assert forall|j: int| 0 <= j < i - lo implies is_blank(#[trigger] sub[j]) == blank by {
            assert(sub[j] == chars@[lo + j]);
        }
        if i < hi {
            assert(sub[i - lo] == chars@[i as int]);
        }
        lemma_run_len(sub, blank, i - lo);
    }
    i
}

/// The start of the trailing blanks of `chars[lo..hi]`.
fn trim_end(chars: &Vec<char>, lo: usize, hi: usize) -> (res: usize)
    requires
        lo <= hi <= chars@.len(),
    ensures
        lo <= res <= hi,
        hi - res == trailing_blanks(chars@.subrange(lo as int, hi as int)),
{
    let mut i = hi;
    while i > lo && (chars[i - 1] == ' ' || chars[i - 1] == '\t' || chars[i - 1] == '\r')
        invariant
            lo <= i <= hi <= chars@.len(),
            forall|j: int| i <= j < hi ==> is_blank(#[trigger] chars@[j]),
        decreases i,
    {
        i -= 1;
    }
    proof {
        let sub = chars@.subrange(lo as int, hi as int);
        assert forall|j: int| i - lo <= j < sub.len() implies is_blank(#[trigger] sub[j]) by {
            assert(sub[j] == chars@[lo + j]);
        }
        if i > lo {
            assert(sub[i - lo - 1] == chars@[i - 1]);
        }
        lemma_trailing_blanks(sub, i - lo);
    }
    i
}

/// Whether `chars[lo..hi]` is `lit`.
fn range_is(chars: &Vec<char>, lo: usize, hi: usize, lit: &Vec<char>) -> (res: bool)
    requires
        lo <= hi <= chars@.len(),
    ensures
        res == (chars@.subrange(lo as int, hi as int) == lit@),
{
    if hi - lo != lit.len() {
        return false;
    }
    let mut i: usize = 0;
    while i < lit.len()
        invariant
            lo <= hi <= chars@.len(),
            hi - lo == lit@.len(),
            i <= lit@.len(),
            forall|j: int| 0 <= j < i ==> chars@[lo + j] == lit@[j],
        decreases lit@.len() - i,
    {
        if chars[lo + i] != lit[i] {
            assert(chars@.subrange(lo as int, hi as int)[i as int] != lit@[i as int]);
            return false;
        }
        i += 1;
    }
    assert(chars@.subrange(lo as int, hi as int) =~= lit@);
    true
}

/// The positions of the first word of `chars[lo..hi]`.
fn word_at(chars: &Vec<char>, lo: usize, hi: usize) -> (res: (usize, usize))
    requires
        lo <= hi <= chars@.len(),
    ensures
        lo <= res.0 <= res.1 <= hi,
        chars@.subrange(res.0 as int, res.1 as int) == first_word(chars@.subrange(lo as int, hi as int)),
        chars@.subrange(res.1 as int, hi as int) == after_word(chars@.subrange(lo as int, hi as int)),
{
    let ws = run_end(chars, lo, hi, true);
    let we = run_end(chars, ws, hi, false);
    proof {
        let s = chars@.subrange(lo as int, hi as int);
        assert(skip_blanks(s) =~= chars@.subrange(ws as int, hi as int));
        assert(first_word(s) =~= chars@.subrange(ws as int, we as int));
        assert(after_word(s) =~= chars@.subrange(we as int, hi as int));
    }
    (ws, we)
}

/// An item of a constraint.
#[derive(Debug, Clone)]
pub enum ConstraintItem {
    /// A constant integer, as written.
    Number(String),
    /// A variable, by its name without the dollar sign.
    Variable(String),
    /// A comparison operator: `<`, `<=`, `>`, `>=` or `=`.
    Operator(String),
}

/// An item of a constraint, over the characters of its text.
pub enum ConstraintItemView {
    Number(Seq<char>),
    Variable(Seq<char>),
    Operator(Seq<char>),
}

impl View for ConstraintItem {
    type V = ConstraintItemView;

    open spec fn view(&self) -> ConstraintItemView {
        match self {
            ConstraintItem::Number(t) => ConstraintItemView::Number(t@),
            ConstraintItem::Variable(t) => ConstraintItemView::Variable(t@),
            ConstraintItem::Operator(t) => ConstraintItemView::Operator(t@),
        }
    }
}

/// A `GEN` or `VAL` command: it selects a program already defined for the current subtask, or
/// defines one with its path and the text of its arguments.
#[derive(Debug, Clone)]
pub enum ManagerLine {
    Select(String),
    Define { name: String, path: String, args: String },
}

/// A `GEN` or `VAL` command, over the characters of its texts.
pub enum ManagerLineView {
    Select(Seq<char>),
    Define { name: Seq<char>, path: Seq<char>, args: Seq<char> },
}

impl View for ManagerLine {
    type V = ManagerLineView;

    open spec fn view(&self) -> ManagerLineView {
        match self {
            ManagerLine::Select(n) => ManagerLineView::Select(n@),
            ManagerLine::Define { name, path, args } => ManagerLineView::Define { name: name@, path: path@, args: args@ },
        }
    }
}

/// A line of the `gen/cases.gen` file.
#[derive(Debug, Clone)]
pub enum CasesLine {
    /// Nothing but blanks and a comment.
    Empty,
    /// The arguments of a testcase for the current generator, as written.
    Testcase(String),
    /// A `GEN` command.
    Gen(ManagerLine),
    /// A `VAL` command.
    Val(ManagerLine),
    /// A `CONSTRAINT` command: its text and its items.
    Constraint { text: String, items: Vec<ConstraintItem> },
    /// A `SUBTASK` command: the score and the description.
    Subtask { score: String, description: Option<String> },
    /// A `COPY` command: the path of the input file.
    Copy(String),
    /// A `RUN` command: its text, the generator and the text of the arguments.
    Run { text: String, name: String, args: String },
    /// A line that is none of these.
    Invalid,
}

/// A line of the `gen/cases.gen` file, over the characters of its texts.
pub enum CasesLineView {
    Empty,
    Testcase(Seq<char>),
    Gen(ManagerLineView),
    Val(ManagerLineView),
    Constraint { text: Seq<char>, items: Seq<ConstraintItemView> },
    Subtask { score: Seq<char>, description: Option<Seq<char>> },
    Copy(Seq<char>),
    Run { text: Seq<char>, name: Seq<char>, args: Seq<char> },
    Invalid,
}

impl View for CasesLine {
    type V = CasesLineView;

    open spec fn view(&self) -> CasesLineView {
        match self {
            CasesLine::Empty => CasesLineView::Empty,
            CasesLine::Testcase(t) => CasesLineView::Testcase(t@),
            CasesLine::Gen(m) => CasesLineView::Gen(m@),
            CasesLine::Val(m) => CasesLineView::Val(m@),
            CasesLine::Constraint { text, items } => CasesLineView::Constraint {
                text: text@,
                items: items@.map_values(|i: ConstraintItem| i@),
            },
            CasesLine::Subtask { score, description } => CasesLineView::Subtask {
                score: score@,
                description: match description {
                    Some(d) => Some(d@),
                    None => None,
                },
            },
            CasesLine::Copy(p) => CasesLineView::Copy(p@),
            CasesLine::Run { text, name, args } => CasesLineView::Run { text: text@, name: name@, args: args@ },
            CasesLine::Invalid => CasesLineView::Invalid,
        }
    }
}

/// The comparison operators.
pub open spec fn is_operator(t: Seq<char>) -> bool {
    t == seq!['<'] || t == seq!['<', '='] || t == seq!['>'] || t == seq!['>', '='] || t == seq!['=']
}

/// What an item of a constraint is: an operator, a variable (`$` and a name) or an integer.
pub open spec fn constraint_item(t: Seq<char>) -> Option<ConstraintItemView> {
    if is_operator(t) {
        Some(ConstraintItemView::Operator(t))
    } else if t.len() > 1 && t[0] == '$' {
        Some(ConstraintItemView::Variable(t.drop_first()))
    } else if signed_value(t) is Some {
        Some(ConstraintItemView::Number(t))
    } else {
        None
    }
}

/// The items of a constraint, if every word is one.
pub open spec fn constraint_items(ts: Seq<Seq<char>>) -> Option<Seq<ConstraintItemView>>
    decreases ts.len(),
{
    if ts.len() == 0 {
        Some(Seq::empty())
    } else {
        match (constraint_items(ts.drop_last()), constraint_item(ts.last())) {
            (Some(v), Some(i)) => Some(v.push(i)),
            _ => None,
        }
    }
}

/// A `GEN` or `VAL` command, from what follows its keyword: a name, then possibly a path and the
/// arguments.
pub open spec fn manager_line(rest: Seq<char>) -> Option<ManagerLineView> {
    let name = first_word(rest);
    let r1 = after_word(rest);
    let path = first_word(r1);
    if name.len() == 0 {
        None
    } else if path.len() == 0 {
        Some(ManagerLineView::Select(name))
    } else {
        Some(ManagerLineView::Define { name, path, args: after_word(r1) })
    }
}

/// The command made of the keyword `name` and what follows it.
pub open spec fn command_line(name: Seq<char>, rest: Seq<char>) -> CasesLineView {
    if name == "GEN"@ || name == "VAL"@ {
        match manager_line(rest) {
            None => CasesLineView::Invalid,
            Some(m) => if name == "GEN"@ { CasesLineView::Gen(m) } else { CasesLineView::Val(m) },
        }
    } else if name == "CONSTRAINT"@ {
        match constraint_items(tokens(rest)) {
            Some(items) => CasesLineView::Constraint { text: rest, items },
            None => CasesLineView::Invalid,
        }
    } else if name == "SUBTASK"@ {
        let score = first_word(rest);
        let d = trim_blanks(after_word(rest));
        if score.len() == 0 {
            CasesLineView::Invalid
        } else {
            CasesLineView::Subtask { score, description: if d.len() == 0 { None } else { Some(d) } }
        }
    } else if name == "COPY"@ {
        if tokens(rest).len() == 1 {
            CasesLineView::Copy(tokens(rest)[0])
        } else {
            CasesLineView::Invalid
        }
    } else if name == "RUN"@ {
        let gen = first_word(rest);
        if gen.len() == 0 {
            CasesLineView::Invalid
        } else {
            CasesLineView::Run { text: rest, name: gen, args: after_word(rest) }
        }
    } else {
        CasesLineView::Invalid
    }
}

/// The meaning of a line of the `gen/cases.gen` file: what precedes the first `#` is empty, a
/// command when its first non-blank character is `:`, or the arguments of a testcase.
pub open spec fn classify_cases(line: Seq<char>) -> CasesLineView {
    let body = line.take(first_index(line, '#'));
    let s0 = skip_blanks(body);
    if s0.len() == 0 {
        CasesLineView::Empty
    } else if s0[0] != ':' {
        CasesLineView::Testcase(body)
    } else {
        let c = s0.drop_first();
        command_line(first_word(c), after_word(c))
    }
}

/// Whether the word is a comparison operator.
fn check_operator(t: &Vec<char>) -> (res: bool)
    ensures
        res == is_operator(t@),
{
    let n = t.len();
    let res = (n == 1 && (t[0] == '<' || t[0] == '>' || t[0] == '='))
        || (n == 2 && (t[0] == '<' || t[0] == '>') && t[1] == '=');
    proof {
        if n == 1 {
            assert(t@ =~= seq![t@[0]]);
        } else if n == 2 {
            assert(t@ =~= seq![t@[0], t@[1]]);
        }
    }
    res
}

/// Whether the word is the text of an integer.
fn check_integer(t: &Vec<char>) -> (res: bool)
    ensures
        res == signed_value(t@) is Some,
{
    let n = t.len();
    if n == 0 {
        return false;
    }
    let from: usize = if t[0] == '-' || t[0] == '+' { 1 } else { 0 };
    if from >= n {
        proof {
            assert(t@.drop_first().len() == 0);
            if t@[0] != '-' {
                assert(t@[0] == '+');
                assert(unsigned_value(t@) is None);
            }
        }
        return false;
    }
    let mut i: usize = from;
    while i < n
        invariant
            from <= i <= n == t@.len(),
            n > 0,
            from == 0 <==> !(t@[0] == '-' || t@[0] == '+'),
            from <= 1,
            forall|j: int| from <= j < i ==> crate::text::is_digit(#[trigger] t@[j]),
        decreases n - i,
    {
        if !('0' <= t[i] && t[i] <= '9') {
            proof {
                assert(!crate::text::is_digit(t@[i as int]));
                if from == 1 {
                    assert(t@.drop_first()[i - 1] == t@[i as int]);
                    assert(!crate::text::all_digits(t@.drop_first()));
                } else {
                    assert(t@[0] != '+' && t@[0] != '-');
                    assert(!crate::text::all_digits(t@));
                    assert(unsigned_value(t@) is None);
                }
            }
            return false;
        }
        i += 1;
    }
    proof {
        assert forall|j: int| 0 <= j < t@.skip(from as int).len() implies crate::text::is_digit(#[trigger] t@.skip(from as int)[j]) by {
            assert(t@.skip(from as int)[j] == t@[from + j]);
        }
        if from == 1 {
            assert(t@.drop_first() =~= t@.skip(1));
        } else {
            assert(t@.skip(0) =~= t@);
        }
    }
    true
}

/// The items of a constraint, if every word is one.
fn parse_constraint_items(words: &Vec<String>) -> (res: Option<Vec<ConstraintItem>>)
    ensures
        match constraint_items(string_views(words@)) {
            Some(v) => res matches Some(items) && items@.map_values(|i: ConstraintItem| i@) == v,
            None => res is None,
        },
{
    let ghost ws = string_views(words@);
    let mut items: Vec<ConstraintItem> = Vec::new();
    let mut k: usize = 0;
    while k < words.len()
        invariant
            ws == string_views(words@),
            k <= words@.len(),
            items@.len() == k,
            constraint_items(ws.take(k as int)) matches Some(v) && items@.map_values(|i: ConstraintItem| i@) == v,
        decreases words@.len() - k,
    {
        proof {
            assert(ws.take(k + 1).drop_last() =~= ws.take(k as int));
            assert(ws.take(k + 1).last() == words@[k as int]@);
        }
        let w = &words[k];
        let chars = to_chars(w.as_str());
        let ghost before = items@;
        if check_operator(&chars) {
            items.push(ConstraintItem::Operator(w.clone()));
        } else if chars.len() > 1 && chars[0] == '$' {
            let name = w.as_str().substring_char(1, chars.len()).to_owned();
            proof {
                assert(name@ =~= w@.drop_first());
            }
            items.push(ConstraintItem::Variable(name));
        } else if check_integer(&chars) {
            items.push(ConstraintItem::Number(w.clone()));
        } else {
            proof {
                lemma_items_stay_none(ws, k as int + 1);
            }
            return None;
        }
        proof {
            assert(items@.map_values(|i: ConstraintItem| i@) =~= before.map_values(|i: ConstraintItem| i@).push(items@[k as int]@));
        }
        k += 1;
    }
    assert(ws.take(k as int) =~= ws);
    Some(items)
}

/// Once a word is not an item, the constraint has no items.
proof fn lemma_items_stay_none(ws: Seq<Seq<char>>, k: int)
    requires
        0 <= k <= ws.len(),
        constraint_items(ws.take(k)) is None,
    ensures
        constraint_items(ws) is None,
    decreases ws.len() - k,
{
    if k < ws.len() {
        assert(ws.take(k + 1).drop_last() =~= ws.take(k));
        lemma_items_stay_none(ws, k + 1);
    } else {
        assert(ws.take(k) =~= ws);
    }
}

/// A `GEN` or `VAL` command, from what follows its keyword in `chars[lo..hi]`.
fn parse_manager_line(text: &str, chars: &Vec<char>, lo: usize, hi: usize) -> (res: Option<ManagerLine>)
    requires
        chars@ == text@,
        lo <= hi <= chars@.len(),
    ensures
        match manager_line(chars@.subrange(lo as int, hi as int)) {
            None => res is None,
            Some(m) => res matches Some(x) && x@ == m,
        },
{
    let (n0, n1) = word_at(chars, lo, hi);
    if n0 == n1 {
        assert(first_word(chars@.subrange(lo as int, hi as int)).len() == 0);
        return None;
    }
    let (p0, p1) = word_at(chars, n1, hi);
    let name = text.substring_char(n0, n1).to_owned();
    if p0 == p1 {
        assert(first_word(chars@.subrange(n1 as int, hi as int)).len() == 0);
        return Some(ManagerLine::Select(name));
    }
    let path = text.substring_char(p0, p1).to_owned();
    let args = text.substring_char(p1, hi).to_owned();
    Some(ManagerLine::Define { name, path, args })
}

/// The command whose keyword is `chars[ks..ke]`, followed by `chars[ke..hi]`.
fn parse_command_line(text: &str, chars: &Vec<char>, ks: usize, ke: usize, hi: usize) -> (res: CasesLine)
    requires
        chars@ == text@,
        ks <= ke <= hi <= chars@.len(),
    ensures
        res@ == command_line(chars@.subrange(ks as int, ke as int), chars@.subrange(ke as int, hi as int)),
{
    let ghost name = chars@.subrange(ks as int, ke as int);
    let ghost rest = chars@.subrange(ke as int, hi as int);
    proof {
        reveal_strlit("GEN");
        reveal_strlit("VAL");
        reveal_strlit("CONSTRAINT");
        reveal_strlit("SUBTASK");
        reveal_strlit("COPY");
        reveal_strlit("RUN");
    }
    let kw_gen = vec!['G', 'E', 'N'];
    let kw_val = vec!['V', 'A', 'L'];
    let kw_constraint = vec!['C', 'O', 'N', 'S', 'T', 'R', 'A', 'I', 'N', 'T'];
    let kw_subtask = vec!['S', 'U', 'B', 'T', 'A', 'S', 'K'];
    let kw_copy = vec!['C', 'O', 'P', 'Y'];
    let kw_run = vec!['R', 'U', 'N'];
    proof {
        assert(kw_gen@ =~= "GEN"@);
        assert(kw_val@ =~= "VAL"@);
        assert(kw_constraint@ =~= "CONSTRAINT"@);
        assert(kw_subtask@ =~= "SUBTASK"@);
        assert(kw_copy@ =~= "COPY"@);
        assert(kw_run@ =~= "RUN"@);
    }
    let is_gen = range_is(chars, ks, ke, &kw_gen);
    let is_val = range_is(chars, ks, ke, &kw_val);
    if is_gen || is_val {
        return match parse_manager_line(text, chars, ke, hi) {
            None => CasesLine::Invalid,
            Some(m) => if is_gen { CasesLine::Gen(m) } else { CasesLine::Val(m) },
        };
    }
    if range_is(chars, ks, ke, &kw_constraint) {
        let words = tokenize(text, chars, ke, hi);
        proof {
            assert(string_views(words@) =~= tokens(rest));
        }
        return match parse_constraint_items(&words) {
            Some(items) => CasesLine::Constraint { text: text.substring_char(ke, hi).to_owned(), items },
            None => CasesLine::Invalid,
        };
    }
    if range_is(chars, ks, ke, &kw_subtask) {
        let (w0, w1) = word_at(chars, ke, hi);
        if w0 == w1 {
            return CasesLine::Invalid;
        }
        let d0 = run_end(chars, w1, hi, true);
        let d1 = trim_end(chars, d0, hi);
        proof {
            let a = chars@.subrange(w1 as int, hi as int);
            assert(skip_blanks(a) =~= chars@.subrange(d0 as int, hi as int));
            assert(trim_blanks(a) =~= chars@.subrange(d0 as int, d1 as int));
        }
        let score = text.substring_char(w0, w1).to_owned();
        let description = if d0 < d1 {
            Some(text.substring_char(d0, d1).to_owned())
        } else {
            None
        };
        return CasesLine::Subtask { score, description };
    }
    if range_is(chars, ks, ke, &kw_copy) {
        let words = tokenize(text, chars, ke, hi);
        proof {
            assert(string_views(words@) =~= tokens(rest));
        }
        if words.len() == 1 {
            proof {
                assert(string_views(words@)[0] == words@[0]@);
            }
            return CasesLine::Copy(words[0].clone());
        }
        return CasesLine::Invalid;
    }
    if range_is(chars, ks, ke, &kw_run) {
        let (g0, g1) = word_at(chars, ke, hi);
        if g0 == g1 {
            return CasesLine::Invalid;
        }
        return CasesLine::Run {
            text: text.substring_char(ke, hi).to_owned(),
            name: text.substring_char(g0, g1).to_owned(),
            args: text.substring_char(g1, hi).to_owned(),
        };
    }
    CasesLine::Invalid
}

/// The meaning of the line `text[lo..hi]`, where `chars` are the characters of `text`.
fn classify_cases_line(text: &str, chars: &Vec<char>, lo: usize, hi: usize) -> (res: CasesLine)
    requires
        chars@ == text@,
        lo <= hi <= chars@.len(),
    ensures
        res@ == classify_cases(chars@.subrange(lo as int, hi as int)),
{
    let ghost line = chars@.subrange(lo as int, hi as int);
    let hp = find_char(chars, lo, hi, '#');
    let ghost body = chars@.subrange(lo as int, hp as int);
    proof {
        assert(line.take(hp - lo) =~= body);
    }
    let s0 = run_end(chars, lo, hp, true);
    proof {
        assert(skip_blanks(body) =~= chars@.subrange(s0 as int, hp as int));
    }
    if s0 == hp {
        return CasesLine::Empty;
    }
    if chars[s0] != ':' {
        return CasesLine::Testcase(text.substring_char(lo, hp).to_owned());
    }
    let (ks, ke) = word_at(chars, s0 + 1, hp);
    proof {
        assert(skip_blanks(body).drop_first() =~= chars@.subrange(s0 + 1, hp as int));
    }
    parse_command_line(text, chars, ks, ke, hp)
}

/// The `gen/cases.gen` file parser.
pub struct CasesGenParser;

impl CasesGenParser {
    /// Split the content of a `gen/cases.gen` file into its lines, telling the meaning of each.
    pub fn parse(content: &str) -> (res: Vec<CasesLine>)
        ensures
            res@.map_values(|l: CasesLine| l@) == split_lines(content@).map_values(|l: Seq<char>| classify_cases(l)),
    {
        let chars = to_chars(content);
        let n = chars.len();
        let mut res: Vec<CasesLine> = Vec::new();
        let mut start: usize = 0;
        let mut i: usize = 0;
        proof {
            assert(chars@.take(0) =~= Seq::<char>::empty());
            assert(chars@.subrange(0, 0) =~= Seq::<char>::empty());
            assert(split_lines(chars@.take(0)).drop_last() =~= Seq::<Seq<char>>::empty());
        }
        while i < n
            invariant
                chars@ == content@,
                n == chars@.len(),
                start <= i <= n,
                res@.map_values(|l: CasesLine| l@) == split_lines(chars@.take(i as int)).drop_last().map_values(|l: Seq<char>| classify_cases(l)),
                split_lines(chars@.take(i as int)).len() >= 1,
                split_lines(chars@.take(i as int)).last() == chars@.subrange(start as int, i as int),
            decreases n - i,
        {
            let ghost prev = split_lines(chars@.take(i as int));
            proof {
                assert(chars@.take(i + 1).drop_last() =~= chars@.take(i as int));
                assert(chars@.take(i + 1).last() == chars@[i as int]);
            }
            if chars[i] == '\n' {
                let line = classify_cases_line(content, &chars, start, i);
                let ghost before = res@;
                res.push(line);
                proof {
                    let cur = split_lines(chars@.take(i + 1));
                    assert(cur == prev.push(Seq::<char>::empty()));
                    assert(cur.drop_last() =~= prev);
                    assert(prev =~= prev.drop_last().push(prev.last()));
                    assert(res@.map_values(|l: CasesLine| l@) =~= before.map_values(|l: CasesLine| l@).push(classify_cases(prev.last())));
                    assert(cur.drop_last().map_values(|l: Seq<char>| classify_cases(l)) =~= prev.drop_last().map_values(|l: Seq<char>| classify_cases(l)).push(classify_cases(prev.last())));
                    assert(chars@.subrange(i + 1, i + 1) =~= Seq::<char>::empty());
                }
                start = i + 1;
            } else {
                proof {
                    let cur = split_lines(chars@.take(i + 1));
                    assert(cur == prev.drop_last().push(prev.last().push(chars@[i as int])));
                    assert(cur.drop_last() =~= prev.drop_last());
                    assert(chars@.subrange(start as int, i + 1) =~= chars@.subrange(start as int, i as int).push(chars@[i as int]));
                }
            }
            i += 1;
        }
        let last = classify_cases_line(content, &chars, start, n);
        let ghost before = res@;
        res.push(last);
        proof {
            let all = split_lines(chars@.take(n as int));
            assert(chars@.take(n as int) =~= chars@);
            assert(all =~= all.drop_last().push(all.last()));
            assert(res@.map_values(|l: CasesLine| l@) =~= before.map_values(|l: CasesLine| l@).push(classify_cases(all.last())));
            assert(all.map_values(|l: Seq<char>| classify_cases(l)) =~= all.drop_last().map_values(|l: Seq<char>| classify_cases(l)).push(classify_cases(all.last())));
        }
        res
    }
}

/// The uppercase of the lowercase letters of `inf`, `infinity` and `nan`.
pub open spec fn upper(l: char) -> char {
    if l == 'i' { 'I' } else if l == 'n' { 'N' } else if l == 'f' { 'F' } else if l == 't' { 'T' }
    else if l == 'y' { 'Y' } else if l == 'a' { 'A' } else { l }
}

/// The character `c` is the lowercase letter `l` or its uppercase.
pub open spec fn same_letter(c: char, l: char) -> bool {
    c == l || c == upper(l)
}

fn upper_of(l: char) -> (res: char)
    ensures
        res == upper(l),
{
    if l == 'i' { 'I' } else if l == 'n' { 'N' } else if l == 'f' { 'F' } else if l == 't' { 'T' }
    else if l == 'y' { 'Y' } else if l == 'a' { 'A' } else { l }
}

/// `s` is the lowercase ASCII word `w`, ignoring the case of its letters.
pub open spec fn is_word_ci(s: Seq<char>, w: Seq<char>) -> bool {
    s.len() == w.len() && forall|i: int| 0 <= i < s.len() ==> same_letter(#[trigger] s[i], w[i])
}

/// The position of the first `e` or `E` of `s`, or its length.
pub open spec fn exponent_at(s: Seq<char>) -> int
    decreases s.len(),
{
    if s.len() == 0 {
        0
    } else if s[0] == 'e' || s[0] == 'E' {
        0
    } else {
        1 + exponent_at(s.drop_first())
    }
}

/// The digits of a decimal number, with at most one dot and at least one digit.
pub open spec fn is_mantissa(m: Seq<char>) -> bool {
    let d = first_index(m, '.');
    if d >= m.len() {
        m.len() > 0 && all_digits(m)
    } else {
        all_digits(m.take(d)) && all_digits(m.skip(d + 1)) && m.len() > 1
    }
}

/// The exponent of a decimal number, after the `e`: an optional sign and at least one digit.
pub open spec fn is_exponent(x: Seq<char>) -> bool {
    let y = if x.len() > 0 && (x[0] == '+' || x[0] == '-') { x.drop_first() } else { x };
    y.len() > 0 && all_digits(y)
}

/// `s` without its sign, if it has one.
pub open spec fn unsigned_part(s: Seq<char>) -> Seq<char> {
    if s.len() > 0 && (s[0] == '+' || s[0] == '-') { s.drop_first() } else { s }
}

/// The text of a floating point number as `str::parse::<f64>` accepts it: an optional sign, then
/// `inf`, `infinity` or `nan` in any case, or a decimal number with an optional exponent.
pub open spec fn is_float_text(s: Seq<char>) -> bool {
    let r = unsigned_part(s);
    let e = exponent_at(r);
    ||| is_word_ci(r, seq!['i', 'n', 'f'])
    ||| is_word_ci(r, seq!['i', 'n', 'f', 'i', 'n', 'i', 't', 'y'])
    ||| is_word_ci(r, seq!['n', 'a', 'n'])
    ||| (is_mantissa(r.take(e)) && (e >= r.len() || is_exponent(r.skip(e + 1))))
}

/// Whether every character of `chars[lo..hi]` is a decimal digit.
fn digits_in(chars: &Vec<char>, lo: usize, hi: usize) -> (res: bool)
    requires
        lo <= hi <= chars@.len(),
    ensures
        res == all_digits(chars@.subrange(lo as int, hi as int)),
{
    let mut i = lo;
    while i < hi
        invariant
            lo <= i <= hi <= chars@.len(),
            forall|j: int| lo <= j < i ==> crate::text::is_digit(#[trigger] chars@[j]),
        decreases hi - i,
    {
        if !('0' <= chars[i] && chars[i] <= '9') {
            assert(chars@.subrange(lo as int, hi as int)[i - lo] == chars@[i as int]);
            return false;
        }
        i += 1;
    }
    assert forall|j: int| 0 <= j < hi - lo implies crate::text::is_digit(#[trigger] chars@.subrange(lo as int, hi as int)[j]) by {
        assert(chars@.subrange(lo as int, hi as int)[j] == chars@[lo + j]);
    }
    true
}

/// Whether `chars[lo..hi]` is the lowercase word `w`, ignoring case.
fn word_ci_in(chars: &Vec<char>, lo: usize, hi: usize, w: &Vec<char>) -> (res: bool)
    requires
        lo <= hi <= chars@.len(),
    ensures
        res == is_word_ci(chars@.subrange(lo as int, hi as int), w@),
{
    if hi - lo != w.len() {
        return false;
    }
    let mut i: usize = 0;
    while i < w.len()
        invariant
            lo <= hi <= chars@.len(),
            hi - lo == w@.len(),
            i <= w@.len(),
            forall|j: int| 0 <= j < i ==> same_letter(#[trigger] chars@[lo + j], w@[j]),
        decreases w@.len() - i,
    {
        let c = chars[lo + i];
        let l = w[i];
        if !(c == l || c == upper_of(l)) {
            assert(chars@.subrange(lo as int, hi as int)[i as int] == c);
            return false;
        }
        i += 1;
    }
    assert forall|j: int| 0 <= j < hi - lo implies same_letter(#[trigger] chars@.subrange(lo as int, hi as int)[j], w@[j]) by {
        assert(chars@.subrange(lo as int, hi as int)[j] == chars@[lo + j]);
    }
    true
}

proof fn lemma_exponent_at(s: Seq<char>, i: int)
    requires
        0 <= i <= s.len(),
        forall|j: int| 0 <= j < i ==> (#[trigger] s[j]) != 'e' && s[j] != 'E',
        i == s.len() || s[i] == 'e' || s[i] == 'E',
    ensures
        exponent_at(s) == i,
    decreases i,
{
    if i > 0 {
        assert forall|j: int| 0 <= j < i - 1 implies (#[trigger] s.drop_first()[j]) != 'e' && s.drop_first()[j] != 'E' by {
            assert(s.drop_first()[j] == s[j + 1]);
        }
        if i < s.len() {
            assert(s.drop_first()[i - 1] == s[i]);
        }
        lemma_exponent_at(s.drop_first(), i - 1);
    }
}

/// Whether the text is that of a floating point number (`str::parse::<f64>` succeeds on it).
pub fn check_float(t: &str) -> (res: bool)
    ensures
        res == is_float_text(t@),
{
    let chars = to_chars(t);
    let n = chars.len();
    let lo: usize = if n > 0 && (chars[0] == '+' || chars[0] == '-') { 1 } else { 0 };
    let ghost r = unsigned_part(t@);
    proof {
        assert(r =~= chars@.subrange(lo as int, n as int));
    }
    let inf = vec!['i', 'n', 'f'];
    let infinity = vec!['i', 'n', 'f', 'i', 'n', 'i', 't', 'y'];
    let nan = vec!['n', 'a', 'n'];
    if word_ci_in(&chars, lo, n, &inf) || word_ci_in(&chars, lo, n, &infinity) || word_ci_in(&chars, lo, n, &nan) {
        return true;
    }
    let mut e = lo;
    while e < n && chars[e] != 'e' && chars[e] != 'E'
        invariant
            lo <= e <= n == chars@.len(),
            forall|j: int| lo <= j < e ==> (#[trigger] chars@[j]) != 'e' && chars@[j] != 'E',
        decreases n - e,
    {
        e += 1;
    }
    proof {
        assert forall|j: int| 0 <= j < e - lo implies (#[trigger] r[j]) != 'e' && r[j] != 'E' by {
            assert(r[j] == chars@[lo + j]);
        }
        if e < n {
            assert(r[e - lo] == chars@[e as int]);
        }
        lemma_exponent_at(r, e - lo);
        assert(r.take(e - lo) =~= chars@.subrange(lo as int, e as int));
    }
    let d = find_char(&chars, lo, e, '.');
    let ghost m = chars@.subrange(lo as int, e as int);
    let mantissa = if d == e {
        e > lo && digits_in(&chars, lo, e)
    } else {
        proof {
            assert(m.take(d - lo) =~= chars@.subrange(lo as int, d as int));
            assert(m.skip(d - lo + 1) =~= chars@.subrange(d + 1, e as int));
        }
        digits_in(&chars, lo, d) && digits_in(&chars, d + 1, e) && e - lo > 1
    };
    if !mantissa {
        return false;
    }
    if e == n {
        return true;
    }
    let mut x = e + 1;
    if x < n && (chars[x] == '+' || chars[x] == '-') {
        x += 1;
    }
    proof {
        let xs = r.skip(e - lo + 1);
        assert(xs =~= chars@.subrange(e + 1, n as int));
        if e + 1 < n && (chars@[e + 1] == '+' || chars@[e + 1] == '-') {
            assert(xs.drop_first() =~= chars@.subrange(e + 2, n as int));
        }
    }
    x < n && digits_in(&chars, x, n)
}

/// The words of a text split as a Unix shell does, with quotes and backslashes: `None` when a
/// quote is not closed.
pub uninterp spec fn shell_split(s: Seq<char>) -> Option<Seq<Seq<char>>>;

/// The words of `s` split as a Unix shell does (`shell_words::split` of the shell-words crate),
/// or `None` when a quote is not closed (its only error).
#[verifier::external_body]
fn split_shell_words(s: &str) -> (res: Option<Vec<String>>)
    ensures
        match res {
            Some(v) => shell_split(s@) == Some(string_views(v@)),
            None => shell_split(s@) is None,
        },
{
    shell_words::split(s).ok()
}

/// What the processing of the file knows of a path relative to the task directory: whether a file
/// exists there, and whether it is a source file of a known language.
#[derive(Debug, Clone)]
pub struct PathFact {
    pub path: String,
    pub exists: bool,
    pub known_language: bool,
}

/// Whether a file exists at the path and whether its language is known, by the first fact about
/// the path; a path without facts has no file.
pub open spec fn fact_of(facts: Seq<PathFact>, p: Seq<char>) -> (bool, bool)
    decreases facts.len(),
{
    if facts.len() == 0 {
        (false, false)
    } else if facts[0].path@ == p {
        (facts[0].exists, facts[0].known_language)
    } else {
        fact_of(facts.drop_first(), p)
    }
}

/// Whether a file exists at the path and whether its language is known.
fn lookup_fact(facts: &Vec<PathFact>, p: &str) -> (res: (bool, bool))
    ensures
        res == fact_of(facts@, p@),
{
    let mut i: usize = 0;
    proof { assert(facts@.skip(0) =~= facts@); }
    while i < facts.len()
        invariant
            i <= facts@.len(),
            fact_of(facts@.skip(i as int), p@) == fact_of(facts@, p@),
        decreases facts@.len() - i,
    {
        proof {
            assert(facts@.skip(i as int)[0] == facts@[i as int]);
            assert(facts@.skip(i as int).drop_first() =~= facts@.skip(i + 1));
        }
        if crate::text::str_eq(facts[i].path.as_str(), p) {
            return (facts[i].exists, facts[i].known_language);
        }
        i += 1;
    }
    (false, false)
}

/// A comparison operator of a constraint.
#[derive(Debug, Clone, Copy, PartialEq, Eq, Structural)]
pub enum ConstraintOperator {
    /// Operator `<`.
    Less,
    /// Operator `<=`.
    LessEqual,
    /// Operator `>`.
    Greater,
    /// Operator `>=`.
    GreaterEqual,
    /// Operator `=`.
    Equal,
}

/// The operator written `t`.
pub open spec fn operator_of(t: Seq<char>) -> Option<ConstraintOperator> {
    if t == seq!['<'] {
        Some(ConstraintOperator::Less)
    } else if t == seq!['<', '='] {
        Some(ConstraintOperator::LessEqual)
    } else if t == seq!['>'] {
        Some(ConstraintOperator::Greater)
    } else if t == seq!['>', '='] {
        Some(ConstraintOperator::GreaterEqual)
    } else if t == seq!['='] {
        Some(ConstraintOperator::Equal)
    } else {
        None
    }
}

/// How an operator is written.
pub open spec fn operator_text(op: ConstraintOperator) -> Seq<char> {
    match op {
        ConstraintOperator::Less => seq!['<'],
        ConstraintOperator::LessEqual => seq!['<', '='],
        ConstraintOperator::Greater => seq!['>'],
        ConstraintOperator::GreaterEqual => seq!['>', '='],
        ConstraintOperator::Equal => seq!['='],
    }
}

impl ConstraintOperator {
    /// The operator written `s`, or the error naming it.
    pub fn from_str(s: &str) -> (res: Result<ConstraintOperator, String>)
        ensures
            match operator_of(s@) {
                Some(op) => res == Ok::<ConstraintOperator, String>(op),
                None => res matches Err(m) && m@ == "Invalid operator: "@ + s@,
            },
    {
        let chars = to_chars(s);
        let n = chars.len();
        proof {
            if n == 1 {
                assert(s@ =~= seq![s@[0]]);
            } else if n == 2 {
                assert(s@ =~= seq![s@[0], s@[1]]);
            }
        }
        if n == 1 && chars[0] == '<' {
            Ok(ConstraintOperator::Less)
        } else if n == 2 && chars[0] == '<' && chars[1] == '=' {
            Ok(ConstraintOperator::LessEqual)
        } else if n == 1 && chars[0] == '>' {
            Ok(ConstraintOperator::Greater)
        } else if n == 2 && chars[0] == '>' && chars[1] == '=' {
            Ok(ConstraintOperator::GreaterEqual)
        } else if n == 1 && chars[0] == '=' {
            Ok(ConstraintOperator::Equal)
        } else {
            let mut m = "Invalid operator: ".to_owned();
            crate::text::push_str(&mut m, s);
            Err(m)
        }
    }

    /// How the operator is written.
    pub fn to_string(&self) -> (res: String)
        ensures
            res@ == operator_text(*self),
    {
        let t = match self {
            ConstraintOperator::Less => "<",
            ConstraintOperator::LessEqual => "<=",
            ConstraintOperator::Greater => ">",
            ConstraintOperator::GreaterEqual => ">=",
            ConstraintOperator::Equal => "=",
        };
        proof {
            reveal_strlit("<");
            reveal_strlit("<=");
            reveal_strlit(">");
            reveal_strlit(">=");
            reveal_strlit("=");
        }
        t.to_owned()
    }
}

/// The direction of an operator: `Some(true)` for `<` and `<=`, `Some(false)` for `>` and `>=`,
/// none for `=`.
pub open spec fn direction(op: ConstraintOperator) -> Option<bool> {
    match op {
        ConstraintOperator::Less | ConstraintOperator::LessEqual => Some(true),
        ConstraintOperator::Greater | ConstraintOperator::GreaterEqual => Some(false),
        ConstraintOperator::Equal => None,
    }
}

/// An operand of a constraint.
#[derive(Debug, Clone)]
pub enum ConstraintOperand {
    /// A constant integer value.
    Constant(i64),
    /// A variable, by its name without the dollar sign.
    Variable(String),
}

/// An operand of a constraint, over the characters of its name.
pub enum OperandView {
    Constant(i64),
    Variable(Seq<char>),
}

impl View for ConstraintOperand {
    type V = OperandView;

    open spec fn view(&self) -> OperandView {
        match self {
            ConstraintOperand::Constant(v) => OperandView::Constant(*v),
            ConstraintOperand::Variable(n) => OperandView::Variable(n@),
        }
    }
}

/// A constraint between the variables: operands separated by operators all in the same direction.
#[derive(Debug, Clone)]
pub struct Constraint {
    pub operands: Vec<ConstraintOperand>,
    pub operators: Vec<ConstraintOperator>,
}

/// A constraint, over the views of its operands.
pub open spec fn constraint_view(c: Constraint) -> (Seq<OperandView>, Seq<ConstraintOperator>) {
    (c.operands@.map_values(|o: ConstraintOperand| o@), c.operators@)
}

/// Which program a command is about.
#[derive(Debug, Clone, Copy, PartialEq, Eq, Structural)]
pub enum ManagerKind {
    Generator,
    Validator,
}

/// An error in the `gen/cases.gen` file.
#[derive(Debug, Clone)]
pub enum CasesGenError {
    /// The line with this number (from one) is not a valid line.
    Syntax { line: usize },
    /// A testcase needs the current generator, but none is set.
    NoCurrentGenerator,
    /// The arguments of a testcase have a quote that is not closed.
    InvalidTestcaseArguments { line: String },
    /// A command selects a generator or a validator that was not defined.
    UnknownManager { kind: ManagerKind, name: String },
    /// A command defines a generator or a validator whose file does not exist.
    MissingManagerFile { kind: ManagerKind, name: String, path: String },
    /// A command defines a generator or a validator in a language that is not known.
    UnknownLanguage { kind: ManagerKind, path: String },
    /// The arguments of a generator or a validator have a quote that is not closed.
    InvalidManagerArguments { name: String },
    /// An integer of a constraint does not fit in 64 bits.
    InvalidConstant { constant: String, constraint: String },
    /// An operator of a constraint is not one.
    InvalidOperator { operator: String },
    /// A constraint has operators in both directions.
    MixedDirections,
    /// A constraint does not have one operand more than operators.
    OperatorCount,
    /// A constraint has fewer than two operands.
    TooFewOperands,
    /// The score of the subtask with this id is not a number.
    InvalidScore { subtask: u32 },
    /// A testcase is copied from a file that does not exist.
    MissingCopy { path: String },
    /// The arguments of a `RUN` command have a quote that is not closed.
    InvalidRunArguments { line: String },
    /// A `RUN` command names a generator that was not defined.
    UndeclaredGenerator { name: String },
}

/// An error in the `gen/cases.gen` file, over the characters of its texts.
pub enum CasesIssue {
    Syntax { line: nat },
    NoCurrentGenerator,
    InvalidTestcaseArguments { line: Seq<char> },
    UnknownManager { kind: ManagerKind, name: Seq<char> },
    MissingManagerFile { kind: ManagerKind, name: Seq<char>, path: Seq<char> },
    UnknownLanguage { kind: ManagerKind, path: Seq<char> },
    InvalidManagerArguments { name: Seq<char> },
    InvalidConstant { constant: Seq<char>, constraint: Seq<char> },
    InvalidOperator { operator: Seq<char> },
    MixedDirections,
    OperatorCount,
    TooFewOperands,
    InvalidScore { subtask: nat },
    MissingCopy { path: Seq<char> },
    InvalidRunArguments { line: Seq<char> },
    UndeclaredGenerator { name: Seq<char> },
}

impl View for CasesGenError {
    type V = CasesIssue;

    open spec fn view(&self) -> CasesIssue {
        match self {
            CasesGenError::Syntax { line } => CasesIssue::Syntax { line: *line as nat },
            CasesGenError::NoCurrentGenerator => CasesIssue::NoCurrentGenerator,
            CasesGenError::InvalidTestcaseArguments { line } => CasesIssue::InvalidTestcaseArguments { line: line@ },
            CasesGenError::UnknownManager { kind, name } => CasesIssue::UnknownManager { kind: *kind, name: name@ },
            CasesGenError::MissingManagerFile { kind, name, path } => CasesIssue::MissingManagerFile {
                kind: *kind,
                name: name@,
                path: path@,
            },
            CasesGenError::UnknownLanguage { kind, path } => CasesIssue::UnknownLanguage { kind: *kind, path: path@ },
            CasesGenError::InvalidManagerArguments { name } => CasesIssue::InvalidManagerArguments { name: name@ },
            CasesGenError::InvalidConstant { constant, constraint } => CasesIssue::InvalidConstant {
                constant: constant@,
                constraint: constraint@,
            },
            CasesGenError::InvalidOperator { operator } => CasesIssue::InvalidOperator { operator: operator@ },
            CasesGenError::MixedDirections => CasesIssue::MixedDirections,
            CasesGenError::OperatorCount => CasesIssue::OperatorCount,
            CasesGenError::TooFewOperands => CasesIssue::TooFewOperands,
            CasesGenError::InvalidScore { subtask } => CasesIssue::InvalidScore { subtask: *subtask as nat },
            CasesGenError::MissingCopy { path } => CasesIssue::MissingCopy { path: path@ },
            CasesGenError::InvalidRunArguments { line } => CasesIssue::InvalidRunArguments { line: line@ },
            CasesGenError::UndeclaredGenerator { name } => CasesIssue::UndeclaredGenerator { name: name@ },
        }
    }
}

/// The value of the text of an `i64`.
pub open spec fn bounded_i64(t: Seq<char>) -> Option<i64> {
    match signed_value(t) {
        Some(v) => if i64::MIN <= v <= i64::MAX { Some(v as i64) } else { None },
        None => None,
    }
}

/// The operands and operators read so far from a constraint, and its direction if known.
pub struct ConstraintAcc {
    pub operands: Seq<OperandView>,
    pub operators: Seq<ConstraintOperator>,
    pub direction: Option<bool>,
}

/// Reads one more item of the constraint written `text`.
pub open spec fn constraint_item_step(acc: ConstraintAcc, item: ConstraintItemView, text: Seq<char>) -> Result<ConstraintAcc, CasesIssue> {
    match item {
        ConstraintItemView::Number(t) => match bounded_i64(t) {
            Some(v) => Ok(ConstraintAcc { operands: acc.operands.push(OperandView::Constant(v)), ..acc }),
            None => Err(CasesIssue::InvalidConstant { constant: t, constraint: text }),
        },
        ConstraintItemView::Variable(n) => Ok(ConstraintAcc { operands: acc.operands.push(OperandView::Variable(n)), ..acc }),
        ConstraintItemView::Operator(t) => match operator_of(t) {
            None => Err(CasesIssue::InvalidOperator { operator: t }),
            Some(op) => {
                let dir = direction(op);
                let d = if acc.direction is None { dir } else { acc.direction };
                if dir is Some && d != dir {
                    Err(CasesIssue::MixedDirections)
                } else {
                    Ok(ConstraintAcc { operators: acc.operators.push(op), direction: d, ..acc })
                }
            },
        },
    }
}

/// Reads the items of the constraint written `text`, stopping at the first error.
pub open spec fn constraint_fold(items: Seq<ConstraintItemView>, text: Seq<char>) -> Result<ConstraintAcc, CasesIssue>
    decreases items.len(),
{
    if items.len() == 0 {
        Ok(ConstraintAcc { operands: Seq::empty(), operators: Seq::empty(), direction: None })
    } else {
        match constraint_fold(items.drop_last(), text) {
            Err(e) => Err(e),
            Ok(acc) => constraint_item_step(acc, items.last(), text),
        }
    }
}

/// The constraint made of the items, once they are all read: one operand more than operators,
/// and at least two operands.
pub open spec fn constraint_result(items: Seq<ConstraintItemView>, text: Seq<char>) -> Result<(Seq<OperandView>, Seq<ConstraintOperator>), CasesIssue> {
    match constraint_fold(items, text) {
        Err(e) => Err(e),
        Ok(acc) => if acc.operators.len() + 1 != acc.operands.len() {
            Err(CasesIssue::OperatorCount)
        } else if acc.operands.len() < 2 {
            Err(CasesIssue::TooFewOperands)
        } else {
            Ok((acc.operands, acc.operators))
        },
    }
}

/// The constraint made of the items of a `CONSTRAINT` command.
fn build_constraint(text: &String, items: &Vec<ConstraintItem>) -> (res: Result<Constraint, CasesGenError>)
    ensures
        match constraint_result(items@.map_values(|i: ConstraintItem| i@), text@) {
            Ok(c) => res matches Ok(x) && constraint_view(x) == c,
            Err(e) => res matches Err(x) && x@ == e,
        },
{
    let ghost iv = items@.map_values(|i: ConstraintItem| i@);
    let mut operands: Vec<ConstraintOperand> = Vec::new();
    let mut operators: Vec<ConstraintOperator> = Vec::new();
    let mut dir: Option<bool> = None;
    let mut k: usize = 0;
    proof {
        assert(iv.take(0) =~= Seq::<ConstraintItemView>::empty());
        assert(operands@.map_values(|o: ConstraintOperand| o@) =~= Seq::<OperandView>::empty());
    }
    while k < items.len()
        invariant
            iv == items@.map_values(|i: ConstraintItem| i@),
            k <= items@.len(),
            constraint_fold(iv.take(k as int), text@) == Ok::<ConstraintAcc, CasesIssue>(ConstraintAcc {
                operands: operands@.map_values(|o: ConstraintOperand| o@),
                operators: operators@,
                direction: dir,
            }),
        decreases items@.len() - k,
    {
        proof {
            assert(iv.take(k + 1).drop_last() =~= iv.take(k as int));
            assert(iv.take(k + 1).last() == items@[k as int]@);
        }
        let ghost ov = operands@.map_values(|o: ConstraintOperand| o@);
        match &items[k] {
            ConstraintItem::Number(t) => match crate::text::parse_i64(t.as_str()) {
                Some(v) => {
                    operands.push(ConstraintOperand::Constant(v));
                    proof {
                        assert(operands@.map_values(|o: ConstraintOperand| o@) =~= ov.push(OperandView::Constant(v)));
                    }
                },
                None => {
                    proof { lemma_fold_stays_err(iv, text@, k as int + 1); }
                    return Err(CasesGenError::InvalidConstant { constant: t.clone(), constraint: text.clone() });
                },
            },
            ConstraintItem::Variable(n) => {
                let ghost nv = n@;
                operands.push(ConstraintOperand::Variable(n.clone()));
                proof {
                    assert(operands@.map_values(|o: ConstraintOperand| o@) =~= ov.push(OperandView::Variable(nv)));
                }
            },
            ConstraintItem::Operator(t) => match ConstraintOperator::from_str(t.as_str()) {
                Err(_) => {
                    proof { lemma_fold_stays_err(iv, text@, k as int + 1); }
                    return Err(CasesGenError::InvalidOperator { operator: t.clone() });
                },
                Ok(op) => {
                    let d = match op {
                        ConstraintOperator::Less | ConstraintOperator::LessEqual => Some(true),
                        ConstraintOperator::Greater | ConstraintOperator::GreaterEqual => Some(false),
                        ConstraintOperator::Equal => None,
                    };
                    let nd = if dir.is_none() { d } else { dir };
                    if d.is_some() && nd != d {
                        proof { lemma_fold_stays_err(iv, text@, k as int + 1); }
                        return Err(CasesGenError::MixedDirections);
                    }
                    operators.push(op);
                    dir = nd;
                },
            },
        }
        k += 1;
    }
    assert(iv.take(k as int) =~= iv);
    if operands.len() == 0 || operators.len() != operands.len() - 1 {
        return Err(CasesGenError::OperatorCount);
    }
    if operands.len() < 2 {
        return Err(CasesGenError::TooFewOperands);
    }
    Ok(Constraint { operands, operators })
}

/// Once reading a constraint fails, it fails on the whole constraint with the same error.
proof fn lemma_fold_stays_err(items: Seq<ConstraintItemView>, text: Seq<char>, k: int)
    requires
        0 <= k <= items.len(),
        constraint_fold(items.take(k), text) is Err,
    ensures
        constraint_fold(items, text) == constraint_fold(items.take(k), text),
    decreases items.len() - k,
{
    if k < items.len() {
        assert(items.take(k + 1).drop_last() =~= items.take(k));
        lemma_fold_stays_err(items, text, k + 1);
    } else {
        assert(items.take(k) =~= items);
    }
}

/// A generator or a validator defined in the file: its source file and its arguments.
#[derive(Debug, Clone)]
pub struct Manager {
    pub source: SourceFile,
    pub args: Vec<String>,
}

/// The programs defined in the file, by name: the path of the source and the arguments.
pub open spec fn managers_view(ms: Seq<(String, Manager)>) -> Seq<(Seq<char>, Seq<char>, Seq<Seq<char>>)> {
    ms.map_values(|m: (String, Manager)| (m.0@, m.1.source.path@, string_views(m.1.args@)))
}

/// The program defined last with the given name: the path of its source and its arguments.
pub open spec fn lookup_manager(ms: Seq<(Seq<char>, Seq<char>, Seq<Seq<char>>)>, name: Seq<char>) -> Option<(Seq<char>, Seq<Seq<char>>)>
    decreases ms.len(),
{
    if ms.len() == 0 {
        None
    } else if ms.last().0 == name {
        Some((ms.last().1, ms.last().2))
    } else {
        lookup_manager(ms.drop_last(), name)
    }
}

/// An entry produced by the file, over the characters of its texts.
pub enum EntryView {
    /// A subtask: its id, description, score and the number of its testcases.
    Subtask { id: nat, description: Option<Seq<char>>, score: Seq<char>, testcases: nat },
    /// A testcase: its id and how its input is made, validated and answered.
    Testcase { id: nat, input: CommandView, validator: CommandView, output: CommandView },
}

/// The view of an entry.
pub open spec fn entry_view(e: TaskInputEntry) -> EntryView {
    match e {
        TaskInputEntry::Subtask(s) => EntryView::Subtask {
            id: s.id as nat,
            description: match s.description {
                Some(d) => Some(d@),
                None => None,
            },
            score: s.max_score@,
            testcases: s.testcases@.len(),
        },
        TaskInputEntry::Testcase(t) => EntryView::Testcase {
            id: t.id as nat,
            input: t.input_generator@,
            validator: t.input_validator@,
            output: t.output_generator@,
        },
    }
}

/// The view of an optional text.
pub open spec fn opt_view(o: Option<String>) -> Option<Seq<char>> {
    match o {
        Some(s) => Some(s@),
        None => None,
    }
}

/// The state of the reading of the file: the entries produced, the constraints, the programs
/// defined, the default and current ones, and the ids of the next subtask and testcase.
pub struct CasesView {
    pub result: Seq<EntryView>,
    pub constraints: Seq<(Seq<OperandView>, Seq<ConstraintOperator>)>,
    pub generators: Seq<(Seq<char>, Seq<char>, Seq<Seq<char>>)>,
    pub validators: Seq<(Seq<char>, Seq<char>, Seq<Seq<char>>)>,
    pub default_generator: Option<Seq<char>>,
    pub default_validator: Option<Seq<char>>,
    pub current_generator: Option<Seq<char>>,
    pub current_validator: Option<Seq<char>>,
    pub subtask_id: nat,
    pub testcase_id: nat,
}

/// The state of the reading of a `gen/cases.gen` file.
#[derive(Debug)]
pub struct CasesGen {
    /// The entries produced so far.
    pub result: Vec<TaskInputEntry>,
    /// The constraints found so far.
    pub constraints: Vec<Constraint>,
    /// The generators, by name; a later definition overrides an earlier one.
    pub generators: Vec<(String, Manager)>,
    /// The validators, by name; a later definition overrides an earlier one.
    pub validators: Vec<(String, Manager)>,
    /// The default generator: the one named `default`, or the first one defined.
    pub default_generator: Option<String>,
    /// The default validator: the one named `default`, or the first one defined.
    pub default_validator: Option<String>,
    /// The generator of the current subtask.
    pub current_generator: Option<String>,
    /// The validator of the current subtask.
    pub current_validator: Option<String>,
    /// The id of the next subtask.
    pub subtask_id: u32,
    /// The id of the next testcase.
    pub testcase_id: u32,
}

impl View for CasesGen {
    type V = CasesView;

    open spec fn view(&self) -> CasesView {
        CasesView {
            result: self.result@.map_values(|e: TaskInputEntry| entry_view(e)),
            constraints: self.constraints@.map_values(|c: Constraint| constraint_view(c)),
            generators: managers_view(self.generators@),
            validators: managers_view(self.validators@),
            default_generator: opt_view(self.default_generator),
            default_validator: opt_view(self.default_validator),
            current_generator: opt_view(self.current_generator),
            current_validator: opt_view(self.current_validator),
            subtask_id: self.subtask_id as nat,
            testcase_id: self.testcase_id as nat,
        }
    }
}

/// The state before the first line.
pub open spec fn cases_start() -> CasesView {
    CasesView {
        result: Seq::empty(),
        constraints: Seq::empty(),
        generators: Seq::empty(),
        validators: Seq::empty(),
        default_generator: None,
        default_validator: None,
        current_generator: None,
        current_validator: None,
        subtask_id: 0,
        testcase_id: 0,
    }
}

/// The number, from zero, of the subtask the testcases belong to: the last one started.
pub open spec fn current_subtask(st: CasesView) -> nat {
    if st.subtask_id > 0 { (st.subtask_id - 1) as nat } else { 0 }
}

/// The validator of the next testcase: the current validator, given the file to validate and the
/// number of the subtask, or none.
pub open spec fn validator_view(st: CasesView) -> CommandView {
    match st.current_validator {
        None => CommandView::Nothing,
        Some(v) => match lookup_manager(st.validators, v) {
            None => CommandView::Nothing,
            Some((src, _)) => CommandView::Program(src, seq![TM_VALIDATION_FILE_NAME@, decimal(current_subtask(st))]),
        },
    }
}

/// How the official output of the testcase with the given id is made.
pub open spec fn official_view(official: OfficialOutput, tc: nat) -> CommandView {
    match official {
        OfficialOutput::Solution(s) => CommandView::Program(s.path@, Seq::empty()),
        OfficialOutput::StaticFiles => CommandView::File(crate::ioi::static_output_path(tc)),
        OfficialOutput::NotAvailable => CommandView::Nothing,
    }
}

/// Adds a testcase whose input is made by `input`.
pub open spec fn push_testcase(st: CasesView, input: CommandView, official: OfficialOutput) -> CasesView {
    CasesView {
        result: st.result.push(EntryView::Testcase {
            id: st.testcase_id,
            input,
            validator: validator_view(st),
            output: official_view(official, st.testcase_id),
        }),
        testcase_id: st.testcase_id + 1,
        ..st
    }
}

/// The effect of a `GEN` (`generator` holds) or `VAL` command.
pub open spec fn manager_step(st: CasesView, m: ManagerLineView, generator: bool, facts: Seq<PathFact>) -> Result<CasesView, CasesIssue> {
    let kind = if generator { ManagerKind::Generator } else { ManagerKind::Validator };
    let ms = if generator { st.generators } else { st.validators };
    match m {
        ManagerLineView::Select(name) => if lookup_manager(ms, name) is None {
            Err(CasesIssue::UnknownManager { kind, name })
        } else if generator {
            Ok(CasesView { current_generator: Some(name), ..st })
        } else {
            Ok(CasesView { current_validator: Some(name), ..st })
        },
        ManagerLineView::Define { name, path, args } => {
            let (exists, known) = fact_of(facts, path);
            if !exists {
                Err(CasesIssue::MissingManagerFile { kind, name, path })
            } else if !known {
                Err(CasesIssue::UnknownLanguage { kind, path })
            } else {
                match shell_split(args) {
                    None => Err(CasesIssue::InvalidManagerArguments { name }),
                    Some(a) => {
                        let ms2 = ms.push((name, path, a));
                        let d = if generator { st.default_generator } else { st.default_validator };
                        let d2 = if d is None || name == "default"@ { Some(name) } else { d };
                        if generator {
                            Ok(CasesView { generators: ms2, default_generator: d2, ..st })
                        } else {
                            Ok(CasesView { validators: ms2, default_validator: d2, ..st })
                        }
                    },
                }
            }
        },
    }
}

/// The effect of a line on the state, or the error it raises.
pub open spec fn cases_step(st: CasesView, line: CasesLineView, facts: Seq<PathFact>, official: OfficialOutput) -> Result<CasesView, CasesIssue> {
    match line {
        CasesLineView::Empty => Ok(st),
        CasesLineView::Invalid => Ok(st),
        CasesLineView::Testcase(body) => match st.current_generator {
            None => Err(CasesIssue::NoCurrentGenerator),
            Some(g) => match shell_split(body) {
                None => Err(CasesIssue::InvalidTestcaseArguments { line: body }),
                Some(args) => match lookup_manager(st.generators, g) {
                    None => Err(CasesIssue::NoCurrentGenerator),
                    Some((src, _)) => Ok(push_testcase(st, CommandView::Program(src, args), official)),
                },
            },
        },
        CasesLineView::Gen(m) => manager_step(st, m, true, facts),
        CasesLineView::Val(m) => manager_step(st, m, false, facts),
        CasesLineView::Constraint { text, items } => match constraint_result(items, text) {
            Err(e) => Err(e),
            Ok(c) => Ok(CasesView { constraints: st.constraints.push(c), ..st }),
        },
        CasesLineView::Subtask { score, description } => if !is_float_text(score) {
            Err(CasesIssue::InvalidScore { subtask: st.subtask_id })
        } else {
            Ok(CasesView {
                result: st.result.push(EntryView::Subtask { id: st.subtask_id, description, score, testcases: 0 }),
                subtask_id: st.subtask_id + 1,
                current_generator: st.default_generator,
                current_validator: st.default_validator,
                ..st
            })
        },
        CasesLineView::Copy(path) => if !fact_of(facts, path).0 {
            Err(CasesIssue::MissingCopy { path })
        } else {
            Ok(push_testcase(st, CommandView::File(path), official))
        },
        CasesLineView::Run { text, name, args } => match shell_split(args) {
            None => Err(CasesIssue::InvalidRunArguments { line: text }),
            Some(a) => match lookup_manager(st.generators, name) {
                None => Err(CasesIssue::UndeclaredGenerator { name }),
                Some((src, _)) => Ok(push_testcase(st, CommandView::Program(src, a), official)),
            },
        },
    }
}

/// The state after the lines, or the first error they raise.
pub open spec fn cases_fold(lines: Seq<CasesLineView>, facts: Seq<PathFact>, official: OfficialOutput) -> Result<CasesView, CasesIssue>
    decreases lines.len(),
{
    if lines.len() == 0 {
        Ok(cases_start())
    } else {
        match cases_fold(lines.drop_last(), facts, official) {
            Err(e) => Err(e),
            Ok(st) => cases_step(st, lines.last(), facts, official),
        }
    }
}

/// The position of the first line that is not a valid line, if any.
pub open spec fn first_invalid(lines: Seq<CasesLineView>) -> Option<nat>
    decreases lines.len(),
{
    if lines.len() == 0 {
        None
    } else {
        match first_invalid(lines.drop_last()) {
            Some(i) => Some(i),
            None => if lines.last() is Invalid { Some((lines.len() - 1) as nat) } else { None },
        }
    }
}

/// The outcome of reading the lines of a `gen/cases.gen` file: the file must be made of valid
/// lines only, then each line is applied in turn.
pub open spec fn cases_result(lines: Seq<CasesLineView>, facts: Seq<PathFact>, official: OfficialOutput) -> Result<CasesView, CasesIssue> {
    match first_invalid(lines) {
        Some(i) => Err(CasesIssue::Syntax { line: i + 1 }),
        None => cases_fold(lines, facts, official),
    }
}

/// A copy of an optional text.
fn copy_opt(o: &Option<String>) -> (res: Option<String>)
    ensures
        opt_view(res) == opt_view(*o),
{
    match o {
        Some(s) => Some(s.clone()),
        None => None,
    }
}

/// The program defined last with the given name.
fn find_manager<'a>(ms: &'a Vec<(String, Manager)>, name: &str) -> (res: Option<&'a Manager>)
    ensures
        match lookup_manager(managers_view(ms@), name@) {
            None => res is None,
            Some((src, args)) => res matches Some(m) && m.source.path@ == src && string_views(m.args@) == args,
        },
{
    let ghost mv = managers_view(ms@);
    let mut i: usize = ms.len();
    proof { assert(mv.take(i as int) =~= mv); }
    while i > 0
        invariant
            mv == managers_view(ms@),
            i <= ms@.len(),
            lookup_manager(mv.take(i as int), name@) == lookup_manager(mv, name@),
        decreases i,
    {
        proof {
            assert(mv.take(i as int).drop_last() =~= mv.take(i - 1));
            assert(mv.take(i as int).last() == mv[i - 1]);
        }
        if crate::text::str_eq(ms[i - 1].0.as_str(), name) {
            return Some(&ms[i - 1].1);
        }
        i -= 1;
    }
    None
}

/// How the official output of the testcase with the given id is made.
fn official_output(official: &OfficialOutput, tc: u32) -> (res: crate::ioi::OutputGenerator)
    ensures
        res@ == official_view(*official, tc as nat),
{
    let res = official.output_generator(tc);
    let ghost r = res;
    proof {
        match r {
            crate::ioi::OutputGenerator::Custom(_, a) => {
                assert(string_views(a@) =~= Seq::<Seq<char>>::empty());
            },
            _ => {},
        }
    }
    res
}

impl CasesGen {
    /// The state before the first line.
    pub fn new() -> (res: CasesGen)
        ensures
            res@ == cases_start(),
    {
        let res = CasesGen {
            result: Vec::new(),
            constraints: Vec::new(),
            generators: Vec::new(),
            validators: Vec::new(),
            default_generator: None,
            default_validator: None,
            current_generator: None,
            current_validator: None,
            subtask_id: 0,
            testcase_id: 0,
        };
        proof {
            assert(res@.result =~= Seq::<EntryView>::empty());
            assert(res@.constraints =~= Seq::<(Seq<OperandView>, Seq<ConstraintOperator>)>::empty());
            assert(res@.generators =~= Seq::<(Seq<char>, Seq<char>, Seq<Seq<char>>)>::empty());
            assert(res@.validators =~= Seq::<(Seq<char>, Seq<char>, Seq<Seq<char>>)>::empty());
        }
        res
    }

    /// Get the current validator for the next testcase.
    pub fn get_validator(&self) -> (res: InputValidator)
        ensures
            res@ == validator_view(self@),
    {
        match &self.current_validator {
            None => InputValidator::AssumeValid,
            Some(v) => match find_manager(&self.validators, v.as_str()) {
                None => InputValidator::AssumeValid,
                Some(m) => {
                    let mut args: Vec<String> = Vec::new();
                    args.push(TM_VALIDATION_FILE_NAME.to_owned());
                    let st: u32 = if self.subtask_id > 0 { self.subtask_id - 1 } else { 0 };
                    args.push(crate::text::u64_to_string(st as u64));
                    proof {
                        assert(string_views(args@) =~= seq![TM_VALIDATION_FILE_NAME@, decimal(current_subtask(self@))]);
                    }
                    InputValidator::Custom(m.source.clone(), args)
                },
            },
        }
    }

    /// Adds a testcase whose input is made by `input`.
    fn add_testcase(&mut self, input: InputGenerator, official: &OfficialOutput)
        requires
            old(self).testcase_id < u32::MAX,
        ensures
            final(self)@ == push_testcase(old(self)@, input@, *official),
    {
        let validator = self.get_validator();
        let output = official_output(official, self.testcase_id);
        let tc = TestcaseInfo {
            id: self.testcase_id,
            input_generator: input,
            input_validator: validator,
            output_generator: output,
        };
        let ghost before = self.result@;
        let ghost ev = entry_view(TaskInputEntry::Testcase(tc));
        self.result.push(TaskInputEntry::Testcase(tc));
        proof {
            assert(self.result@.map_values(|e: TaskInputEntry| entry_view(e))
                =~= before.map_values(|e: TaskInputEntry| entry_view(e)).push(ev));
        }
        self.testcase_id = self.testcase_id + 1;
    }

    /// The effect of a `GEN` (`generator` holds) or `VAL` command.
    fn manager_command(&mut self, m: &ManagerLine, generator: bool, facts: &Vec<PathFact>) -> (res: Result<(), CasesGenError>)
        ensures
            match manager_step(old(self)@, m@, generator, facts@) {
                Ok(v) => res is Ok && final(self)@ == v,
                Err(e) => res matches Err(x) && x@ == e,
            },
    {
        let kind = if generator { ManagerKind::Generator } else { ManagerKind::Validator };
        match m {
            ManagerLine::Select(name) => {
                let found = if generator {
                    find_manager(&self.generators, name.as_str()).is_some()
                } else {
                    find_manager(&self.validators, name.as_str()).is_some()
                };
                if !found {
                    return Err(CasesGenError::UnknownManager { kind, name: name.clone() });
                }
                if generator {
                    self.current_generator = Some(name.clone());
                } else {
                    self.current_validator = Some(name.clone());
                }
                Ok(())
            },
            ManagerLine::Define { name, path, args } => {
                let (exists, known) = lookup_fact(facts, path.as_str());
                if !exists {
                    return Err(CasesGenError::MissingManagerFile { kind, name: name.clone(), path: path.clone() });
                }
                if !known {
                    return Err(CasesGenError::UnknownLanguage { kind, path: path.clone() });
                }
                let a = match split_shell_words(args.as_str()) {
                    None => {
                        return Err(CasesGenError::InvalidManagerArguments { name: name.clone() });
                    },
                    Some(a) => a,
                };
                let ghost av = string_views(a@);
                let entry = (name.clone(), Manager { source: SourceFile { path: path.clone() }, args: a });
                let is_default = crate::text::str_eq(name.as_str(), "default");
                if generator {
                    let ghost before = self.generators@;
                    self.generators.push(entry);
                    proof {
                        assert(managers_view(self.generators@) =~= managers_view(before).push((name@, path@, av)));
                    }
                    if self.default_generator.is_none() || is_default {
                        self.default_generator = Some(name.clone());
                    }
                } else {
                    let ghost before = self.validators@;
                    self.validators.push(entry);
                    proof {
                        assert(managers_view(self.validators@) =~= managers_view(before).push((name@, path@, av)));
                    }
                    if self.default_validator.is_none() || is_default {
                        self.default_validator = Some(name.clone());
                    }
                }
                Ok(())
            },
        }
    }

    /// The effect of a line on the state, or the error it raises.
    pub fn step(&mut self, line: &CasesLine, facts: &Vec<PathFact>, official: &OfficialOutput) -> (res: Result<(), CasesGenError>)
        requires
            old(self).testcase_id < u32::MAX,
            old(self).subtask_id < u32::MAX,
        ensures
            match cases_step(old(self)@, line@, facts@, *official) {
                Ok(v) => res is Ok && final(self)@ == v,
                Err(e) => res matches Err(x) && x@ == e,
            },
    {
        match line {
            CasesLine::Empty => Ok(()),
            CasesLine::Invalid => Ok(()),
            CasesLine::Testcase(body) => {
                let g = match &self.current_generator {
                    None => {
                        return Err(CasesGenError::NoCurrentGenerator);
                    },
                    Some(g) => g.clone(),
                };
                let args = match split_shell_words(body.as_str()) {
                    None => {
                        return Err(CasesGenError::InvalidTestcaseArguments { line: body.clone() });
                    },
                    Some(a) => a,
                };
                let source = match find_manager(&self.generators, g.as_str()) {
                    None => {
                        return Err(CasesGenError::NoCurrentGenerator);
                    },
                    Some(m) => m.source.clone(),
                };
                self.add_testcase(InputGenerator::Custom(source, args), official);
                Ok(())
            },
            CasesLine::Gen(m) => self.manager_command(m, true, facts),
            CasesLine::Val(m) => self.manager_command(m, false, facts),
            CasesLine::Constraint { text, items } => match build_constraint(text, items) {
                Err(e) => Err(e),
                Ok(c) => {
                    let ghost before = self.constraints@;
                    let ghost cv = constraint_view(c);
                    self.constraints.push(c);
                    proof {
                        assert(self.constraints@.map_values(|c: Constraint| constraint_view(c))
                            =~= before.map_values(|c: Constraint| constraint_view(c)).push(cv));
                    }
                    Ok(())
                },
            },
            CasesLine::Subtask { score, description } => {
                if !check_float(score.as_str()) {
                    return Err(CasesGenError::InvalidScore { subtask: self.subtask_id });
                }
                let info = SubtaskInfo {
                    id: self.subtask_id,
                    description: copy_opt(description),
                    max_score: score.clone(),
                    testcases: Vec::new(),
                };
                let ghost before = self.result@;
                let ghost ev = entry_view(TaskInputEntry::Subtask(info));
                self.result.push(TaskInputEntry::Subtask(info));
                proof {
                    assert(self.result@.map_values(|e: TaskInputEntry| entry_view(e))
                        =~= before.map_values(|e: TaskInputEntry| entry_view(e)).push(ev));
                }
                self.subtask_id = self.subtask_id + 1;
                self.current_generator = copy_opt(&self.default_generator);
                self.current_validator = copy_opt(&self.default_validator);
                Ok(())
            },
            CasesLine::Copy(path) => {
                let (exists, _) = lookup_fact(facts, path.as_str());
                if !exists {
                    return Err(CasesGenError::MissingCopy { path: path.clone() });
                }
                self.add_testcase(InputGenerator::StaticFile(path.clone()), official);
                Ok(())
            },
            CasesLine::Run { text, name, args } => {
                let a = match split_shell_words(args.as_str()) {
                    None => {
                        return Err(CasesGenError::InvalidRunArguments { line: text.clone() });
                    },
                    Some(a) => a,
                };
                let source = match find_manager(&self.generators, name.as_str()) {
                    None => {
                        return Err(CasesGenError::UndeclaredGenerator { name: name.clone() });
                    },
                    Some(m) => m.source.clone(),
                };
                self.add_testcase(InputGenerator::Custom(source, a), official);
                Ok(())
            },
        }
    }
}

/// Once the reading fails, the file fails with the same error.
proof fn lemma_cases_fold_stays_err(lines: Seq<CasesLineView>, facts: Seq<PathFact>, official: OfficialOutput, k: int)
    requires
        0 <= k <= lines.len(),
        cases_fold(lines.take(k), facts, official) is Err,
    ensures
        cases_fold(lines, facts, official) == cases_fold(lines.take(k), facts, official),
    decreases lines.len() - k,
{
    if k < lines.len() {
        assert(lines.take(k + 1).drop_last() =~= lines.take(k));
        lemma_cases_fold_stays_err(lines, facts, official, k + 1);
    } else {
        assert(lines.take(k) =~= lines);
    }
}

/// A line adds at most one subtask and one testcase.
proof fn lemma_step_ids(st: CasesView, line: CasesLineView, facts: Seq<PathFact>, official: OfficialOutput)
    ensures
        cases_step(st, line, facts, official) matches Ok(v) ==> v.testcase_id <= st.testcase_id + 1
            && v.subtask_id <= st.subtask_id + 1,
{
}

/// The first invalid line of a prefix is that of the whole file.
proof fn lemma_first_invalid_prefix(lines: Seq<CasesLineView>, k: int)
    requires
        0 <= k <= lines.len(),
        first_invalid(lines.take(k)) is Some,
    ensures
        first_invalid(lines) == first_invalid(lines.take(k)),
    decreases lines.len() - k,
{
    if k < lines.len() {
        assert(lines.take(k + 1).drop_last() =~= lines.take(k));
        lemma_first_invalid_prefix(lines, k + 1);
    } else {
        assert(lines.take(k) =~= lines);
    }
}

impl CasesGen {
    /// Reads the lines of a `gen/cases.gen` file: the file must be made of valid lines only, then
    /// each line is applied in turn, and the first error stops the reading.
    pub fn process(lines: &Vec<CasesLine>, facts: &Vec<PathFact>, official: &OfficialOutput) -> (res: Result<CasesGen, CasesGenError>)
        requires
            lines@.len() < u32::MAX,
        ensures
            match cases_result(lines@.map_values(|l: CasesLine| l@), facts@, *official) {
                Ok(v) => res matches Ok(c) && c@ == v,
                Err(e) => res matches Err(x) && x@ == e,
            },
    {
        let ghost lv = lines@.map_values(|l: CasesLine| l@);
        let mut i: usize = 0;
        proof { assert(lv.take(0) =~= Seq::<CasesLineView>::empty()); }
        while i < lines.len()
            invariant
                lv == lines@.map_values(|l: CasesLine| l@),
                i <= lines@.len(),
                first_invalid(lv.take(i as int)) is None,
            decreases lines@.len() - i,
        {
            proof {
                assert(lv.take(i + 1).drop_last() =~= lv.take(i as int));
                assert(lv.take(i + 1).last() == lines@[i as int]@);
            }
            match &lines[i] {
                CasesLine::Invalid => {
                    proof {
                        assert(first_invalid(lv.take(i + 1)) == Some(i as nat));
                        lemma_first_invalid_prefix(lv, i + 1);
                    }
                    return Err(CasesGenError::Syntax { line: i + 1 });
                },
                _ => {},
            }
            i += 1;
        }
        proof { assert(lv.take(i as int) =~= lv); }
        let mut st = CasesGen::new();
        let mut k: usize = 0;
        proof { assert(lv.take(0) =~= Seq::<CasesLineView>::empty()); }
        while k < lines.len()
            invariant
                lv == lines@.map_values(|l: CasesLine| l@),
                first_invalid(lv) is None,
                lines@.len() < u32::MAX,
                k <= lines@.len(),
                cases_fold(lv.take(k as int), facts@, *official) == Ok::<CasesView, CasesIssue>(st@),
                st.testcase_id <= k,
                st.subtask_id <= k,
            decreases lines@.len() - k,
        {
            proof {
                assert(lv.take(k + 1).drop_last() =~= lv.take(k as int));
                assert(lv.take(k + 1).last() == lines@[k as int]@);
                lemma_step_ids(st@, lines@[k as int]@, facts@, *official);
            }
            match st.step(&lines[k], facts, official) {
                Err(e) => {
                    proof { lemma_cases_fold_stays_err(lv, facts@, *official, k + 1); }
                    return Err(e);
                },
                Ok(()) => {},
            }
            k += 1;
        }
        proof { assert(lv.take(k as int) =~= lv); }
        Ok(st)
    }
}

/// Parse the `gen/cases.gen` file extracting the subtasks and the testcases, given what is known
/// of the files its paths name and where the official output files come from.
pub fn parse_cases_gen(content: &str, facts: &Vec<PathFact>, official: &OfficialOutput) -> (res: Result<CasesGen, CasesGenError>)
    requires
        content@.len() + 1 < u32::MAX,
    ensures
        match cases_result(split_lines(content@).map_values(|l: Seq<char>| classify_cases(l)), facts@, *official) {
            Ok(v) => res matches Ok(c) && c@ == v,
            Err(e) => res matches Err(x) && x@ == e,
        },
{
    let lines = CasesGenParser::parse(content);
    proof {
        crate::gen_gen::lemma_split_lines_len(content@);
        assert(lines@.len() == lines@.map_values(|l: CasesLine| l@).len());
    }
    CasesGen::process(&lines, facts, official)
}

/// `d` is the default program among the definitions `ms`, in order: the one named `default` if
/// some definition has that name, otherwise the first one defined, and none without definitions.
pub open spec fn default_choice(ms: Seq<(Seq<char>, Seq<char>, Seq<Seq<char>>)>, d: Option<Seq<char>>) -> bool {
    &&& ms.len() == 0 ==> d is None
    &&& (exists|i: int| 0 <= i < ms.len() && (#[trigger] ms[i]).0 == "default"@) ==> d == Some("default"@)
    &&& (ms.len() > 0 && !exists|i: int| 0 <= i < ms.len() && (#[trigger] ms[i]).0 == "default"@)
        ==> d == Some(ms[0].0)
}

/// A definition keeps the default chosen by the rule.
proof fn lemma_default_push(ms: Seq<(Seq<char>, Seq<char>, Seq<Seq<char>>)>, d: Option<Seq<char>>, e: (Seq<char>, Seq<char>, Seq<Seq<char>>))
    requires
        default_choice(ms, d),
    ensures
        default_choice(ms.push(e), if d is None || e.0 == "default"@ { Some(e.0) } else { d }),
{
    let ms2 = ms.push(e);
    let d2 = if d is None || e.0 == "default"@ { Some(e.0) } else { d };
    if exists|i: int| 0 <= i < ms.len() && (#[trigger] ms[i]).0 == "default"@ {
        let i = choose|i: int| 0 <= i < ms.len() && (#[trigger] ms[i]).0 == "default"@;
        assert(ms2[i] == ms[i]);
    }
    if exists|i: int| 0 <= i < ms2.len() && (#[trigger] ms2[i]).0 == "default"@ {
        let i = choose|i: int| 0 <= i < ms2.len() && (#[trigger] ms2[i]).0 == "default"@;
        if i < ms.len() {
            assert(ms[i] == ms2[i]);
        }
    }
    if ms.len() > 0 {
        assert(ms2[0] == ms[0]);
    }
    if !(exists|i: int| 0 <= i < ms2.len() && (#[trigger] ms2[i]).0 == "default"@) {
        assert(ms2[ms.len() as int] == e);
        assert forall|i: int| 0 <= i < ms.len() implies (#[trigger] ms[i]).0 != "default"@ by {
            assert(ms2[i] == ms[i]);
        }
    }
}

/// The defaults of a state follow the rule.
pub open spec fn defaults_follow_rule(st: CasesView) -> bool {
    default_choice(st.generators, st.default_generator) && default_choice(st.validators, st.default_validator)
}

proof fn lemma_cases_fold_defaults(lines: Seq<CasesLineView>, facts: Seq<PathFact>, official: OfficialOutput)
    ensures
        cases_fold(lines, facts, official) matches Ok(st) ==> defaults_follow_rule(st),
    decreases lines.len(),
{
    if lines.len() == 0 {
    } else {
        lemma_cases_fold_defaults(lines.drop_last(), facts, official);
        match cases_fold(lines.drop_last(), facts, official) {
            Err(_) => {},
            Ok(st) => {
                match lines.last() {
                    CasesLineView::Gen(ManagerLineView::Define { name, path, args }) => {
                        match shell_split(args) {
                            Some(a) => lemma_default_push(st.generators, st.default_generator, (name, path, a)),
                            None => {},
                        }
                    },
                    CasesLineView::Val(ManagerLineView::Define { name, path, args }) => {
                        match shell_split(args) {
                            Some(a) => lemma_default_push(st.validators, st.default_validator, (name, path, a)),
                            None => {},
                        }
                    },
                    _ => {},
                }
            },
        }
    }
}

/// Whatever lines are read, the default generator is the one named `default` if one was defined,
/// otherwise the first generator defined, and there is none before any is defined; the same holds
/// of the validators.
pub proof fn law_cases_default_programs(lines: Seq<CasesLineView>, facts: Seq<PathFact>, official: OfficialOutput)
    ensures
        cases_result(lines, facts, official) matches Ok(st) ==> {
            &&& st.generators.len() == 0 ==> st.default_generator is None
            &&& (exists|i: int| 0 <= i < st.generators.len() && (#[trigger] st.generators[i]).0 == "default"@)
                ==> st.default_generator == Some("default"@)
            &&& (st.generators.len() > 0 && !exists|i: int| 0 <= i < st.generators.len() && (#[trigger] st.generators[i]).0 == "default"@)
                ==> st.default_generator == Some(st.generators[0].0)
            &&& st.validators.len() == 0 ==> st.default_validator is None
            &&& (exists|i: int| 0 <= i < st.validators.len() && (#[trigger] st.validators[i]).0 == "default"@)
                ==> st.default_validator == Some("default"@)
            &&& (st.validators.len() > 0 && !exists|i: int| 0 <= i < st.validators.len() && (#[trigger] st.validators[i]).0 == "default"@)
                ==> st.default_validator == Some(st.validators[0].0)
        },
{
    lemma_cases_fold_defaults(lines, facts, official);
}

} // verus!
