//! Controlled executions: a controller process starts solutions on request and talks to each
//! through a pair of pipes. A bookkeeping process starts the sandboxes and reports every start and
//! every exit on a line of its own; the worker reads those lines back, and answers the requests the
//! controller writes on its FIFO.

use vstd::prelude::*;

use crate::lexing::{find_char, first_index, lemma_first_index, to_chars};
use crate::text::{
    all_digits, decimal, i32_to_string, is_digit, lemma_decimal, lemma_signed_value_decimal,
    lemma_unsigned_value_decimal, parse_i32, parse_unsigned, push_str, signed_decimal,
    signed_value, str_eq, u64_to_string, unsigned_value,
};
use crate::words::{
    ascii_words, separator, split_ascii_words, string_views, trim, trim_end, trim_start, trimmed,
    white_space, words_by,
};

verus! {

/// Name of the FIFO the worker writes the answers to the controller's requests into.
pub fn write_to_controller_fifo() -> (res: String)
    ensures
        res@ == "write_to_controller"@,
{
    "write_to_controller".to_owned()
}

/// Name of the FIFO the worker reads the controller's requests from.
pub fn read_from_controller_fifo() -> (res: String)
    ensures
        res@ == "read_from_controller"@,
{
    "read_from_controller".to_owned()
}

/// Name of the result file of the sandbox started after `started` others: the first one runs the
/// controller, the following ones the solutions, numbered from zero.
pub open spec fn output_name(started: nat) -> Seq<char> {
    if started == 0 {
        "controller"@
    } else {
        "sol"@ + decimal((started - 1) as nat)
    }
}

/// Name of the result file of the sandbox started after `started` others.
pub fn keeper_output_name(started: usize) -> (res: String)
    ensures
        res@ == output_name(started as nat),
{
    if started == 0 {
        "controller".to_owned()
    } else {
        let mut s = "sol".to_owned();
        let n = u64_to_string((started - 1) as u64);
        push_str(&mut s, n.as_str());
        s
    }
}

/// A line the bookkeeping process prints about one of its sandboxes.
pub enum KeeperLine {
    /// Sandbox `index` started as process `pid`; a solution also gets the ends of the two pipes
    /// the controller uses to talk to it.
    Started { index: usize, pid: u32, pipes: Option<(i32, i32)> },
    /// Sandbox `index` exited and its result is in the file at `path`.
    Done { index: usize, path: String },
}

/// The mathematical value of a [`KeeperLine`].
pub enum KeeperLineView {
    Started { index: usize, pid: u32, pipes: Option<(i32, i32)> },
    Done { index: usize, path: Seq<char> },
}

impl View for KeeperLine {
    type V = KeeperLineView;

    open spec fn view(&self) -> KeeperLineView {
        match self {
            KeeperLine::Started { index, pid, pipes } => KeeperLineView::Started {
                index: *index,
                pid: *pid,
                pipes: *pipes,
            },
            KeeperLine::Done { index, path } => KeeperLineView::Done { index: *index, path: path@ },
        }
    }
}

/// The view of an optional line.
pub open spec fn keeper_line_opt(o: Option<KeeperLine>) -> Option<KeeperLineView> {
    match o {
        Some(l) => Some(l@),
        None => None,
    }
}

/// The text of a line: `DONE <index>: <path>` for an exit, `<index>: <pid>` for the start of the
/// controller, and `<index>: <pid> <write end> <read end>` for the start of a solution.
pub open spec fn keeper_text(l: KeeperLineView) -> Seq<char> {
    match l {
        KeeperLineView::Started { index, pid, pipes } => {
            let head = decimal(index as nat) + seq![':', ' '] + decimal(pid as nat);
            match pipes {
                None => head,
                Some((w, r)) => head + seq![' '] + signed_decimal(w as int) + seq![' ']
                    + signed_decimal(r as int),
            }
        },
        KeeperLineView::Done { index, path } => seq!['D', 'O', 'N', 'E', ' '] + decimal(index as nat)
            + seq![':', ' '] + path,
    }
}

/// The value of the text of an unsigned number of a type whose largest value is `max`, as
/// `str::parse` reads it.
pub open spec fn bounded_unsigned(s: Seq<char>, max: int) -> Option<nat> {
    match unsigned_value(s) {
        Some(v) => if v <= max { Some(v) } else { None },
        None => None,
    }
}

/// The value of the text of an `i32`, as `str::parse` reads it.
pub open spec fn bounded_i32(s: Seq<char>) -> Option<int> {
    match signed_value(s) {
        Some(v) => if i32::MIN <= v <= i32::MAX { Some(v) } else { None },
        None => None,
    }
}

/// What follows `DONE` and one more character in an exit report: the number of the sandbox, a
/// colon and the path, each without the whitespace around it.
pub open spec fn parse_done_text(rest: Seq<char>) -> Option<KeeperLineView> {
    let k = first_index(rest, ':');
    if k >= rest.len() {
        None
    } else {
        match bounded_unsigned(trimmed(rest.take(k)), usize::MAX as int) {
            Some(n) => Some(KeeperLineView::Done { index: n as usize, path: trimmed(rest.skip(k + 1)) }),
            None => None,
        }
    }
}

/// The pipe ends in the words after the colon of a start report: none after the process id, or
/// two numbers.
pub open spec fn parse_pipes(ws: Seq<Seq<char>>) -> Option<Option<(i32, i32)>> {
    if ws.len() == 1 {
        Some(None)
    } else if ws.len() == 2 {
        None
    } else {
        match (bounded_i32(ws[1]), bounded_i32(ws[2])) {
            (Some(w), Some(r)) => Some(Some((w as i32, r as i32))),
            _ => None,
        }
    }
}

/// A start report: the number of the sandbox before the first colon, then the words of the rest:
/// the process id and the pipe ends.
pub open spec fn parse_started_text(s: Seq<char>) -> Option<KeeperLineView> {
    let k = first_index(s, ':');
    if k >= s.len() {
        None
    } else {
        match bounded_unsigned(trimmed(s.take(k)), usize::MAX as int) {
            None => None,
            Some(n) => {
                let ws = ascii_words(s.skip(k + 1));
                if ws.len() == 0 {
                    None
                } else {
                    match (bounded_unsigned(ws[0], u32::MAX as int), parse_pipes(ws)) {
                        (Some(pid), Some(pipes)) => Some(
                            KeeperLineView::Started { index: n as usize, pid: pid as u32, pipes },
                        ),
                        _ => None,
                    }
                }
            },
        }
    }
}

/// Whether a line begins with `DONE`.
pub open spec fn starts_with_done(s: Seq<char>) -> bool {
    s.len() >= 4 && s.take(4) == seq!['D', 'O', 'N', 'E']
}

/// The report a line of the bookkeeping process holds; `None` for a line the reader cannot take
/// apart (one on which it would stop).
pub open spec fn parse_keeper_text(s: Seq<char>) -> Option<KeeperLineView> {
    if starts_with_done(s) {
        if s.len() >= 5 && '\u{80}' > s[4] {
            parse_done_text(s.skip(5))
        } else {
            None
        }
    } else {
        parse_started_text(s)
    }
}

/// The text of a line of the bookkeeping process.
pub fn format_keeper_line(line: &KeeperLine) -> (res: String)
    ensures
        res@ == keeper_text(line@),
{
    match line {
        KeeperLine::Started { index, pid, pipes } => {
            let mut s = u64_to_string(*index as u64);
            push_str(&mut s, ": ");
            let p = u64_to_string(*pid as u64);
            push_str(&mut s, p.as_str());
            proof {
                reveal_strlit(": ");
                reveal_strlit(" ");
            }
            match pipes {
                None => {},
                Some((w, r)) => {
                    push_str(&mut s, " ");
                    let ws = i32_to_string(*w);
                    push_str(&mut s, ws.as_str());
                    push_str(&mut s, " ");
                    let rs = i32_to_string(*r);
                    push_str(&mut s, rs.as_str());
                },
            }
            assert(s@ =~= keeper_text(line@));
            s
        },
        KeeperLine::Done { index, path } => {
            let mut s = "DONE ".to_owned();
            let n = u64_to_string(*index as u64);
            push_str(&mut s, n.as_str());
            push_str(&mut s, ": ");
            push_str(&mut s, path.as_str());
            proof {
                reveal_strlit("DONE ");
                reveal_strlit(": ");
            }
            assert(s@ =~= keeper_text(line@));
            s
        },
    }
}

/// The number before the colon of a report, without the whitespace around it.
fn parse_index(text: &str) -> (res: Option<usize>)
    ensures
        res is Some <==> bounded_unsigned(trimmed(text@), usize::MAX as int) is Some,
        res matches Some(n) ==> bounded_unsigned(trimmed(text@), usize::MAX as int) == Some(n as nat),
{
    let t = trim(text);
    match parse_unsigned(t.as_str(), usize::MAX as u64) {
        None => None,
        Some(v) => Some(v as usize),
    }
}

/// An exit report, from what follows `DONE` and one more character.
fn parse_done(rest: &str) -> (res: Option<KeeperLine>)
    ensures
        keeper_line_opt(res) == parse_done_text(rest@),
{
    let chars = to_chars(rest);
    let n = chars.len();
    let k = find_char(&chars, 0, n, ':');
    assert(chars@.subrange(0, n as int) =~= rest@);
    if k >= n {
        return None;
    }
    let num = rest.substring_char(0, k);
    assert(num@ =~= rest@.take(k as int));
    match parse_index(num) {
        None => None,
        Some(index) => {
            let tail = rest.substring_char(k + 1, n);
            assert(tail@ =~= rest@.skip(k + 1));
            let path = trim(tail);
            Some(KeeperLine::Done { index, path })
        },
    }
}

/// A start report.
fn parse_started(line: &str) -> (res: Option<KeeperLine>)
    ensures
        keeper_line_opt(res) == parse_started_text(line@),
{
    let chars = to_chars(line);
    let n = chars.len();
    let k = find_char(&chars, 0, n, ':');
    assert(chars@.subrange(0, n as int) =~= line@);
    if k >= n {
        return None;
    }
    let num = line.substring_char(0, k);
    assert(num@ =~= line@.take(k as int));
    let index = match parse_index(num) {
        None => return None,
        Some(index) => index,
    };
    let tail = line.substring_char(k + 1, n);
    assert(tail@ =~= line@.skip(k + 1));
    let ws = split_ascii_words(tail);
    let ghost wv = string_views(ws@);
    if ws.len() == 0 {
        return None;
    }
    assert(wv[0] == ws@[0]@);
    let pid = match parse_unsigned(ws[0].as_str(), 4294967295) {
        None => return None,
        Some(p) => p as u32,
    };
    if ws.len() == 1 {
        return Some(KeeperLine::Started { index, pid, pipes: None });
    }
    if ws.len() == 2 {
        return None;
    }
    assert(wv[1] == ws@[1]@);
    assert(wv[2] == ws@[2]@);
    let w = parse_i32(ws[1].as_str());
    let r = parse_i32(ws[2].as_str());
    match (w, r) {
        (Some(w), Some(r)) => Some(KeeperLine::Started { index, pid, pipes: Some((w, r)) }),
        _ => None,
    }
}

/// The report a line of the bookkeeping process holds, or `None` for a line that is not one.
pub fn parse_keeper_line(line: &str) -> (res: Option<KeeperLine>)
    ensures
        keeper_line_opt(res) == parse_keeper_text(line@),
{
    let chars = to_chars(line);
    let n = chars.len();
    let done = n >= 4 && chars[0] == 'D' && chars[1] == 'O' && chars[2] == 'N' && chars[3] == 'E';
    proof {
        if n >= 4 {
            if done {
                assert(line@.take(4) =~= seq!['D', 'O', 'N', 'E']);
            } else {
                assert(line@.take(4) != seq!['D', 'O', 'N', 'E']) by {
                    if line@.take(4) == seq!['D', 'O', 'N', 'E'] {
                        assert(line@.take(4)[0] == line@[0]);
                        assert(line@.take(4)[1] == line@[1]);
                        assert(line@.take(4)[2] == line@[2]);
                        assert(line@.take(4)[3] == line@[3]);
                    }
                }
            }
        }
    }
    if done {
        if n >= 5 && '\u{80}' > chars[4] {
            let rest = line.substring_char(5, n);
            assert(rest@ =~= line@.skip(5));
            parse_done(rest)
        } else {
            None
        }
    } else {
        parse_started(line)
    }
}

/// A text with no whitespace at either end is its own trimming.
proof fn lemma_trimmed_plain(s: Seq<char>)
    requires
        s.len() > 0,
        !white_space(s[0]),
        !white_space(s.last()),
    ensures
        trimmed(s) == s,
{
    assert(trim_start(s) == s);
}

/// A space before a text does not change its trimming.
proof fn lemma_trimmed_space(p: Seq<char>)
    ensures
        trimmed(seq![' '] + p) == trimmed(p),
{
    assert((seq![' '] + p).drop_first() =~= p);
    assert(trim_start(seq![' '] + p) == trim_start(p));
}

/// A word after a separating space comes after the words of what precedes the space.
proof fn lemma_words_append(x: Seq<char>, w: Seq<char>, ascii: bool)
    requires
        w.len() > 0,
        forall|i: int| 0 <= i < w.len() ==> !separator(#[trigger] w[i], ascii),
    ensures
        words_by(x + seq![' '] + w, ascii) == words_by(x, ascii).push(w),
    decreases w.len(),
{
    let s = x + seq![' '] + w;
    assert(s.drop_last() =~= x + seq![' '] + w.drop_last());
    assert(s.last() == w.last());
    if w.len() == 1 {
        let t = x + seq![' '];
        assert(t.drop_last() =~= x);
        assert(words_by(t, ascii) == words_by(x, ascii));
        assert(s.drop_last() =~= t);
        assert(s[s.len() - 2] == ' ');
        assert(seq![w.last()] =~= w);
    } else {
        lemma_words_append(x, w.drop_last(), ascii);
        assert(s[s.len() - 2] == w[w.len() - 2]);
        assert(w.drop_last().push(w.last()) =~= w);
    }
}

/// The characters of the decimal representation of an integer are digits or a leading minus
/// sign, and it is not empty.
proof fn lemma_signed_decimal_chars(i: int)
    ensures
        signed_decimal(i).len() > 0,
        forall|j: int| 0 <= j < signed_decimal(i).len() ==> (is_digit(#[trigger] signed_decimal(i)[j])
            || signed_decimal(i)[j] == '-'),
{
    if i < 0 {
        lemma_decimal((-i) as nat);
        let d = decimal((-i) as nat);
        assert forall|j: int| 0 <= j < signed_decimal(i).len() implies (is_digit(
            #[trigger] signed_decimal(i)[j],
        ) || signed_decimal(i)[j] == '-') by {
            if j > 0 {
                assert(signed_decimal(i)[j] == d[j - 1]);
            }
        }
    } else {
        lemma_decimal(i as nat);
    }
}

/// The decimal representation of a natural number is its own trimming and holds no colon.
proof fn lemma_decimal_plain(n: nat)
    ensures
        trimmed(decimal(n)) == decimal(n),
        forall|j: int| 0 <= j < decimal(n).len() ==> #[trigger] decimal(n)[j] != ':',
        forall|j: int| 0 <= j < decimal(n).len() ==> !separator(#[trigger] decimal(n)[j], true),
{
    lemma_decimal(n);
    let d = decimal(n);
    assert(is_digit(d[0]));
    assert(is_digit(d[d.len() - 1]));
    lemma_trimmed_plain(d);
    assert forall|j: int| 0 <= j < d.len() implies #[trigger] d[j] != ':' by {
        assert(is_digit(d[j]));
    }
    assert forall|j: int| 0 <= j < d.len() implies !separator(#[trigger] d[j], true) by {
        assert(is_digit(d[j]));
    }
}

/// The index before the first colon: a line made of the decimal representation of a number, a
/// colon and anything else splits there.
proof fn lemma_split_at_colon(d: Seq<char>, n: nat, after: Seq<char>)
    requires
        d == decimal(n),
    ensures
        first_index(d + seq![':'] + after, ':') == d.len(),
        (d + seq![':'] + after).take(d.len() as int) == d,
        (d + seq![':'] + after).skip(d.len() as int + 1) == after,
        bounded_unsigned(trimmed(d), usize::MAX as int) == (if n <= usize::MAX { Some(n) } else { None }),
{
    let s = d + seq![':'] + after;
    lemma_decimal_plain(n);
    lemma_unsigned_value_decimal(n);
    assert(s[d.len() as int] == ':');
    assert forall|j: int| 0 <= j < d.len() implies s[j] != ':' by {
        assert(s[j] == d[j]);
    }
    lemma_first_index(s, ':', d.len() as int);
    assert(s.take(d.len() as int) =~= d);
    assert(s.skip(d.len() as int + 1) =~= after);
}

/// The words of what follows the colon of a start report.
proof fn lemma_started_words(pid: u32, pipes: Option<(i32, i32)>)
    ensures
        ascii_words(seq![' '] + decimal(pid as nat) + match pipes {
            None => Seq::<char>::empty(),
            Some((w, r)) => seq![' '] + signed_decimal(w as int) + seq![' '] + signed_decimal(r as int),
        }) == match pipes {
            None => seq![decimal(pid as nat)],
            Some((w, r)) => seq![decimal(pid as nat), signed_decimal(w as int), signed_decimal(r as int)],
        },
{
    let p = decimal(pid as nat);
    lemma_decimal_plain(pid as nat);
    let empty = Seq::<char>::empty();
    assert(words_by(empty, true) == Seq::<Seq<char>>::empty());
    lemma_words_append(empty, p, true);
    assert(empty + seq![' '] + p =~= seq![' '] + p);
    match pipes {
        None => {
            assert(seq![' '] + p + Seq::<char>::empty() =~= seq![' '] + p);
            assert(Seq::<Seq<char>>::empty().push(p) =~= seq![p]);
        },
        Some((w, r)) => {
            let ws = signed_decimal(w as int);
            let rs = signed_decimal(r as int);
            lemma_signed_decimal_chars(w as int);
            lemma_signed_decimal_chars(r as int);
            assert forall|j: int| 0 <= j < ws.len() implies !separator(#[trigger] ws[j], true) by {
                assert(is_digit(ws[j]) || ws[j] == '-');
            }
            assert forall|j: int| 0 <= j < rs.len() implies !separator(#[trigger] rs[j], true) by {
                assert(is_digit(rs[j]) || rs[j] == '-');
            }
            let x1 = seq![' '] + p;
            let x2 = x1 + seq![' '] + ws;
            lemma_words_append(x1, ws, true);
            lemma_words_append(x2, rs, true);
            assert(seq![' '] + p + (seq![' '] + ws + seq![' '] + rs) =~= x2 + seq![' '] + rs);
            assert(seq![p].push(ws).push(rs) =~= seq![p, ws, rs]);
        },
    }
}

/// Reading back an exit report.
proof fn lemma_done_roundtrip(index: usize, path: Seq<char>)
    requires
        trimmed(path) == path,
    ensures
        parse_keeper_text(keeper_text(KeeperLineView::Done { index, path }))
            == Some(KeeperLineView::Done { index, path }),
{
    let s = keeper_text(KeeperLineView::Done { index, path });
    let d = decimal(index as nat);
    assert(s.take(4) =~= seq!['D', 'O', 'N', 'E']);
    assert(s[4] == ' ');
    let rest = s.skip(5);
    let after = seq![' '] + path;
    assert(rest =~= d + seq![':'] + after);
    lemma_split_at_colon(d, index as nat, after);
    lemma_trimmed_space(path);
}

/// Reading back a start report.
#[verifier::spinoff_prover]
#[verifier::rlimit(40)]
proof fn lemma_started_roundtrip(index: usize, pid: u32, pipes: Option<(i32, i32)>)
    ensures
        parse_keeper_text(keeper_text(KeeperLineView::Started { index, pid, pipes }))
            == Some(KeeperLineView::Started { index, pid, pipes }),
{
    let line = KeeperLineView::Started { index, pid, pipes };
    let s = keeper_text(line);
    let d = decimal(index as nat);
    lemma_decimal(index as nat);
    assert(s[0] == d[0]);
    assert(is_digit(d[0]));
    assert(!starts_with_done(s)) by {
        if s.len() >= 4 {
            assert(s.take(4)[0] == s[0]);
        }
    }
    let tail = match pipes {
        None => Seq::<char>::empty(),
        Some((w, r)) => seq![' '] + signed_decimal(w as int) + seq![' '] + signed_decimal(r as int),
    };
    let after = seq![' '] + decimal(pid as nat) + tail;
    assert(s =~= d + seq![':'] + after);
    lemma_split_at_colon(d, index as nat, after);
    lemma_started_words(pid, pipes);
    lemma_unsigned_value_decimal(pid as nat);
    match pipes {
        None => {},
        Some((w, r)) => {
            lemma_signed_value_decimal(w as int);
            lemma_signed_value_decimal(r as int);
        },
    }
}

/// Reading back the line that the bookkeeping process prints about a sandbox gives the report it
/// printed, as long as the path of an exit report has no whitespace at either end.
pub proof fn lemma_keeper_line_roundtrip(line: KeeperLineView)
    requires
        line matches KeeperLineView::Done { path, .. } ==> trimmed(path) == path,
    ensures
        parse_keeper_text(keeper_text(line)) == Some(line),
{
    match line {
        KeeperLineView::Done { index, path } => lemma_done_roundtrip(index, path),
        KeeperLineView::Started { index, pid, pipes } => lemma_started_roundtrip(index, pid, pipes),
    }
}

/// A sandbox the bookkeeping process started and has not seen exit yet: its number and the path
/// of its result file.
pub struct RunningBox {
    pub index: usize,
    pub output: String,
}

/// The state of the bookkeeping process: how many solutions the controller may start, how many
/// sandboxes were started, and those still running, in the order of its list.
pub struct KeeperState {
    pub process_limit: usize,
    pub started: usize,
    pub running: Vec<RunningBox>,
}

/// What the bookkeeping process learns at one turn of its loop.
pub enum KeeperEvent {
    /// The sandbox at `position` in the list of running ones exited, successfully or not.
    Exited { position: usize, success: bool },
    /// A sandbox configuration arrived; the result of the new sandbox goes to the file at
    /// `output`.
    Configuration { output: String },
    /// Nothing arrived yet.
    NoInput,
    /// Its input was closed.
    InputClosed,
}

/// What the bookkeeping process does next.
pub enum KeeperAction {
    /// Write a failure into the result file of the sandbox that exited when `failed`, print
    /// `line`, and drop the sandbox at `position`, moving the last one into its place.
    Report { position: usize, failed: bool, line: KeeperLine },
    /// Start the controller, which inherits the controller's ends of all the pipes.
    StartController,
    /// Start solution `index`, whose standard input and output are the solution's ends of the
    /// pipes in slot `pipe`.
    StartSolution { index: usize, pipe: usize },
    /// Wait a little before looking again.
    Wait,
    /// Every sandbox exited and no more will come.
    Stop,
}

/// The number and result path of a running sandbox.
pub open spec fn running_view(r: RunningBox) -> (usize, Seq<char>) {
    (r.index, r.output@)
}

impl KeeperState {
    /// The state before anything started.
    pub fn new(process_limit: usize) -> (res: KeeperState)
        ensures
            res.process_limit == process_limit,
            res.started == 0,
            res.running@.len() == 0,
    {
        KeeperState { process_limit, started: 0, running: Vec::new() }
    }
}

/// One turn of the loop of the bookkeeping process that starts the sandboxes of a controlled
/// execution and reports on them. A configuration that arrives when every solution slot is taken
/// is left out: there are no pipes for it.
pub fn controller_keeper(state: &mut KeeperState, event: KeeperEvent) -> (action: KeeperAction)
    requires
        event matches KeeperEvent::Exited { position, .. } ==> position < old(state).running@.len(),
        event is Configuration ==> old(state).started < usize::MAX && (old(state).started == 0
            || old(state).started - 1 < old(state).process_limit),
    ensures
        final(state).process_limit == old(state).process_limit,
        match event {
            KeeperEvent::Exited { position, success } => {
                let r = old(state).running@[position as int];
                &&& action matches KeeperAction::Report { position: p, failed, line }
                    && p == position && failed == !success
                    && line@ == (KeeperLineView::Done { index: r.index, path: r.output@ })
                &&& final(state).started == old(state).started
                &&& final(state).running@.map_values(|b: RunningBox| running_view(b))
                    == old(state).running@.update(position as int, old(state).running@.last())
                        .drop_last().map_values(|b: RunningBox| running_view(b))
            },
            KeeperEvent::Configuration { output } => {
                &&& final(state).started == old(state).started + 1
                &&& final(state).running@.map_values(|b: RunningBox| running_view(b))
                    == old(state).running@.map_values(|b: RunningBox| running_view(b))
                        .push((old(state).started, output@))
                &&& if old(state).started == 0 {
                    action is StartController
                } else {
                    action == (KeeperAction::StartSolution {
                        index: old(state).started,
                        pipe: (old(state).started - 1) as usize,
                    })
                }
            },
            KeeperEvent::NoInput => {
                &&& action is Wait
                &&& final(state).started == old(state).started
                &&& final(state).running@ == old(state).running@
            },
            KeeperEvent::InputClosed => {
                &&& (if old(state).running@.len() == 0 { action is Stop } else { action is Wait })
                &&& final(state).started == old(state).started
                &&& final(state).running@ == old(state).running@
            },
        },
{
    match event {
        KeeperEvent::Exited { position, success } => {
            let ghost before = state.running@;
            let r = state.running.swap_remove(position);
            proof {
                assert(state.running@.map_values(|b: RunningBox| running_view(b))
                    =~= before.update(position as int, before.last()).drop_last()
                        .map_values(|b: RunningBox| running_view(b)));
            }
            KeeperAction::Report {
                position,
                failed: !success,
                line: KeeperLine::Done { index: r.index, path: r.output },
            }
        },
        KeeperEvent::Configuration { output } => {
            let index = state.started;
            let ghost before = state.running@;
            let ghost out = output@;
            state.running.push(RunningBox { index, output });
            proof {
                assert(state.running@.map_values(|b: RunningBox| running_view(b))
                    =~= before.map_values(|b: RunningBox| running_view(b)).push((index, out)));
            }
            state.started = index + 1;
            if index == 0 {
                KeeperAction::StartController
            } else {
                KeeperAction::StartSolution { index, pipe: index - 1 }
            }
        },
        KeeperEvent::NoInput => KeeperAction::Wait,
        KeeperEvent::InputClosed => {
            if state.running.len() == 0 {
                KeeperAction::Stop
            } else {
                KeeperAction::Wait
            }
        },
    }
}

/// Records the pipe ends of sandbox `num` reported by the bookkeeping process, growing the table
/// with empty slots up to it.
pub fn record_pipes(table: &mut Vec<Option<Option<(i32, i32)>>>, num: usize, pipes: Option<(i32, i32)>)
    requires
        num < usize::MAX,
    ensures
        final(table)@.len() == if num < old(table)@.len() { old(table)@.len() } else { (num + 1) as nat },
        final(table)@[num as int] == Some(pipes),
        forall|i: int| 0 <= i < old(table)@.len() && i != num ==> final(table)@[i] == old(table)@[i],
        forall|i: int| old(table)@.len() <= i < final(table)@.len() && i != num ==> final(table)@[i] is None,
{
    let ghost before = table@;
    while table.len() <= num
        invariant
            num < usize::MAX,
            before.len() <= table@.len(),
            table@.len() <= before.len() || table@.len() <= num + 1,
            forall|i: int| 0 <= i < before.len() ==> table@[i] == before[i],
            forall|i: int| before.len() <= i < table@.len() ==> table@[i] is None,
        decreases num + 1 - table@.len(),
    {
        table.push(None);
    }
    table.set(num, Some(pipes));
}

/// The pipe ends of sandbox `index`, once the bookkeeping process has reported its start.
pub fn reported_pipes(table: &Vec<Option<Option<(i32, i32)>>>, index: usize) -> (res: Option<Option<(i32, i32)>>)
    ensures
        res == if index < table@.len() { table@[index as int] } else { None },
{
    if index < table.len() {
        table[index]
    } else {
        None
    }
}

/// What the worker does with a request the controller wrote on its FIFO.
pub enum ControllerRequest {
    /// Start solution number `index`; its sandbox is number `index + 1`, after the controller's.
    StartSolution { index: usize },
    /// The controller asked for more solutions than it may run: kill it.
    TooManySolutions,
    /// The request is not one the controller may make: kill it.
    Unknown,
}

/// The solutions a controller started so far, out of those it may start.
pub struct SolutionCounter {
    pub started: usize,
    pub limit: usize,
}

impl SolutionCounter {
    /// No solution started yet.
    pub fn new(limit: usize) -> (res: SolutionCounter)
        ensures
            res.started == 0,
            res.limit == limit,
    {
        SolutionCounter { started: 0, limit }
    }

    /// Handles a line the controller wrote: `START_SOLUTION` starts one more solution while
    /// fewer than the limit were started; anything else is refused.
    pub fn request(&mut self, line: &str) -> (res: ControllerRequest)
        ensures
            final(self).limit == old(self).limit,
            line@ == "START_SOLUTION"@ && old(self).started < old(self).limit ==> {
                &&& res == (ControllerRequest::StartSolution { index: old(self).started })
                &&& final(self).started == old(self).started + 1
            },
            line@ == "START_SOLUTION"@ && old(self).started >= old(self).limit ==> {
                &&& res is TooManySolutions
                &&& final(self).started == old(self).started
            },
            line@ != "START_SOLUTION"@ ==> res is Unknown && final(self).started == old(self).started,
    {
        if str_eq(line, "START_SOLUTION") {
            if self.started < self.limit {
                let index = self.started;
                self.started = index + 1;
                ControllerRequest::StartSolution { index }
            } else {
                ControllerRequest::TooManySolutions
            }
        } else {
            ControllerRequest::Unknown
        }
    }
}

/// The answer to a request for a solution: the ends of the pipes the controller talks to it
/// through, separated by a space.
pub fn pipes_reply(write_end: i32, read_end: i32) -> (res: String)
    ensures
        res@ == signed_decimal(write_end as int) + seq![' '] + signed_decimal(read_end as int),
{
    let mut s = i32_to_string(write_end);
    push_str(&mut s, " ");
    let r = i32_to_string(read_end);
    push_str(&mut s, r.as_str());
    proof {
        reveal_strlit(" ");
    }
    s
}

/// What is kept of the run of a solution of a controlled execution: its status, whether the
/// status is a success, whether the sandbox killed it, and the memory it used, in KiB. Its times
/// are fractional seconds and are summed by the caller.
pub struct SolutionRun<S> {
    pub status: S,
    pub success: bool,
    pub was_killed: bool,
    pub memory: u64,
}

/// Merges the run of one more solution into the summary of the solutions: a failed run gives its
/// status to the summary, a killed run marks the summary killed, and the memory is added up when
/// the solutions run at the same time and is the largest of the two otherwise.
pub fn merge_solution<S>(acc: &mut SolutionRun<S>, run: SolutionRun<S>, concurrent: bool)
    requires
        concurrent ==> old(acc).memory + run.memory <= u64::MAX,
    ensures
        final(acc).status == (if run.success { old(acc).status } else { run.status }),
        final(acc).success == (old(acc).success && run.success),
        final(acc).was_killed == (old(acc).was_killed || run.was_killed),
        final(acc).memory == (if concurrent {
            old(acc).memory + run.memory
        } else if run.memory > old(acc).memory {
            run.memory as int
        } else {
            old(acc).memory as int
        }),
{
    let SolutionRun { status, success, was_killed, memory } = run;
    if !success {
        acc.status = status;
        acc.success = false;
    }
    if was_killed {
        acc.was_killed = true;
    }
    if concurrent {
        acc.memory = acc.memory + memory;
    } else if memory > acc.memory {
        acc.memory = memory;
    }
}

} // verus!
