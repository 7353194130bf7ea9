//! Validation and normalization of the names of subtasks and groups of testcases.

use unic::char::property::EnumeratedCharProperty;
use unic::normal::StrNormalForm;
use unic::ucd::category::GeneralCategory;
use vstd::prelude::*;

use crate::lexing::to_chars;
use crate::text::{digit_char, push_str, str_eq};
use crate::words::{trim, trimmed};

verus! {

/// The Unicode normalization form KC of a text.
pub uninterp spec fn nfkc(s: Seq<char>) -> Seq<char>;

/// The text in Unicode normalization form KC (compatibility decomposition followed by canonical
/// composition), computed by `StrNormalForm::nfkc` of unic.
#[verifier::external_body]
pub(crate) fn normalize_nfkc(s: &str) -> (res: String)
    ensures
        res@ == nfkc(s@),
{
    s.nfkc().collect::<String>()
}

/// The abbreviated name (`Lu`, `Nd`, ...) of the Unicode general category of a character.
pub uninterp spec fn general_category(c: char) -> Seq<char>;

/// The abbreviated name of the general category of `c`: `GeneralCategory::of` of unic, written
/// by its `abbr_name`.
#[verifier::external_body]
fn category_abbr(c: char) -> (res: &'static str)
    ensures
        res@ == general_category(c),
{
    GeneralCategory::of(c).abbr_name()
}

/// The general categories of the characters allowed in a name: letters, numbers, spacing and
/// nonspacing marks, punctuation and symbols.
pub open spec fn allowed_category(a: Seq<char>) -> bool {
    ||| a == "Ll"@ ||| a == "Lm"@ ||| a == "Lo"@ ||| a == "Lt"@ ||| a == "Lu"@
    ||| a == "Nd"@ ||| a == "Nl"@ ||| a == "No"@
    ||| a == "Mc"@ ||| a == "Mn"@
    ||| a == "Pc"@ ||| a == "Pd"@ ||| a == "Pe"@ ||| a == "Pf"@ ||| a == "Pi"@ ||| a == "Po"@ ||| a == "Ps"@
    ||| a == "Sc"@ ||| a == "Sk"@ ||| a == "Sm"@ ||| a == "So"@
}

fn is_allowed_category(a: &str) -> (res: bool)
    ensures
        res == allowed_category(a@),
{
    str_eq(a, "Ll") || str_eq(a, "Lm") || str_eq(a, "Lo") || str_eq(a, "Lt") || str_eq(a, "Lu")
        || str_eq(a, "Nd") || str_eq(a, "Nl") || str_eq(a, "No")
        || str_eq(a, "Mc") || str_eq(a, "Mn")
        || str_eq(a, "Pc") || str_eq(a, "Pd") || str_eq(a, "Pe") || str_eq(a, "Pf")
        || str_eq(a, "Pi") || str_eq(a, "Po") || str_eq(a, "Ps")
        || str_eq(a, "Sc") || str_eq(a, "Sk") || str_eq(a, "Sm") || str_eq(a, "So")
}

/// Why a name is not valid.
#[derive(Debug, Clone, Copy, PartialEq, Eq, Structural)]
pub enum NameProblem {
    /// The name is empty.
    Empty,
    /// The name starts with a dash.
    StartsWithDash,
    /// The name contains an asterisk.
    Asterisk,
    /// The name contains a question mark.
    QuestionMark,
    /// The name contains a character of a category that is not allowed.
    InvalidCharacter(char),
}

/// A name that is not valid: the name (without its surrounding whitespace) and why.
#[derive(Debug, Clone)]
pub struct InvalidName {
    /// The name, without its leading and trailing whitespace.
    pub name: String,
    /// Why it is not valid.
    pub problem: NameProblem,
    /// Why it is not valid, in words.
    pub reason: String,
}

/// The digit of a hexadecimal number, in lower case.
pub open spec fn hex_char(d: nat) -> char {
    if d < 10 { digit_char(d) }
    else if d == 10 { 'a' }
    else if d == 11 { 'b' }
    else if d == 12 { 'c' }
    else if d == 13 { 'd' }
    else if d == 14 { 'e' }
    else { 'f' }
}

/// The hexadecimal representation of a natural number, in lower case, without leading zeros.
pub open spec fn hex(n: nat) -> Seq<char>
    decreases n,
{
    if n < 16 {
        seq![hex_char(n)]
    } else {
        hex(n / 16).push(hex_char(n % 16))
    }
}

/// How `char::escape_default` writes a character: tab, carriage return, line feed, the quotes and
/// the backslash with a backslash before a letter or themselves, the other printable ASCII
/// characters as they are, and any other character as `\u{...}` with its code in hexadecimal.
pub open spec fn escape_default(c: char) -> Seq<char> {
    if c == '\t' {
        seq!['\\', 't']
    } else if c == '\r' {
        seq!['\\', 'r']
    } else if c == '\n' {
        seq!['\\', 'n']
    } else if c == '\'' || c == '"' || c == '\\' {
        seq!['\\', c]
    } else if ' ' <= c <= '~' {
        seq![c]
    } else {
        seq!['\\', 'u', '{'] + hex(c as nat) + seq!['}']
    }
}

/// Why a name is not valid, in words.
pub open spec fn reason_text(p: NameProblem) -> Seq<char> {
    match p {
        NameProblem::Empty => "must be non-empty"@,
        NameProblem::StartsWithDash => "must not start with a dash (-)"@,
        NameProblem::Asterisk => "must not contain asterisks (*)"@,
        NameProblem::QuestionMark => "must not contain question marks (?)"@,
        NameProblem::InvalidCharacter(c) => "contains an invalid character '"@ + seq![c] + "' ("@
            + escape_default(c) + ")"@,
    }
}

/// The text of a hexadecimal digit.
fn hex_digit_text(d: u32) -> (res: &'static str)
    requires
        d < 16,
    ensures
        res@ == seq![hex_char(d as nat)],
{
    proof {
        reveal_strlit("0"); reveal_strlit("1"); reveal_strlit("2"); reveal_strlit("3");
        reveal_strlit("4"); reveal_strlit("5"); reveal_strlit("6"); reveal_strlit("7");
        reveal_strlit("8"); reveal_strlit("9"); reveal_strlit("a"); reveal_strlit("b");
        reveal_strlit("c"); reveal_strlit("d"); reveal_strlit("e"); reveal_strlit("f");
    }
    if d == 0 { "0" } else if d == 1 { "1" } else if d == 2 { "2" } else if d == 3 { "3" }
    else if d == 4 { "4" } else if d == 5 { "5" } else if d == 6 { "6" } else if d == 7 { "7" }
    else if d == 8 { "8" } else if d == 9 { "9" } else if d == 10 { "a" } else if d == 11 { "b" }
    else if d == 12 { "c" } else if d == 13 { "d" } else if d == 14 { "e" } else { "f" }
}

/// The hexadecimal representation of `n`, in lower case.
fn hex_text(n: u32) -> (res: String)
    ensures
        res@ == hex(n as nat),
    decreases n,
{
    if n < 16 {
        let mut s = String::new();
        push_str(&mut s, hex_digit_text(n));
        proof { assert(s@ =~= seq![hex_char(n as nat)]); }
        s
    } else {
        let mut s = hex_text(n / 16);
        push_str(&mut s, hex_digit_text(n % 16));
        proof { assert(s@ =~= hex((n / 16) as nat).push(hex_char((n % 16) as nat))); }
        s
    }
}

/// How `char::escape_default` writes the character `c`, whose text is `t`.
fn escape_text(c: char, t: &str) -> (res: String)
    requires
        t@ == seq![c],
    ensures
        res@ == escape_default(c),
{
    proof {
        reveal_strlit("\\t"); reveal_strlit("\\r"); reveal_strlit("\\n"); reveal_strlit("\\");
        reveal_strlit("\\u{"); reveal_strlit("}");
    }
    let mut s = String::new();
    if c == '\t' {
        push_str(&mut s, "\\t");
    } else if c == '\r' {
        push_str(&mut s, "\\r");
    } else if c == '\n' {
        push_str(&mut s, "\\n");
    } else if c == '\'' || c == '"' || c == '\\' {
        push_str(&mut s, "\\");
        push_str(&mut s, t);
    } else if ' ' <= c && c <= '~' {
        push_str(&mut s, t);
    } else {
        push_str(&mut s, "\\u{");
        let h = hex_text(c as u32);
        push_str(&mut s, h.as_str());
        push_str(&mut s, "}");
    }
    proof {
        assert(s@ =~= escape_default(c));
    }
    s
}

/// Why a name is not valid, in words, given the text of the offending character when there is
/// one.
fn reason_for(p: NameProblem, t: &str) -> (res: String)
    requires
        p matches NameProblem::InvalidCharacter(c) ==> t@ == seq![c],
    ensures
        res@ == reason_text(p),
{
    match p {
        NameProblem::Empty => "must be non-empty".to_owned(),
        NameProblem::StartsWithDash => "must not start with a dash (-)".to_owned(),
        NameProblem::Asterisk => "must not contain asterisks (*)".to_owned(),
        NameProblem::QuestionMark => "must not contain question marks (?)".to_owned(),
        NameProblem::InvalidCharacter(c) => {
            let mut s = "contains an invalid character '".to_owned();
            push_str(&mut s, t);
            push_str(&mut s, "' (");
            let e = escape_text(c, t);
            push_str(&mut s, e.as_str());
            push_str(&mut s, ")");
            s
        },
    }
}

impl InvalidName {
    /// The message of the error: `'<name>' is not a valid identifier: <reason>`.
    pub fn message(&self) -> (res: String)
        ensures
            res@ == "'"@ + self.name@ + "' is not a valid identifier: "@ + self.reason@,
    {
        let mut m = "'".to_owned();
        push_str(&mut m, self.name.as_str());
        push_str(&mut m, "' is not a valid identifier: ");
        push_str(&mut m, self.reason.as_str());
        m
    }
}

/// Why a character cannot stand in a name, if it cannot.
pub open spec fn char_problem(c: char) -> Option<NameProblem> {
    if c == '*' {
        Some(NameProblem::Asterisk)
    } else if c == '?' {
        Some(NameProblem::QuestionMark)
    } else if !allowed_category(general_category(c)) {
        Some(NameProblem::InvalidCharacter(c))
    } else {
        None
    }
}

/// The problem of the first character of `s` that cannot stand in a name, if any.
pub open spec fn first_char_problem(s: Seq<char>) -> Option<NameProblem>
    decreases s.len(),
{
    if s.len() == 0 {
        None
    } else {
        match char_problem(s[0]) {
            Some(p) => Some(p),
            None => first_char_problem(s.drop_first()),
        }
    }
}

/// Why a normalized name is not valid, if it is not.
pub open spec fn name_problem(n: Seq<char>) -> Option<NameProblem> {
    if n.len() == 0 {
        Some(NameProblem::Empty)
    } else if n[0] == '-' {
        Some(NameProblem::StartsWithDash)
    } else {
        first_char_problem(n)
    }
}

/// Checks that a subtask (or group) name is a valid identifier and returns it normalized: the name
/// without its surrounding whitespace, in Unicode normalization form KC, which must be non-empty,
/// must not start with a dash, and must hold only letters, numbers, spacing and nonspacing marks,
/// punctuation and symbols, but no asterisk and no question mark.
pub fn cleanup_subtask_name(id: &str) -> (res: Result<String, InvalidName>)
    ensures
        match name_problem(nfkc(trimmed(id@))) {
            None => res matches Ok(s) && s@ == nfkc(trimmed(id@)),
            Some(p) => res matches Err(e) && e.name@ == trimmed(id@) && e.problem == p
                && e.reason@ == reason_text(p),
        },
{
    let t = trim(id);
    let normalized = normalize_nfkc(t.as_str());
    let chars = to_chars(normalized.as_str());
    let ghost n = normalized@;
    if chars.len() == 0 {
        return Err(InvalidName { name: t, problem: NameProblem::Empty, reason: reason_for(NameProblem::Empty, "") });
    }
    if chars[0] == '-' {
        return Err(InvalidName { name: t, problem: NameProblem::StartsWithDash, reason: reason_for(NameProblem::StartsWithDash, "") });
    }
    let mut i: usize = 0;
    proof { assert(n.skip(0) =~= n); }
    while i < chars.len()
        invariant
            chars@ == n,
            normalized@ == n,
            t@ == trimmed(id@),
            n == nfkc(trimmed(id@)),
            n.len() > 0,
            n[0] != '-',
            i <= n.len(),
            first_char_problem(n.skip(i as int)) == first_char_problem(n),
        decreases n.len() - i,
    {
        let ch = chars[i];
        proof {
            assert(n.skip(i as int)[0] == ch);
            assert(n.skip(i as int).drop_first() =~= n.skip(i + 1));
        }
        if ch == '*' {
            return Err(InvalidName { name: t, problem: NameProblem::Asterisk, reason: reason_for(NameProblem::Asterisk, "") });
        }
        if ch == '?' {
            return Err(InvalidName { name: t, problem: NameProblem::QuestionMark, reason: reason_for(NameProblem::QuestionMark, "") });
        }
        if !is_allowed_category(category_abbr(ch)) {
            let text = normalized.as_str().substring_char(i, i + 1);
            proof { assert(text@ =~= seq![ch]); }
            return Err(InvalidName { name: t, problem: NameProblem::InvalidCharacter(ch), reason: reason_for(NameProblem::InvalidCharacter(ch), text) });
        }
        i += 1;
    }
    proof { assert(n.skip(i as int) =~= Seq::<char>::empty()); }
    Ok(normalized)
}

/// A text with no character problem holds no asterisk, no question mark, and only characters of
/// the allowed categories.
proof fn lemma_no_char_problem(s: Seq<char>)
    requires
        first_char_problem(s) is None,
    ensures
        forall|i: int| 0 <= i < s.len() ==> #[trigger] s[i] != '*' && s[i] != '?'
            && allowed_category(general_category(s[i])),
    decreases s.len(),
{
    if s.len() > 0 {
        lemma_no_char_problem(s.drop_first());
        assert forall|i: int| 0 < i < s.len() implies #[trigger] s[i] == s.drop_first()[i - 1] by {}
    }
}

/// An accepted name is not empty, does not start with a dash, and holds no asterisk, no question
/// mark and only letters, numbers, marks, punctuation and symbols.
pub proof fn law_accepted_name(id: Seq<char>)
    requires
        name_problem(nfkc(trimmed(id))) is None,
    ensures
        ({
            let n = nfkc(trimmed(id));
            &&& n.len() > 0
            &&& n[0] != '-'
            &&& forall|i: int| 0 <= i < n.len() ==> #[trigger] n[i] != '*' && n[i] != '?'
                && allowed_category(general_category(n[i]))
        }),
{
    lemma_no_char_problem(nfkc(trimmed(id)));
}

} // verus!
