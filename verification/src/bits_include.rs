//! The check that no C++ source of the task includes `bits/stdc++.h`, which does not compile
//! under Clang.

use vstd::prelude::*;

use crate::words::white_space;

verus! {

/// The expression of the regex crate that finds a line including `bits/stdc++.h`.
pub open spec fn bits_include_expr() -> Seq<char> {
    "(?m)^#\\s*include\\s*(?:<|\")bits/stdc\\+\\+\\.h(?:>|\").*$"@
}

/// The index of the first character at or after `i` that is not whitespace.
pub open spec fn skip_space(t: Seq<char>, i: int) -> int
    decreases t.len() - i,
{
    if 0 <= i < t.len() && white_space(t[i]) {
        skip_space(t, i + 1)
    } else {
        i
    }
}

/// The text `w` stands in `t` at `i`.
pub open spec fn word_at(t: Seq<char>, i: int, w: Seq<char>) -> bool {
    0 <= i && i + w.len() <= t.len() && t.subrange(i, i + w.len()) == w
}

/// A line that includes `bits/stdc++.h` starts at `p`: at the start of the text or after a line
/// feed there is `#`, whitespace, `include`, whitespace, `<` or `"`, `bits/stdc++.h`, and `>` or
/// `"`; whatever follows on the line belongs to the match too.
pub open spec fn bits_include_at(t: Seq<char>, p: int) -> bool {
    let a = skip_space(t, p + 1);
    let b = skip_space(t, a + 7);
    &&& 0 <= p < t.len()
    &&& (p == 0 || t[p - 1] == '\n')
    &&& t[p] == '#'
    &&& word_at(t, a, "include"@)
    &&& b + 14 < t.len()
    &&& (t[b] == '<' || t[b] == '"')
    &&& word_at(t, b + 1, "bits/stdc++.h"@)
    &&& (t[b + 14] == '>' || t[b + 14] == '"')
}

/// The first match of the expression `expr` of the regex crate in `text`, as its start and end
/// in bytes (`Regex::new(expr)` then `Regex::find`).
pub uninterp spec fn regex_find(expr: Seq<char>, text: Seq<char>) -> Option<(usize, usize)>;

/// The first match in `text` of the expression that finds an include of `bits/stdc++.h`
/// (`Regex::new` and `Regex::find` of the regex crate), as its start and end in bytes. The start
/// is not after the end; by the syntax of the regex crate (`^` and `$` at line boundaries in
/// multi-line mode, `\s` the Unicode whitespace), there is a match exactly when some line
/// includes the header. Where the match lies in bytes is left to the name.
#[verifier::external_body]
fn regex_find_first(expr: &str, text: &str) -> (res: Option<(usize, usize)>)
    requires
        expr@ == bits_include_expr(),
    ensures
        res == regex_find(expr@, text@),
        res matches Some((s, e)) ==> s <= e,
        res is Some <==> exists|p: int| bits_include_at(text@, p),
{
    regex::Regex::new(expr).unwrap().find(text).map(|m| (m.start(), m.end()))
}

/// Where the first line of the text that includes `bits/stdc++.h` is, as its start and length in
/// bytes, if there is one.
pub open spec fn bits_include_place(text: Seq<char>) -> Option<(usize, usize)> {
    match regex_find(bits_include_expr(), text) {
        Some((s, e)) => Some((s, (e - s) as usize)),
        None => None,
    }
}

/// Where the first line of the text that includes `bits/stdc++.h` is, as its start and length in
/// bytes, if there is one.
pub fn find_bits_include(text: &str) -> (res: Option<(usize, usize)>)
    ensures
        res == bits_include_place(text@),
        res is Some <==> exists|p: int| bits_include_at(text@, p),
{
    let expr = "(?m)^#\\s*include\\s*(?:<|\")bits/stdc\\+\\+\\.h(?:>|\").*$";
    match regex_find_first(expr, text) {
        Some((s, e)) => Some((s, e - s)),
        None => None,
    }
}

/// The place of an include of `bits/stdc++.h`: the file, and the start and length of the line.
#[derive(Debug, Clone, PartialEq, Eq)]
pub struct IncludeSpan {
    pub path: String,
    pub start: usize,
    pub len: usize,
}

/// The warning about the includes of `bits/stdc++.h`, its note, and the places, in order.
#[derive(Debug, Clone)]
pub struct BitsReport {
    pub message: String,
    pub note: String,
    pub spans: Vec<IncludeSpan>,
}

/// The places of the files that include the header, in order.
pub open spec fn spans_of(found: Seq<(String, Option<(usize, usize)>)>) -> Seq<(Seq<char>, usize, usize)>
    decreases found.len(),
{
    if found.len() == 0 {
        Seq::empty()
    } else {
        spans_of(found.drop_last()) + match found.last().1 {
            Some((s, l)) => seq![(found.last().0@, s, l)],
            None => Seq::empty(),
        }
    }
}

/// The view of a list of places.
pub open spec fn span_views(v: Seq<IncludeSpan>) -> Seq<(Seq<char>, usize, usize)> {
    v.map_values(|s: IncludeSpan| (s.path@, s.start, s.len))
}

/// The report, given for each C++ source its path and where it includes the header, if it does:
/// nothing when no file includes it, otherwise the warning with the places in order.
pub fn bits_stdcpp_report(found: &Vec<(String, Option<(usize, usize)>)>) -> (res: Option<BitsReport>)
    ensures
        spans_of(found@).len() == 0 <==> res is None,
        res matches Some(r) ==> r.message@ == "Usage of \"bits/stdc++.h\" is discouraged"@
            && r.note@ == "This won't compile under Clang"@
            && span_views(r.spans@) == spans_of(found@),
{
    let mut spans: Vec<IncludeSpan> = Vec::new();
    let mut i: usize = 0;
    while i < found.len()
        invariant
            i <= found@.len(),
            span_views(spans@) == spans_of(found@.take(i as int)),
        decreases found@.len() - i,
    {
        proof {
            assert(found@.take(i + 1).drop_last() =~= found@.take(i as int));
        }
        match found[i].1 {
            Some((s, l)) => {
                spans.push(IncludeSpan { path: found[i].0.clone(), start: s, len: l });
            },
            None => {},
        }
        proof {
            assert(span_views(spans@) =~= spans_of(found@.take(i + 1)));
        }
        i += 1;
    }
    proof {
        assert(found@.take(found@.len() as int) =~= found@);
    }
    if spans.len() == 0 {
        return None;
    }
    Some(BitsReport {
        message: "Usage of \"bits/stdc++.h\" is discouraged".to_owned(),
        note: "This won't compile under Clang".to_owned(),
        spans,
    })
}

/// The report on the C++ sources of the task, given as their paths and contents, in order.
pub fn check_no_bits_stdcpp(files: &Vec<(String, String)>) -> (res: Option<BitsReport>)
    ensures
        ({
            let found = Seq::new(files@.len(), |i: int| (files@[i].0, bits_include_place(files@[i].1@)));
            &&& spans_of(found).len() == 0 <==> res is None
            &&& res matches Some(r) ==> span_views(r.spans@) == spans_of(found)
        }),
        res is None <==> forall|i: int| 0 <= i < files@.len()
            ==> !exists|p: int| bits_include_at(#[trigger] files@[i].1@, p),
{
    let mut found: Vec<(String, Option<(usize, usize)>)> = Vec::new();
    let mut i: usize = 0;
    while i < files.len()
        invariant
            i <= files@.len(),
            found@.len() == i,
            forall|j: int| 0 <= j < i ==> (#[trigger] found@[j]).0@ == files@[j].0@ && found@[j].1 == bits_include_place(files@[j].1@),
            forall|j: int| 0 <= j < i ==> ((#[trigger] found@[j]).1 is None <==> !exists|p: int| bits_include_at(files@[j].1@, p)),
        decreases files@.len() - i,
    {
        let m = find_bits_include(files[i].1.as_str());
        found.push((files[i].0.clone(), m));
        i += 1;
    }
    let res = bits_stdcpp_report(&found);
    proof {
        let want = Seq::new(files@.len(), |i: int| (files@[i].0, bits_include_place(files@[i].1@)));
        assert(spans_of(found@) == spans_of(want)) by {
            lemma_spans_of_views(found@, want);
        }
        lemma_spans_of_empty(want);
        assert forall|i: int| 0 <= i < files@.len() implies
            (want[i].1 is None <==> !exists|p: int| bits_include_at(#[trigger] files@[i].1@, p)) by {
            assert(want[i].1 == bits_include_place(files@[i].1@));
            assert(found@[i].1 == bits_include_place(files@[i].1@));
        }
    }
    res
}

/// No file has a place exactly when no file includes the header.
pub proof fn lemma_spans_of_empty(found: Seq<(String, Option<(usize, usize)>)>)
    ensures
        spans_of(found).len() == 0 <==> forall|i: int| 0 <= i < found.len() ==> (#[trigger] found[i]).1 is None,
    decreases found.len(),
{
    if found.len() > 0 {
        lemma_spans_of_empty(found.drop_last());
        assert(forall|i: int| 0 <= i < found.len() - 1 ==> found.drop_last()[i] == found[i]);
    }
}

/// Two lists with the same paths and places have the same places.
pub proof fn lemma_spans_of_views(a: Seq<(String, Option<(usize, usize)>)>, b: Seq<(String, Option<(usize, usize)>)>)
    requires
        a.len() == b.len(),
        forall|j: int| 0 <= j < a.len() ==> (#[trigger] a[j]).0@ == b[j].0@ && a[j].1 == b[j].1,
    ensures
        spans_of(a) == spans_of(b),
    decreases a.len(),
{
    if a.len() > 0 {
        lemma_spans_of_views(a.drop_last(), b.drop_last());
    }
}

} // verus!
