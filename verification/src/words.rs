//! Unicode whitespace, trimming, word splitting and substitution of a placeholder in a text.

use vstd::prelude::*;

use crate::lexing::to_chars;
use crate::text::push_str;

verus! {

/// Whether a character has the Unicode `White_Space` property: the controls from tab to carriage
/// return, the space, next line, no-break space, Ogham space mark, the spaces from en quad to hair
/// space, the line and paragraph separators, the narrow no-break space, the medium mathematical
/// space and the ideographic space.
pub open spec fn white_space(c: char) -> bool {
    ||| '\t' <= c <= '\r'
    ||| c == ' ' || c == '\u{85}' || c == '\u{a0}' || c == '\u{1680}'
    ||| '\u{2000}' <= c <= '\u{200a}'
    ||| c == '\u{2028}' || c == '\u{2029}' || c == '\u{202f}' || c == '\u{205f}' || c == '\u{3000}'
}

/// The ASCII whitespace that separates words for `str::split_ascii_whitespace`: space, tab, line
/// feed, form feed and carriage return.
pub open spec fn ascii_space(c: char) -> bool {
    c == ' ' || c == '\t' || c == '\n' || c == '\x0C' || c == '\r'
}

/// The separator of words: ASCII whitespace when `ascii` holds, Unicode whitespace otherwise.
pub open spec fn separator(c: char, ascii: bool) -> bool {
    if ascii { ascii_space(c) } else { white_space(c) }
}

/// Whether `c` has the Unicode `White_Space` property (`char::is_whitespace`).
pub fn is_whitespace(c: char) -> (res: bool)
    ensures
        res == white_space(c),
{
    ('\t' <= c && c <= '\r') || c == ' ' || c == '\u{85}' || c == '\u{a0}' || c == '\u{1680}'
        || ('\u{2000}' <= c && c <= '\u{200a}') || c == '\u{2028}' || c == '\u{2029}'
        || c == '\u{202f}' || c == '\u{205f}' || c == '\u{3000}'
}

fn is_separator(c: char, ascii: bool) -> (res: bool)
    ensures
        res == separator(c, ascii),
{
    if ascii {
        c == ' ' || c == '\t' || c == '\n' || c == '\x0C' || c == '\r'
    } else {
        is_whitespace(c)
    }
}

/// `s` without its leading whitespace.
pub open spec fn trim_start(s: Seq<char>) -> Seq<char>
    decreases s.len(),
{
    if s.len() > 0 && white_space(s[0]) {
        trim_start(s.drop_first())
    } else {
        s
    }
}

/// `s` without its trailing whitespace.
pub open spec fn trim_end(s: Seq<char>) -> Seq<char>
    decreases s.len(),
{
    if s.len() > 0 && white_space(s.last()) {
        trim_end(s.drop_last())
    } else {
        s
    }
}

/// `s` without its leading and trailing whitespace (`str::trim`).
pub open spec fn trimmed(s: Seq<char>) -> Seq<char> {
    trim_end(trim_start(s))
}

proof fn lemma_trim_start(s: Seq<char>, lo: int)
    requires
        0 <= lo <= s.len(),
        forall|j: int| 0 <= j < lo ==> white_space(#[trigger] s[j]),
        lo == s.len() || !white_space(s[lo]),
    ensures
        trim_start(s) == s.skip(lo),
    decreases lo,
{
    if lo == 0 {
        assert(s.skip(0) =~= s);
    } else {
        assert(white_space(s[0]));
        assert forall|j: int| 0 <= j < lo - 1 implies white_space(#[trigger] s.drop_first()[j]) by {
            assert(s.drop_first()[j] == s[j + 1]);
        }
        if lo < s.len() {
            assert(s.drop_first()[lo - 1] == s[lo]);
        }
        lemma_trim_start(s.drop_first(), lo - 1);
        assert(s.drop_first().skip(lo - 1) =~= s.skip(lo));
    }
}

proof fn lemma_trim_end(t: Seq<char>, hi: int)
    requires
        0 <= hi <= t.len(),
        forall|j: int| hi <= j < t.len() ==> white_space(#[trigger] t[j]),
        hi == 0 || !white_space(t[hi - 1]),
    ensures
        trim_end(t) == t.take(hi),
    decreases t.len() - hi,
{
    if hi == t.len() {
        if t.len() > 0 {
            assert(t.last() == t[hi - 1]);
        }
        assert(t.take(hi) =~= t);
    } else {
        assert(white_space(t.last()));
        assert forall|j: int| hi <= j < t.len() - 1 implies white_space(#[trigger] t.drop_last()[j]) by {
            assert(t.drop_last()[j] == t[j]);
        }
        if hi > 0 {
            assert(t.drop_last()[hi - 1] == t[hi - 1]);
        }
        lemma_trim_end(t.drop_last(), hi);
        assert(t.drop_last().take(hi) =~= t.take(hi));
    }
}

/// `s` without its leading and trailing whitespace (`str::trim`).
pub fn trim(s: &str) -> (res: String)
    ensures
        res@ == trimmed(s@),
{
    let chars = to_chars(s);
    let n = chars.len();
    let mut lo: usize = 0;
    while lo < n && is_whitespace(chars[lo])
        invariant
            chars@ == s@,
            n == chars@.len(),
            lo <= n,
            forall|j: int| 0 <= j < lo ==> white_space(#[trigger] s@[j]),
        decreases n - lo,
    {
        lo += 1;
    }
    let mut hi: usize = n;
    while hi > lo && is_whitespace(chars[hi - 1])
        invariant
            chars@ == s@,
            n == chars@.len(),
            lo <= hi <= n,
            forall|j: int| hi <= j < n ==> white_space(#[trigger] s@[j]),
        decreases hi,
    {
        hi -= 1;
    }
    proof {
        lemma_trim_start(s@, lo as int);
        let t = s@.skip(lo as int);
        assert forall|j: int| hi - lo <= j < t.len() implies white_space(#[trigger] t[j]) by {
            assert(t[j] == s@[lo + j]);
        }
        if hi > lo {
            assert(t[hi - lo - 1] == s@[hi - 1]);
        }
        lemma_trim_end(t, hi - lo);
        assert(t.take(hi - lo) =~= s@.subrange(lo as int, hi as int));
    }
    s.substring_char(lo, hi).to_owned()
}

/// The words of a text: the maximal pieces without a separator. A character that is not a
/// separator extends the word of the character before it when that one is not a separator too, and
/// starts a new word otherwise.
pub open spec fn words_by(s: Seq<char>, ascii: bool) -> Seq<Seq<char>>
    decreases s.len(),
{
    if s.len() == 0 {
        Seq::empty()
    } else {
        let prev = words_by(s.drop_last(), ascii);
        let c = s.last();
        if separator(c, ascii) {
            prev
        } else if s.len() >= 2 && !separator(s[s.len() - 2], ascii) {
            prev.drop_last().push(prev.last().push(c))
        } else {
            prev.push(seq![c])
        }
    }
}

/// The words of a text separated by Unicode whitespace (`str::split_whitespace`).
pub open spec fn words(s: Seq<char>) -> Seq<Seq<char>> {
    words_by(s, false)
}

/// The words of a text separated by ASCII whitespace (`str::split_ascii_whitespace`).
pub open spec fn ascii_words(s: Seq<char>) -> Seq<Seq<char>> {
    words_by(s, true)
}

/// The views of a sequence of strings.
pub open spec fn string_views(v: Seq<String>) -> Seq<Seq<char>> {
    v.map_values(|t: String| t@)
}

/// The words of `text` between the separators chosen by `ascii`.
fn split_by(text: &str, ascii: bool) -> (res: Vec<String>)
    ensures
        string_views(res@) == words_by(text@, ascii),
{
    let chars = to_chars(text);
    let n = chars.len();
    let mut res: Vec<String> = Vec::new();
    let mut start: usize = 0;
    let mut in_word = false;
    let mut i: usize = 0;
    proof { assert(chars@.subrange(0, 0) =~= Seq::<char>::empty()); }
    while i < n
        invariant
            chars@ == text@,
            n == chars@.len(),
            start <= i <= n,
            in_word <==> (i > 0 && !separator(chars@[i - 1], ascii)),
            in_word ==> (start < i && (start == 0 || separator(chars@[start - 1], ascii))
                && forall|j: int| start <= j < i ==> !separator(#[trigger] chars@[j], ascii)),
            in_word ==> string_views(res@).push(chars@.subrange(start as int, i as int))
                == words_by(chars@.subrange(0, i as int), ascii),
            !in_word ==> string_views(res@) == words_by(chars@.subrange(0, i as int), ascii),
        decreases n - i,
    {
        let c = chars[i];
        let ghost sub = chars@.subrange(0, i + 1);
        proof {
            assert(sub.drop_last() =~= chars@.subrange(0, i as int));
            assert(sub.last() == c);
        }
        if is_separator(c, ascii) {
            if in_word {
                let t = text.substring_char(start, i).to_owned();
                let ghost before = res@;
                res.push(t);
                proof {
                    assert(string_views(res@) =~= string_views(before).push(chars@.subrange(start as int, i as int)));
                }
            }
            in_word = false;
        } else {
            if !in_word {
                start = i;
                in_word = true;
                proof {
                    assert(chars@.subrange(start as int, i + 1) =~= seq![c]);
                }
            } else {
                proof {
                    assert(sub.len() >= 2);
                    assert(sub[sub.len() - 2] == chars@[i - 1]);
                    assert(chars@.subrange(start as int, i + 1) =~= chars@.subrange(start as int, i as int).push(c));
                }
            }
        }
        i += 1;
    }
    proof { assert(chars@.subrange(0, n as int) =~= text@); }
    if in_word {
        let t = text.substring_char(start, i).to_owned();
        let ghost before = res@;
        res.push(t);
        proof {
            assert(string_views(res@) =~= string_views(before).push(chars@.subrange(start as int, i as int)));
        }
    }
    res
}

/// The words of `text` (`str::split_whitespace`).
pub fn split_words(text: &str) -> (res: Vec<String>)
    ensures
        string_views(res@) == words(text@),
{
    split_by(text, false)
}

/// The words of `text` between ASCII whitespace (`str::split_ascii_whitespace`).
pub fn split_ascii_words(text: &str) -> (res: Vec<String>)
    ensures
        string_views(res@) == ascii_words(text@),
{
    split_by(text, true)
}

/// `s` with every occurrence of the non-empty pattern `p` replaced by `r`, scanning from the
/// left and never overlapping two occurrences (`str::replace`).
pub open spec fn replace_all(s: Seq<char>, p: Seq<char>, r: Seq<char>) -> Seq<char>
    decreases s.len(),
{
    if p.len() == 0 || s.len() == 0 {
        s
    } else if p.is_prefix_of(s) {
        r + replace_all(s.skip(p.len() as int), p, r)
    } else {
        seq![s[0]] + replace_all(s.skip(1), p, r)
    }
}

/// Whether `p` occurs in `chars` at position `i`.
fn occurs_at(chars: &Vec<char>, i: usize, p: &Vec<char>) -> (res: bool)
    requires
        i <= chars@.len(),
    ensures
        res == p@.is_prefix_of(chars@.skip(i as int)),
{
    let n = chars.len();
    if p.len() > n - i {
        return false;
    }
    let mut k: usize = 0;
    while k < p.len()
        invariant
            n == chars@.len(),
            i + p@.len() <= n,
            k <= p@.len(),
            forall|j: int| 0 <= j < k ==> p@[j] == chars@[i + j],
        decreases p@.len() - k,
    {
        if p[k] != chars[i + k] {
            proof {
                assert(chars@.skip(i as int)[k as int] == chars@[i + k]);
            }
            return false;
        }
        k += 1;
    }
    proof {
        assert(p@ =~= chars@.skip(i as int).take(p@.len() as int));
    }
    true
}

/// `s` with every occurrence of the non-empty pattern `p` replaced by `r` (`str::replace`).
pub fn replace_all_exec(s: &str, p: &str, r: &str) -> (res: String)
    requires
        p@.len() > 0,
    ensures
        res@ == replace_all(s@, p@, r@),
{
    let chars = to_chars(s);
    let pc = to_chars(p);
    let n = chars.len();
    let mut res = String::new();
    let mut i: usize = 0;
    proof { assert(s@.skip(0) =~= s@); }
    while i < n
        invariant
            chars@ == s@,
            pc@ == p@,
            p@.len() > 0,
            n == s@.len(),
            i <= n,
            res@ + replace_all(s@.skip(i as int), p@, r@) == replace_all(s@, p@, r@),
        decreases n - i,
    {
        let ghost rest = s@.skip(i as int);
        let ghost before = res@;
        if occurs_at(&chars, i, &pc) {
            push_str(&mut res, r);
            proof {
                assert(rest.skip(p@.len() as int) =~= s@.skip(i + p@.len()));
                assert(replace_all(rest, p@, r@) == r@ + replace_all(rest.skip(p@.len() as int), p@, r@));
                assert(res@ + replace_all(s@.skip(i + p@.len()), p@, r@) =~= before + replace_all(rest, p@, r@));
            }
            i += pc.len();
        } else {
            push_str(&mut res, s.substring_char(i, i + 1));
            proof {
                assert(rest[0] == s@[i as int]);
                assert(s@.subrange(i as int, i + 1) =~= seq![rest[0]]);
                assert(rest.skip(1) =~= s@.skip(i + 1));
                assert(replace_all(rest, p@, r@) == seq![rest[0]] + replace_all(rest.skip(1), p@, r@));
                assert(res@ + replace_all(s@.skip(i + 1), p@, r@) =~= before + replace_all(rest, p@, r@));
            }
            i += 1;
        }
    }
    proof {
        assert(s@.skip(i as int) =~= Seq::<char>::empty());
        assert(res@ + Seq::<char>::empty() =~= res@);
    }
    res
}

} // verus!
