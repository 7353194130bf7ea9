//! Line and token splitting of text files, shared by the parsers of the task files.

use vstd::prelude::*;

verus! {

/// The blank characters that separate tokens on a line.
pub open spec fn is_blank(c: char) -> bool {
    c == ' ' || c == '\t' || c == '\r'
}

/// The lines of a text: the pieces between the line feeds. A text ending with a line feed has an
/// empty last line.
pub open spec fn split_lines(s: Seq<char>) -> Seq<Seq<char>>
    decreases s.len(),
{
    if s.len() == 0 {
        seq![Seq::<char>::empty()]
    } else {
        let prev = split_lines(s.drop_last());
        if s.last() == '\n' {
            prev.push(Seq::<char>::empty())
        } else {
            prev.drop_last().push(prev.last().push(s.last()))
        }
    }
}

/// The whitespace-separated tokens of a text: a non-blank character extends the token of the
/// character before it when that one is not blank too, and starts a new token otherwise.
pub open spec fn tokens(s: Seq<char>) -> Seq<Seq<char>>
    decreases s.len(),
{
    if s.len() == 0 {
        Seq::empty()
    } else {
        let prev = tokens(s.drop_last());
        let c = s.last();
        if is_blank(c) {
            prev
        } else if s.len() >= 2 && !is_blank(s[s.len() - 2]) {
            prev.drop_last().push(prev.last().push(c))
        } else {
            prev.push(seq![c])
        }
    }
}

/// The position of the first occurrence of `c` in `s`, or the length of `s` when it does not
/// occur.
pub open spec fn first_index(s: Seq<char>, c: char) -> int
    decreases s.len(),
{
    if s.len() == 0 {
        0
    } else if s[0] == c {
        0
    } else {
        1 + first_index(s.drop_first(), c)
    }
}

/// The position of the first occurrence is within the sequence or just past its end.
pub proof fn lemma_first_index_range(s: Seq<char>, c: char)
    ensures
        0 <= first_index(s, c) <= s.len(),
    decreases s.len(),
{
    if s.len() > 0 {
        lemma_first_index_range(s.drop_first(), c);
    }
}

pub proof fn lemma_first_index(s: Seq<char>, c: char, i: int)
    requires
        0 <= i <= s.len(),
        forall|j: int| 0 <= j < i ==> s[j] != c,
        i == s.len() || s[i] == c,
    ensures
        first_index(s, c) == i,
    decreases s.len(),
{
    if s.len() > 0 && i > 0 {
        lemma_first_index(s.drop_first(), c, i - 1);
    }
}

/// The characters of a string.
pub fn to_chars(s: &str) -> (res: Vec<char>)
    ensures
        res@ == s@,
{
    let n = s.unicode_len();
    let mut res: Vec<char> = Vec::new();
    let mut i: usize = 0;
    while i < n
        invariant
            n == s@.len(),
            i <= n,
            res@ == s@.take(i as int),
        decreases n - i,
    {
        res.push(s.get_char(i));
        proof { assert(res@ =~= s@.take(i + 1)); }
        i += 1;
    }
    proof { assert(res@ =~= s@); }
    res
}

/// The position of the first `c` in `chars[lo..hi]`, or `hi`.
pub fn find_char(chars: &Vec<char>, lo: usize, hi: usize, c: char) -> (res: usize)
    requires
        lo <= hi <= chars@.len(),
    ensures
        lo <= res <= hi,
        res - lo == first_index(chars@.subrange(lo as int, hi as int), c),
{
    let mut i = lo;
    while i < hi && chars[i] != c
        invariant
            lo <= i <= hi <= chars@.len(),
            forall|j: int| lo <= j < i ==> chars@[j] != c,
        decreases hi - i,
    {
        i += 1;
    }
    proof {
        let sub = chars@.subrange(lo as int, hi as int);
        assert forall|j: int| 0 <= j < i - lo implies sub[j] != c by {
            assert(sub[j] == chars@[lo + j]);
        }
        if i < hi {
            assert(sub[i - lo] == chars@[i as int]);
        }
        lemma_first_index(sub, c, i - lo);
    }
    i
}

/// The whitespace-separated tokens of `text[lo..hi]`, where `chars` are the characters of `text`.
pub fn tokenize(text: &str, chars: &Vec<char>, lo: usize, hi: usize) -> (res: Vec<String>)
    requires
        chars@ == text@,
        lo <= hi <= chars@.len(),
    ensures
        res@.map_values(|t: String| t@) == tokens(chars@.subrange(lo as int, hi as int)),
{
    let mut res: Vec<String> = Vec::new();
    let mut start: usize = lo;
    let mut in_token = false;
    let mut i: usize = lo;
    proof { assert(chars@.subrange(lo as int, lo as int) =~= Seq::<char>::empty()); }
    while i < hi
        invariant
            chars@ == text@,
            lo <= start <= i <= hi <= chars@.len(),
            in_token <==> (i > lo && !is_blank(chars@[i - 1])),
            in_token ==> (start < i && (start == lo || is_blank(chars@[start - 1]))
                && forall|j: int| start <= j < i ==> !is_blank(#[trigger] chars@[j])),
            in_token ==> res@.map_values(|t: String| t@).push(chars@.subrange(start as int, i as int))
                == tokens(chars@.subrange(lo as int, i as int)),
            !in_token ==> res@.map_values(|t: String| t@) == tokens(chars@.subrange(lo as int, i as int)),
        decreases hi - i,
    {
        let c = chars[i];
        let ghost sub = chars@.subrange(lo as int, i + 1);
        proof {
            assert(sub.drop_last() =~= chars@.subrange(lo as int, i as int));
            assert(sub.last() == c);
        }
        if c == ' ' || c == '\t' || c == '\r' {
            if in_token {
                let t = text.substring_char(start, i).to_owned();
                let ghost before = res@;
                res.push(t);
                proof {
                    assert(res@.map_values(|t: String| t@) =~= before.map_values(|t: String| t@).push(chars@.subrange(start as int, i as int)));
                }
            }
            in_token = false;
        } else {
            if !in_token {
                start = i;
                in_token = true;
                proof {
                    assert(chars@.subrange(start as int, i + 1) =~= seq![c]);
                }
            } else {
                proof {
                    assert(sub.len() >= 2);
                    assert(sub[sub.len() - 2] == chars@[i - 1]);
                    assert(chars@.subrange(start as int, i + 1) =~= chars@.subrange(start as int, i as int).push(c));
                }
            }
        }
        i += 1;
    }
    if in_token {
        let t = text.substring_char(start, i).to_owned();
        let ghost before = res@;
        res.push(t);
        proof {
            assert(res@.map_values(|t: String| t@) =~= before.map_values(|t: String| t@).push(chars@.subrange(start as int, i as int)));
        }
    }
    res
}

} // verus!
