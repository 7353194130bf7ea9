//! The order of texts (character by character, a prefix first), and sorted lists of distinct
//! texts.

use vstd::prelude::*;

use crate::samples::views;

verus! {

/// `a` comes before `b`: at the first position where they differ, `a` has the smaller
/// character, or `a` is a proper prefix of `b`.
pub open spec fn text_lt(a: Seq<char>, b: Seq<char>) -> bool
    decreases a.len(),
{
    if b.len() == 0 {
        false
    } else if a.len() == 0 {
        true
    } else if a[0] != b[0] {
        a[0] < b[0]
    } else {
        text_lt(a.drop_first(), b.drop_first())
    }
}

pub proof fn lemma_text_lt_irreflexive(a: Seq<char>)
    ensures
        !text_lt(a, a),
    decreases a.len(),
{
    if a.len() > 0 {
        lemma_text_lt_irreflexive(a.drop_first());
    }
}

pub proof fn lemma_text_lt_trans(a: Seq<char>, b: Seq<char>, c: Seq<char>)
    requires
        text_lt(a, b),
        text_lt(b, c),
    ensures
        text_lt(a, c),
    decreases a.len(),
{
    if a.len() > 0 && b.len() > 0 && c.len() > 0 {
        if a[0] == b[0] && b[0] == c[0] {
            lemma_text_lt_trans(a.drop_first(), b.drop_first(), c.drop_first());
        }
    }
}

pub proof fn lemma_text_lt_total(a: Seq<char>, b: Seq<char>)
    requires
        a != b,
    ensures
        text_lt(a, b) || text_lt(b, a),
    decreases a.len(),
{
    if a.len() > 0 && b.len() > 0 {
        if a[0] == b[0] {
            if a.drop_first() == b.drop_first() {
                assert(a =~= seq![a[0]] + a.drop_first());
                assert(b =~= seq![b[0]] + b.drop_first());
            }
            lemma_text_lt_total(a.drop_first(), b.drop_first());
        }
    } else if a.len() == 0 && b.len() == 0 {
        assert(a =~= b);
    }
}

pub proof fn lemma_text_lt_asym(a: Seq<char>, b: Seq<char>)
    requires
        text_lt(a, b),
    ensures
        !text_lt(b, a),
        a != b,
{
    if text_lt(b, a) {
        lemma_text_lt_trans(a, b, a);
        lemma_text_lt_irreflexive(a);
    }
    if a == b {
        lemma_text_lt_irreflexive(a);
    }
}

/// The texts are in increasing order, each once.
pub open spec fn strictly_sorted(s: Seq<Seq<char>>) -> bool {
    forall|i: int, j: int| 0 <= i < j < s.len() ==> text_lt(s[i], s[j])
}

/// Whether the first text comes before the second.
pub fn text_less(a: &str, b: &str) -> (res: bool)
    ensures
        res == text_lt(a@, b@),
{
    let n = a.unicode_len();
    let m = b.unicode_len();
    let mut i: usize = 0;
    proof {
        assert(a@.skip(0) =~= a@);
        assert(b@.skip(0) =~= b@);
    }
    while i < n && i < m
        invariant
            n == a@.len(),
            m == b@.len(),
            i <= n,
            i <= m,
            text_lt(a@, b@) == text_lt(a@.skip(i as int), b@.skip(i as int)),
        decreases n - i,
    {
        let x = a.get_char(i);
        let y = b.get_char(i);
        proof {
            assert(a@.skip(i as int)[0] == x);
            assert(b@.skip(i as int)[0] == y);
            assert(a@.skip(i as int).drop_first() =~= a@.skip(i + 1));
            assert(b@.skip(i as int).drop_first() =~= b@.skip(i + 1));
        }
        if x != y {
            return x < y;
        }
        i += 1;
    }
    proof {
        assert(a@.skip(i as int).len() == n - i);
        assert(b@.skip(i as int).len() == m - i);
    }
    i == n && i < m
}

/// The distinct texts of the list, in increasing order.
pub fn sort_unique(texts: &Vec<String>) -> (res: Vec<String>)
    ensures
        strictly_sorted(views(res@)),
        forall|x: Seq<char>| views(res@).contains(x) <==> views(texts@).contains(x),
{
    let mut res: Vec<String> = Vec::new();
    let mut k: usize = 0;
    while k < texts.len()
        invariant
            k <= texts@.len(),
            strictly_sorted(views(res@)),
            forall|x: Seq<char>| views(res@).contains(x) <==> views(texts@.take(k as int)).contains(x),
        decreases texts@.len() - k,
    {
        let s = &texts[k];
        let ghost before = views(res@);
        assert(forall|x: Seq<char>| before.contains(x) <==> views(texts@.take(k as int)).contains(x));
        // the first position whose text does not come before `s`
        let mut p: usize = 0;
        while p < res.len() && text_less(res[p].as_str(), s.as_str())
            invariant
                p <= res@.len(),
                views(res@) == before,
                forall|j: int| 0 <= j < p ==> text_lt(before[j], s@),
            decreases res@.len() - p,
        {
            p += 1;
        }
        let dup = p < res.len() && crate::text::str_eq(res[p].as_str(), s.as_str());
        if !dup {
            res.insert(p, s.clone());
            proof {
                let after = views(res@);
                assert(after =~= before.insert(p as int, s@));
                assert forall|i: int, j: int| 0 <= i < j < after.len() implies text_lt(after[i], after[j]) by {
                    if p < before.len() {
                        assert(!text_lt(before[p as int], s@));
                        assert(before[p as int] != s@);
                        lemma_text_lt_total(before[p as int], s@);
                    }
                    if j < p {
                    } else if j == p {
                        assert(text_lt(before[i], s@));
                    } else if i < p {
                        if j - 1 > p {
                            lemma_text_lt_trans(before[i], before[p as int], before[j - 1]);
                        }
                        lemma_text_lt_trans(before[i], s@, before[p as int]);
                        if j - 1 > p {
                            lemma_text_lt_trans(before[i], before[p as int], before[j - 1]);
                        }
                    } else if i == p {
                        if j - 1 > p {
                            lemma_text_lt_trans(s@, before[p as int], before[j - 1]);
                        }
                    } else {
                    }
                }
            }
        }
        proof {
            let t = texts@.take(k + 1);
            assert(views(t) =~= views(texts@.take(k as int)).push(s@));
            if dup {
                assert(views(res@) == before);
                assert(before[p as int] == s@);
                assert(forall|x: Seq<char>| views(res@).contains(x) <==> (before.contains(x) || x == s@));
            } else {
                assert(views(res@) =~= before.insert(p as int, s@));
                assert forall|x: Seq<char>| views(res@).contains(x) <==> (before.contains(x) || x == s@) by {
                    let after = views(res@);
                    if after.contains(x) {
                        let i = choose|i: int| 0 <= i < after.len() && after[i] == x;
                        if i < p {
                            assert(before[i] == x);
                        } else if i > p {
                            assert(before[i - 1] == x);
                        }
                    }
                    if before.contains(x) {
                        let i = choose|i: int| 0 <= i < before.len() && before[i] == x;
                        if i < p {
                            assert(after[i] == x);
                        } else {
                            assert(after[i + 1] == x);
                        }
                    }
                    if x == s@ {
                        assert(after[p as int] == x);
                    }
                }
            }
            assert forall|x: Seq<char>| views(t).contains(x) <==> (views(texts@.take(k as int)).contains(x) || x == s@) by {
                let pre = views(texts@.take(k as int));
                if views(t).contains(x) {
                    let i = choose|i: int| 0 <= i < views(t).len() && views(t)[i] == x;
                    if i < pre.len() {
                        assert(pre[i] == x);
                    }
                }
                if pre.contains(x) {
                    let i = choose|i: int| 0 <= i < pre.len() && pre[i] == x;
                    assert(views(t)[i] == x);
                }
                if x == s@ {
                    assert(views(t)[pre.len() as int] == x);
                }
            }
            assert forall|x: Seq<char>| views(res@).contains(x) <==> views(t).contains(x) by {
                assert(views(res@).contains(x) <==> (before.contains(x) || x == s@));
                assert(before.contains(x) <==> views(texts@.take(k as int)).contains(x));
                assert(views(t).contains(x) <==> (views(texts@.take(k as int)).contains(x) || x == s@));
            }
        }
        k += 1;
    }
    proof {
        assert(texts@.take(texts@.len() as int) =~= texts@);
    }
    res
}

/// Two lists of texts in increasing order, each text once, with the same texts, are the same:
/// the sorted list of a set of texts is unique.
pub proof fn lemma_strictly_sorted_unique(a: Seq<Seq<char>>, b: Seq<Seq<char>>)
    requires
        strictly_sorted(a),
        strictly_sorted(b),
        forall|x: Seq<char>| a.contains(x) <==> b.contains(x),
    ensures
        a == b,
    decreases a.len(),
{
    if a.len() == 0 {
        if b.len() > 0 {
            assert(b.contains(b[0]));
        }
        assert(a =~= b);
    } else {
        assert(a.contains(a[0]));
        assert(b.len() > 0);
        assert(b.contains(b[0]));
        let j = choose|j: int| 0 <= j < b.len() && b[j] == a[0];
        let i = choose|i: int| 0 <= i < a.len() && a[i] == b[0];
        if j > 0 {
            assert(text_lt(b[0], b[j]));
            if i == 0 {
                lemma_text_lt_irreflexive(a[0]);
            } else {
                assert(text_lt(a[0], a[i]));
                lemma_text_lt_trans(a[0], a[i], a[0]);
                lemma_text_lt_irreflexive(a[0]);
            }
        }
        assert(a[0] == b[0]);
        let a1 = a.drop_first();
        let b1 = b.drop_first();
        assert forall|x: Seq<char>| a1.contains(x) <==> b1.contains(x) by {
            if a1.contains(x) {
                let k = choose|k: int| 0 <= k < a1.len() && a1[k] == x;
                assert(a[k + 1] == x);
                assert(text_lt(a[0], a[k + 1]));
                lemma_text_lt_asym(a[0], x);
                assert(b.contains(x));
                let q = choose|q: int| 0 <= q < b.len() && b[q] == x;
                assert(q != 0);
                assert(b1[q - 1] == x);
            }
            if b1.contains(x) {
                let k = choose|k: int| 0 <= k < b1.len() && b1[k] == x;
                assert(b[k + 1] == x);
                assert(text_lt(b[0], b[k + 1]));
                lemma_text_lt_asym(b[0], x);
                assert(a.contains(x));
                let q = choose|q: int| 0 <= q < a.len() && a[q] == x;
                assert(q != 0);
                assert(a1[q - 1] == x);
            }
        }
        lemma_strictly_sorted_unique(a1, b1);
        assert(a =~= seq![a[0]] + a1);
        assert(b =~= seq![b[0]] + b1);
    }
}

} // verus!
