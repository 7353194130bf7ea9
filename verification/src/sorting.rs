//! Sorting of lists of ids, keeping every id as many times as it occurs.

use vstd::prelude::*;

verus! {

/// How many times `t` occurs in `s`.
pub open spec fn count_of(s: Seq<u32>, t: u32) -> nat
    decreases s.len(),
{
    if s.len() == 0 {
        0
    } else {
        count_of(s.drop_last(), t) + (if s.last() == t { 1nat } else { 0nat })
    }
}

/// The elements of `s` are in increasing order.
pub open spec fn sorted(s: Seq<u32>) -> bool {
    forall|i: int, j: int| 0 <= i < j < s.len() ==> s[i] <= s[j]
}

/// Counting over a concatenation.
pub proof fn lemma_count_concat(a: Seq<u32>, b: Seq<u32>, t: u32)
    ensures
        count_of(a + b, t) == count_of(a, t) + count_of(b, t),
    decreases b.len(),
{
    if b.len() == 0 {
        assert(a + b =~= a);
    } else {
        assert((a + b).drop_last() =~= a + b.drop_last());
        assert((a + b).last() == b.last());
        lemma_count_concat(a, b.drop_last(), t);
    }
}

/// Counting in a sequence made of one repeated value.
pub proof fn lemma_count_repeat(n: nat, v: u32, t: u32)
    ensures
        count_of(Seq::new(n, |k: int| v), t) == (if v == t { n } else { 0 }),
    decreases n,
{
    if n > 0 {
        assert(Seq::new(n, |k: int| v).drop_last() =~= Seq::new((n - 1) as nat, |k: int| v));
        lemma_count_repeat((n - 1) as nat, v, t);
    }
}

/// A value occurs in a sequence exactly when it is counted there.
pub proof fn lemma_count_contains(s: Seq<u32>, t: u32)
    ensures
        count_of(s, t) > 0 <==> s.contains(t),
    decreases s.len(),
{
    if s.len() > 0 {
        lemma_count_contains(s.drop_last(), t);
        if s.drop_last().contains(t) {
            let i = choose|i: int| 0 <= i < s.drop_last().len() && s.drop_last()[i] == t;
            assert(s[i] == t);
        }
        if s.contains(t) {
            let i = choose|i: int| 0 <= i < s.len() && s[i] == t;
            if i < s.len() - 1 {
                assert(s.drop_last()[i] == t);
            }
        }
    }
}

/// A sequence without repetitions counts each of its elements once.
pub proof fn lemma_count_no_dup(s: Seq<u32>, t: u32)
    requires
        s.no_duplicates(),
    ensures
        count_of(s, t) <= 1,
    decreases s.len(),
{
    if s.len() > 0 {
        assert(s.drop_last().no_duplicates()) by {
            assert forall|i: int, j: int| 0 <= i < s.drop_last().len() && 0 <= j < s.drop_last().len() && i != j
                implies s.drop_last()[i] != s.drop_last()[j] by {
                assert(s.drop_last()[i] == s[i] && s.drop_last()[j] == s[j]);
            }
        }
        lemma_count_no_dup(s.drop_last(), t);
        if s.last() == t {
            lemma_count_contains(s.drop_last(), t);
            if s.drop_last().contains(t) {
                let i = choose|i: int| 0 <= i < s.drop_last().len() && s.drop_last()[i] == t;
                assert(s[i] == s[s.len() - 1]);
            }
        }
    }
}

/// The same elements, each as many times, in increasing order.
pub fn sort_ids(v: &Vec<u32>) -> (res: Vec<u32>)
    ensures
        sorted(res@),
        forall|t: u32| count_of(res@, t) == count_of(v@, t),
        res@.len() == v@.len(),
{
    let mut out: Vec<u32> = Vec::new();
    let mut i: usize = 0;
    while i < v.len()
        invariant
            i <= v@.len(),
            out@.len() == i,
            sorted(out@),
            forall|t: u32| count_of(out@, t) == count_of(v@.take(i as int), t),
        decreases v@.len() - i,
    {
        let x = v[i];
        let mut p: usize = 0;
        while p < out.len() && out[p] <= x
            invariant
                p <= out@.len(),
                forall|j: int| 0 <= j < p ==> out@[j] <= x,
            decreases out@.len() - p,
        {
            p += 1;
        }
        let ghost before = out@;
        out.insert(p, x);
        proof {
            assert(out@ =~= before.take(p as int).push(x) + before.skip(p as int));
            assert(before =~= before.take(p as int) + before.skip(p as int));
            assert forall|t: u32| count_of(out@, t) == count_of(v@.take(i + 1), t) by {
                lemma_count_concat(before.take(p as int).push(x), before.skip(p as int), t);
                lemma_count_concat(before.take(p as int), before.skip(p as int), t);
                assert(before.take(p as int).push(x).drop_last() =~= before.take(p as int));
                assert(v@.take(i + 1).drop_last() =~= v@.take(i as int));
                assert(v@.take(i + 1).last() == x);
            }
            assert forall|a: int, b: int| 0 <= a < b < out@.len() implies out@[a] <= out@[b] by {
                if b < p {
                    assert(out@[a] == before[a] && out@[b] == before[b]);
                } else if b == p {
                    assert(out@[a] == before[a]);
                } else if a < p {
                    assert(out@[a] == before[a] && out@[b] == before[b - 1]);
                    if p < before.len() {
                        assert(before[p as int] > x);
                        assert(before[p as int] <= before[b - 1]);
                    }
                } else if a == p {
                    assert(out@[b] == before[b - 1]);
                    assert(before[p as int] > x);
                    assert(before[p as int] <= before[b - 1]);
                } else {
                    assert(out@[a] == before[a - 1] && out@[b] == before[b - 1]);
                }
            }
        }
        i += 1;
    }
    proof { assert(v@.take(i as int) =~= v@); }
    out
}

} // verus!
