//! The sample cases handed out with a task: the files `att/*input<n>.txt` and
//! `att/*output<n>.txt` are paired by their number `n`, and the numbers used twice or left without
//! the other file of the pair are reported.

use vstd::prelude::*;

use crate::lexing::to_chars;
use crate::text::{all_digits, decimal, digits_from, digits_up_to, digits_value, is_digit, push_str, u64_to_string};

verus! {

/// The characters of `input`.
pub open spec fn input_word() -> Seq<char> {
    seq!['i', 'n', 'p', 'u', 't']
}

/// The characters of `output`.
pub open spec fn output_word() -> Seq<char> {
    seq!['o', 'u', 't', 'p', 'u', 't']
}

/// The characters of `.txt`.
pub open spec fn txt_word() -> Seq<char> {
    seq!['.', 't', 'x', 't']
}

/// `a` is a suffix of `p`.
pub open spec fn ends_with(p: Seq<char>, a: Seq<char>) -> bool {
    a.len() <= p.len() && p.skip(p.len() - a.len()) == a
}

/// The path ends with `input` or `output`, then `d`, then `.txt`.
pub open spec fn ends_with_sample(p: Seq<char>, d: Seq<char>) -> bool {
    ends_with(p, input_word() + d + txt_word()) || ends_with(p, output_word() + d + txt_word())
}

/// The text of the number of a sample path: the non-empty decimal digits between `input` or
/// `output` and the final `.txt`.
pub open spec fn is_sample_digits(p: Seq<char>, d: Seq<char>) -> bool {
    d.len() > 0 && all_digits(d) && ends_with_sample(p, d)
}

/// The number of a sample path, when it has one that fits in 32 bits.
pub open spec fn sample_number(p: Seq<char>) -> Option<u32> {
    if exists|d: Seq<char>| #[trigger] is_sample_digits(p, d) {
        let d = choose|d: Seq<char>| #[trigger] is_sample_digits(p, d);
        if digits_value(d) <= u32::MAX {
            Some(digits_value(d) as u32)
        } else {
            None
        }
    } else {
        None
    }
}

/// The expression of the regex crate that takes apart the path of a sample file: `input` or
/// `output`, decimal digits (its second group), then `.txt` at the end.
pub open spec fn sample_expr() -> Seq<char> {
    "(in|out)put(\\d+)\\.txt$"@
}

/// The digits that the expression `expr` of the regex crate (`Regex::new` then
/// `Regex::captures`) captures in its second group in `path`, if it matches. For the expression
/// of sample paths: when it matches, the path ends with `input` or `output`, the captured digits
/// and `.txt`; the digits are decimal digits of some script, as `\d` matches them, so none of
/// them is the letter `t`. When it does not match, the path does not end that way with ASCII
/// digits, which `\d` matches too.
#[verifier::external_body]
fn sample_digits(expr: &str, path: &str) -> (res: Option<String>)
    requires
        expr@ == sample_expr(),
    ensures
        res matches Some(d) ==> d@.len() > 0 && (forall|i: int| 0 <= i < d@.len() ==> d@[i] != 't')
            && ends_with_sample(path@, d@),
        res is None ==> forall|d: Seq<char>| !is_sample_digits(path@, d),
{
    let regex = regex::Regex::new(expr).unwrap();
    regex.captures(path).and_then(|c| c.get(2)).map(|m| m.as_str().to_owned())
}

/// The character before the `.txt` ending, at distance `k` from it, when the path ends with a
/// sample ending with the digits `d`: within `d` for `k < d.len()`, the `t` of `input` or `output`
/// for `k == d.len()`.
proof fn lemma_sample_char(p: Seq<char>, d: Seq<char>, k: int)
    requires
        ends_with_sample(p, d),
        0 <= k <= d.len(),
    ensures
        p.len() >= d.len() + 9,
        k < d.len() ==> p[p.len() - 5 - k] == d[d.len() - 1 - k],
        k == d.len() ==> p[p.len() - 5 - k] == 't',
{
    if ends_with(p, input_word() + d + txt_word()) {
        let a = input_word() + d + txt_word();
        assert(p.skip(p.len() - a.len())[a.len() - 5 - k] == p[p.len() - 5 - k]);
        if k < d.len() {
            assert(a[a.len() - 5 - k] == d[d.len() - 1 - k]);
        } else {
            assert(a[a.len() - 5 - k] == input_word()[4]);
        }
    } else {
        let a = output_word() + d + txt_word();
        assert(p.skip(p.len() - a.len())[a.len() - 5 - k] == p[p.len() - 5 - k]);
        if k < d.len() {
            assert(a[a.len() - 5 - k] == d[d.len() - 1 - k]);
        } else {
            assert(a[a.len() - 5 - k] == output_word()[5]);
        }
    }
}

/// Two texts without the letter `t` that both end a sample path are the same.
proof fn lemma_sample_digits_unique(p: Seq<char>, d1: Seq<char>, d2: Seq<char>)
    requires
        ends_with_sample(p, d1),
        ends_with_sample(p, d2),
        forall|i: int| 0 <= i < d1.len() ==> d1[i] != 't',
        forall|i: int| 0 <= i < d2.len() ==> d2[i] != 't',
    ensures
        d1 == d2,
{
    lemma_sample_char(p, d1, 0);
    lemma_sample_char(p, d2, 0);
    if d1.len() < d2.len() {
        lemma_sample_char(p, d1, d1.len() as int);
        lemma_sample_char(p, d2, d1.len() as int);
        assert(d2[d2.len() - 1 - d1.len()] == 't');
    } else if d2.len() < d1.len() {
        lemma_sample_char(p, d2, d2.len() as int);
        lemma_sample_char(p, d1, d2.len() as int);
        assert(d1[d1.len() - 1 - d2.len()] == 't');
    } else {
        assert forall|i: int| 0 <= i < d1.len() implies d1[i] == d2[i] by {
            lemma_sample_char(p, d1, d1.len() - 1 - i);
            lemma_sample_char(p, d2, d1.len() - 1 - i);
        }
        assert(d1 =~= d2);
    }
}

/// ASCII digits are not the letter `t`.
proof fn lemma_digits_no_t(d: Seq<char>)
    requires
        all_digits(d),
    ensures
        forall|i: int| 0 <= i < d.len() ==> d[i] != 't',
{
    assert forall|i: int| 0 <= i < d.len() implies d[i] != 't' by {
        assert(is_digit(d[i]));
    }
}

/// The number of a sample path: the number between `input` or `output` and the final `.txt`, when
/// there is one and it fits in 32 bits.
pub fn sample_number_of(path: &str) -> (res: Option<u32>)
    ensures
        res == sample_number(path@),
{
    match sample_digits("(in|out)put(\\d+)\\.txt$", path) {
        None => None,
        Some(d) => {
            let chars = to_chars(d.as_str());
            proof { assert(chars@.skip(0) =~= chars@); }
            match digits_from(&chars, 0) {
                None => {
                    proof {
                        assert forall|e: Seq<char>| !is_sample_digits(path@, e) by {
                            if is_sample_digits(path@, e) {
                                lemma_digits_no_t(e);
                                lemma_sample_digits_unique(path@, d@, e);
                            }
                        }
                    }
                    None
                },
                Some(ds) => {
                    proof {
                        assert(is_sample_digits(path@, d@));
                        let e = choose|e: Seq<char>| #[trigger] is_sample_digits(path@, e);
                        lemma_digits_no_t(e);
                        lemma_sample_digits_unique(path@, d@, e);
                    }
                    match digits_up_to(&ds, 4294967295) {
                        None => None,
                        Some(v) => Some(v as u32),
                    }
                },
            }
        },
    }
}

/// The paths with number `n`, in order.
pub open spec fn with_number(ps: Seq<Seq<char>>, n: u32) -> Seq<Seq<char>>
    decreases ps.len(),
{
    if ps.len() == 0 {
        Seq::empty()
    } else {
        let prev = with_number(ps.drop_last(), n);
        if sample_number(ps.last()) == Some(n) {
            prev.push(ps.last())
        } else {
            prev
        }
    }
}

/// Some path has number `n`.
pub open spec fn has_number(ps: Seq<Seq<char>>, n: u32) -> bool {
    with_number(ps, n).len() > 0
}

/// The numbers are in strictly increasing order.
pub open spec fn strictly_sorted(s: Seq<u32>) -> bool {
    forall|i: int, j: int| 0 <= i < j < s.len() ==> s[i] < s[j]
}

/// `s` lists the numbers of the paths, each once, in increasing order.
pub open spec fn numbers_of(ps: Seq<Seq<char>>, s: Seq<u32>) -> bool {
    strictly_sorted(s) && forall|n: u32| s.contains(n) <==> has_number(ps, n)
}

/// The paths separated by a comma and a space.
pub open spec fn join_comma(ps: Seq<Seq<char>>) -> Seq<char>
    decreases ps.len(),
{
    if ps.len() == 0 {
        Seq::empty()
    } else if ps.len() == 1 {
        ps[0]
    } else {
        join_comma(ps.drop_last()) + ", "@ + ps.last()
    }
}

/// A problem with the sample files: the message and, for some, a note.
pub struct SampleDiagnostic {
    pub message: String,
    pub note: Option<String>,
}

/// A problem with the sample files, over the characters of its texts.
pub open spec fn diagnostic_view(d: SampleDiagnostic) -> (Seq<char>, Option<Seq<char>>) {
    (d.message@, match d.note {
        Some(n) => Some(n@),
        None => None,
    })
}

/// The problems, over the characters of their texts.
pub open spec fn diagnostic_views(ds: Seq<SampleDiagnostic>) -> Seq<(Seq<char>, Option<Seq<char>>)> {
    ds.map_values(|d: SampleDiagnostic| diagnostic_view(d))
}

/// The pairs of paths, over their characters.
pub open spec fn pair_views(ps: Seq<(String, String)>) -> Seq<(Seq<char>, Seq<char>)> {
    ps.map_values(|p: (String, String)| (p.0@, p.1@))
}

/// The problems of the numbers `nums` held by more than one of the paths `ps` of the given kind
/// (`input` or `output`), with the paths that hold them.
pub open spec fn duplicate_diags(kind: Seq<char>, nums: Seq<u32>, ps: Seq<Seq<char>>) -> Seq<(Seq<char>, Option<Seq<char>>)>
    decreases nums.len(),
{
    if nums.len() == 0 {
        Seq::empty()
    } else {
        let prev = duplicate_diags(kind, nums.drop_last(), ps);
        let n = nums.last();
        let g = with_number(ps, n);
        if g.len() > 1 {
            prev.push((
                "Sample "@ + kind + " "@ + decimal(n as nat) + " is present more than once"@,
                Some("Found at: "@ + join_comma(g)),
            ))
        } else {
            prev
        }
    }
}

/// The problems of the input files whose number no output file has.
pub open spec fn missing_output_diags(in_nums: Seq<u32>, out_nums: Seq<u32>, inputs: Seq<Seq<char>>) -> Seq<(Seq<char>, Option<Seq<char>>)>
    decreases in_nums.len(),
{
    if in_nums.len() == 0 {
        Seq::empty()
    } else {
        let prev = missing_output_diags(in_nums.drop_last(), out_nums, inputs);
        let n = in_nums.last();
        if out_nums.contains(n) {
            prev
        } else {
            prev.push(("Sample input file "@ + with_number(inputs, n)[0] + " does not have its output file"@, None))
        }
    }
}

/// The problems of the output files whose number no input file has.
pub open spec fn missing_input_diags(out_nums: Seq<u32>, in_nums: Seq<u32>, outputs: Seq<Seq<char>>) -> Seq<(Seq<char>, Option<Seq<char>>)>
    decreases out_nums.len(),
{
    if out_nums.len() == 0 {
        Seq::empty()
    } else {
        let prev = missing_input_diags(out_nums.drop_last(), in_nums, outputs);
        let n = out_nums.last();
        if in_nums.contains(n) {
            prev
        } else {
            prev.push(("Sample output file "@ + with_number(outputs, n)[0] + " does not have its input file"@, None))
        }
    }
}

/// The sample cases: for each number held by an input and an output file, in increasing order,
/// the first input file and the first output file with that number.
pub open spec fn sample_pairs(in_nums: Seq<u32>, out_nums: Seq<u32>, inputs: Seq<Seq<char>>, outputs: Seq<Seq<char>>) -> Seq<(Seq<char>, Seq<char>)>
    decreases in_nums.len(),
{
    if in_nums.len() == 0 {
        Seq::empty()
    } else {
        let prev = sample_pairs(in_nums.drop_last(), out_nums, inputs, outputs);
        let n = in_nums.last();
        if out_nums.contains(n) {
            prev.push((with_number(inputs, n)[0], with_number(outputs, n)[0]))
        } else {
            prev
        }
    }
}

/// The views of a sequence of strings.
pub open spec fn views(v: Seq<String>) -> Seq<Seq<char>> {
    crate::words::string_views(v)
}

/// The numbers of the paths.
fn numbers_of_paths(paths: &Vec<String>) -> (res: Vec<Option<u32>>)
    ensures
        res@.len() == paths@.len(),
        forall|i: int| 0 <= i < res@.len() ==> res@[i] == sample_number(#[trigger] paths@[i]@),
{
    let mut res: Vec<Option<u32>> = Vec::new();
    let mut i: usize = 0;
    while i < paths.len()
        invariant
            i <= paths@.len(),
            res@.len() == i,
            forall|j: int| 0 <= j < i ==> res@[j] == sample_number(#[trigger] paths@[j]@),
        decreases paths@.len() - i,
    {
        res.push(sample_number_of(paths[i].as_str()));
        i += 1;
    }
    res
}

/// Whether `x` is in `v`.
fn contains_number(v: &Vec<u32>, x: u32) -> (res: bool)
    ensures
        res == v@.contains(x),
{
    let mut i: usize = 0;
    while i < v.len()
        invariant
            i <= v@.len(),
            forall|j: int| 0 <= j < i ==> v@[j] != x,
        decreases v@.len() - i,
    {
        if v[i] == x {
            assert(v@[i as int] == x);
            return true;
        }
        i += 1;
    }
    false
}

/// Adds `x` to the strictly increasing numbers `v`, unless it is there.
#[verifier::spinoff_prover]
fn insert_sorted(v: &mut Vec<u32>, x: u32)
    requires
        strictly_sorted(old(v)@),
    ensures
        strictly_sorted(final(v)@),
        forall|n: u32| final(v)@.contains(n) <==> (old(v)@.contains(n) || n == x),
{
    let mut i: usize = 0;
    while i < v.len() && v[i] < x
        invariant
            v@ == old(v)@,
            i <= v@.len(),
            forall|j: int| 0 <= j < i ==> v@[j] < x,
        decreases v@.len() - i,
    {
        i += 1;
    }
    if i < v.len() && v[i] == x {
        assert(v@[i as int] == x);
        return;
    }
    let ghost before = v@;
    v.insert(i, x);
    proof {
        assert(v@ == before.insert(i as int, x));
        assert(before == old(v)@);
        assert forall|a: int, b: int| 0 <= a < b < v@.len() implies v@[a] < v@[b] by {
            if b < i {
                assert(v@[a] == before[a]);
                assert(v@[b] == before[b]);
            } else if a < i && b == i {
                assert(v@[a] == before[a]);
            } else if a < i && b > i {
                assert(v@[a] == before[a]);
                assert(v@[b] == before[b - 1]);
            } else if a == i {
                assert(v@[b] == before[b - 1]);
                assert(before[i as int] > x);
            } else {
                assert(v@[a] == before[a - 1]);
                assert(v@[b] == before[b - 1]);
            }
        }
        assert forall|n: u32| v@.contains(n) <==> (before.contains(n) || n == x) by {
            if v@.contains(n) {
                let k = choose|k: int| 0 <= k < v@.len() && v@[k] == n;
                if k < i {
                    assert(before[k] == n);
                } else if k > i {
                    assert(before[k - 1] == n);
                }
            }
            if before.contains(n) {
                let k = choose|k: int| 0 <= k < before.len() && before[k] == n;
                if k < i {
                    assert(v@[k] == n);
                } else {
                    assert(v@[k + 1] == n);
                }
            }
            if n == x {
                assert(v@[i as int] == x);
            }
        }
        assert(forall|n: u32| v@.contains(n) <==> (old(v)@.contains(n) || n == x));
    }
}

/// The numbers of the paths, each once, in increasing order.
fn distinct_numbers(paths: &Vec<String>, nums: &Vec<Option<u32>>) -> (res: Vec<u32>)
    requires
        nums@.len() == paths@.len(),
        forall|i: int| 0 <= i < nums@.len() ==> nums@[i] == sample_number(#[trigger] paths@[i]@),
    ensures
        numbers_of(views(paths@), res@),
{
    let ghost ps = views(paths@);
    let mut res: Vec<u32> = Vec::new();
    let mut i: usize = 0;
    while i < nums.len()
        invariant
            ps == views(paths@),
            nums@.len() == paths@.len(),
            forall|j: int| 0 <= j < nums@.len() ==> nums@[j] == sample_number(#[trigger] paths@[j]@),
            i <= nums@.len(),
            numbers_of(ps.take(i as int), res@),
        decreases nums@.len() - i,
    {
        proof {
            assert(ps.take(i + 1).drop_last() =~= ps.take(i as int));
            assert(ps.take(i + 1).last() == paths@[i as int]@);
        }
        match nums[i] {
            Some(n) => {
                insert_sorted(&mut res, n);
            },
            None => {},
        }
        i += 1;
    }
    assert(ps.take(i as int) =~= ps);
    res
}

/// The paths with number `n`, in order.
fn paths_with(paths: &Vec<String>, nums: &Vec<Option<u32>>, n: u32) -> (res: Vec<String>)
    requires
        nums@.len() == paths@.len(),
        forall|i: int| 0 <= i < nums@.len() ==> nums@[i] == sample_number(#[trigger] paths@[i]@),
    ensures
        views(res@) == with_number(views(paths@), n),
{
    let ghost ps = views(paths@);
    let mut res: Vec<String> = Vec::new();
    let mut i: usize = 0;
    while i < nums.len()
        invariant
            ps == views(paths@),
            nums@.len() == paths@.len(),
            forall|j: int| 0 <= j < nums@.len() ==> nums@[j] == sample_number(#[trigger] paths@[j]@),
            i <= nums@.len(),
            views(res@) == with_number(ps.take(i as int), n),
        decreases nums@.len() - i,
    {
        proof {
            assert(ps.take(i + 1).drop_last() =~= ps.take(i as int));
            assert(ps.take(i + 1).last() == paths@[i as int]@);
        }
        if nums[i] == Some(n) {
            let ghost before = res@;
            res.push(paths[i].clone());
            proof {
                assert(views(res@) =~= views(before).push(paths@[i as int]@));
            }
        }
        i += 1;
    }
    assert(ps.take(i as int) =~= ps);
    res
}

/// The paths separated by a comma and a space.
pub(crate) fn join_paths(ps: &Vec<String>) -> (res: String)
    ensures
        res@ == join_comma(views(ps@)),
{
    let ghost vs = views(ps@);
    let mut out = String::new();
    let mut i: usize = 0;
    proof {
        assert(vs.take(0) =~= Seq::<Seq<char>>::empty());
    }
    while i < ps.len()
        invariant
            vs == views(ps@),
            i <= ps@.len(),
            out@ == join_comma(vs.take(i as int)),
        decreases ps@.len() - i,
    {
        proof {
            reveal_strlit(", ");
            assert(vs.take(i + 1).drop_last() =~= vs.take(i as int));
            assert(vs.take(i + 1).last() == ps@[i as int]@);
        }
        if i > 0 {
            push_str(&mut out, ", ");
        } else {
            assert(out@ =~= Seq::<char>::empty());
        }
        push_str(&mut out, ps[i].as_str());
        proof {
            if i == 0 {
                assert(vs.take(1) =~= seq![vs[0]]);
            }
        }
        i += 1;
    }
    assert(vs.take(i as int) =~= vs);
    out
}

/// The problems of the numbers held by more than one path of the given kind.
fn duplicate_diagnostics(
    kind: &str,
    nums: &Vec<u32>,
    paths: &Vec<String>,
    pnums: &Vec<Option<u32>>,
) -> (res: Vec<SampleDiagnostic>)
    requires
        pnums@.len() == paths@.len(),
        forall|i: int| 0 <= i < pnums@.len() ==> pnums@[i] == sample_number(#[trigger] paths@[i]@),
    ensures
        diagnostic_views(res@) == duplicate_diags(kind@, nums@, views(paths@)),
{
    let ghost ps = views(paths@);
    let mut out: Vec<SampleDiagnostic> = Vec::new();
    let mut k: usize = 0;
    while k < nums.len()
        invariant
            ps == views(paths@),
            pnums@.len() == paths@.len(),
            forall|i: int| 0 <= i < pnums@.len() ==> pnums@[i] == sample_number(#[trigger] paths@[i]@),
            k <= nums@.len(),
            diagnostic_views(out@) == duplicate_diags(kind@, nums@.take(k as int), ps),
        decreases nums@.len() - k,
    {
        proof {
            assert(nums@.take(k + 1).drop_last() =~= nums@.take(k as int));
            assert(nums@.take(k + 1).last() == nums@[k as int]);
        }
        let n = nums[k];
        let g = paths_with(paths, pnums, n);
        if g.len() > 1 {
            let mut message = "Sample ".to_owned();
            push_str(&mut message, kind);
            push_str(&mut message, " ");
            let t = u64_to_string(n as u64);
            push_str(&mut message, t.as_str());
            push_str(&mut message, " is present more than once");
            let mut note = "Found at: ".to_owned();
            let j = join_paths(&g);
            push_str(&mut note, j.as_str());
            let d = SampleDiagnostic { message, note: Some(note) };
            let ghost dv = diagnostic_view(d);
            let ghost before = out@;
            out.push(d);
            proof {
                assert(diagnostic_views(out@) =~= diagnostic_views(before).push(dv));
            }
        }
        k += 1;
    }
    assert(nums@.take(k as int) =~= nums@);
    out
}

/// The problems of the input files whose number no output file has.
fn missing_output_diagnostics(
    in_nums: &Vec<u32>,
    out_nums: &Vec<u32>,
    inputs: &Vec<String>,
    inums: &Vec<Option<u32>>,
) -> (res: Vec<SampleDiagnostic>)
    requires
        inums@.len() == inputs@.len(),
        forall|i: int| 0 <= i < inums@.len() ==> inums@[i] == sample_number(#[trigger] inputs@[i]@),
        numbers_of(views(inputs@), in_nums@),
    ensures
        diagnostic_views(res@) == missing_output_diags(in_nums@, out_nums@, views(inputs@)),
{
    let ghost ps = views(inputs@);
    let mut out: Vec<SampleDiagnostic> = Vec::new();
    let mut k: usize = 0;
    while k < in_nums.len()
        invariant
            ps == views(inputs@),
            inums@.len() == inputs@.len(),
            forall|i: int| 0 <= i < inums@.len() ==> inums@[i] == sample_number(#[trigger] inputs@[i]@),
            numbers_of(ps, in_nums@),
            k <= in_nums@.len(),
            diagnostic_views(out@) == missing_output_diags(in_nums@.take(k as int), out_nums@, ps),
        decreases in_nums@.len() - k,
    {
        proof {
            assert(in_nums@.take(k + 1).drop_last() =~= in_nums@.take(k as int));
            assert(in_nums@.take(k + 1).last() == in_nums@[k as int]);
        }
        let n = in_nums[k];
        if !contains_number(out_nums, n) {
            let g = paths_with(inputs, inums, n);
            proof {
                assert(in_nums@.contains(n));
            }
            let mut message = "Sample input file ".to_owned();
            push_str(&mut message, g[0].as_str());
            push_str(&mut message, " does not have its output file");
            let d = SampleDiagnostic { message, note: None };
            let ghost dv = diagnostic_view(d);
            let ghost before = out@;
            out.push(d);
            proof {
                assert(g@[0]@ == with_number(ps, n)[0]);
                assert(diagnostic_views(out@) =~= diagnostic_views(before).push(dv));
            }
        }
        k += 1;
    }
    assert(in_nums@.take(k as int) =~= in_nums@);
    out
}

/// The problems of the output files whose number no input file has.
fn missing_input_diagnostics(
    out_nums: &Vec<u32>,
    in_nums: &Vec<u32>,
    outputs: &Vec<String>,
    onums: &Vec<Option<u32>>,
) -> (res: Vec<SampleDiagnostic>)
    requires
        onums@.len() == outputs@.len(),
        forall|i: int| 0 <= i < onums@.len() ==> onums@[i] == sample_number(#[trigger] outputs@[i]@),
        numbers_of(views(outputs@), out_nums@),
    ensures
        diagnostic_views(res@) == missing_input_diags(out_nums@, in_nums@, views(outputs@)),
{
    let ghost ps = views(outputs@);
    let mut out: Vec<SampleDiagnostic> = Vec::new();
    let mut k: usize = 0;
    while k < out_nums.len()
        invariant
            ps == views(outputs@),
            onums@.len() == outputs@.len(),
            forall|i: int| 0 <= i < onums@.len() ==> onums@[i] == sample_number(#[trigger] outputs@[i]@),
            numbers_of(ps, out_nums@),
            k <= out_nums@.len(),
            diagnostic_views(out@) == missing_input_diags(out_nums@.take(k as int), in_nums@, ps),
        decreases out_nums@.len() - k,
    {
        proof {
            assert(out_nums@.take(k + 1).drop_last() =~= out_nums@.take(k as int));
            assert(out_nums@.take(k + 1).last() == out_nums@[k as int]);
        }
        let n = out_nums[k];
        if !contains_number(in_nums, n) {
            let g = paths_with(outputs, onums, n);
            proof {
                assert(out_nums@.contains(n));
            }
            let mut message = "Sample output file ".to_owned();
            push_str(&mut message, g[0].as_str());
            push_str(&mut message, " does not have its input file");
            let d = SampleDiagnostic { message, note: None };
            let ghost dv = diagnostic_view(d);
            let ghost before = out@;
            out.push(d);
            proof {
                assert(g@[0]@ == with_number(ps, n)[0]);
                assert(diagnostic_views(out@) =~= diagnostic_views(before).push(dv));
            }
        }
        k += 1;
    }
    assert(out_nums@.take(k as int) =~= out_nums@);
    out
}

/// The sample cases: the first input and output file of each number both have.
fn pair_samples(
    in_nums: &Vec<u32>,
    out_nums: &Vec<u32>,
    inputs: &Vec<String>,
    inums: &Vec<Option<u32>>,
    outputs: &Vec<String>,
    onums: &Vec<Option<u32>>,
) -> (res: Vec<(String, String)>)
    requires
        inums@.len() == inputs@.len(),
        forall|i: int| 0 <= i < inums@.len() ==> inums@[i] == sample_number(#[trigger] inputs@[i]@),
        onums@.len() == outputs@.len(),
        forall|i: int| 0 <= i < onums@.len() ==> onums@[i] == sample_number(#[trigger] outputs@[i]@),
        numbers_of(views(inputs@), in_nums@),
        numbers_of(views(outputs@), out_nums@),
    ensures
        pair_views(res@) == sample_pairs(in_nums@, out_nums@, views(inputs@), views(outputs@)),
{
    let ghost ips = views(inputs@);
    let ghost ops = views(outputs@);
    let mut out: Vec<(String, String)> = Vec::new();
    let mut k: usize = 0;
    while k < in_nums.len()
        invariant
            ips == views(inputs@),
            ops == views(outputs@),
            inums@.len() == inputs@.len(),
            forall|i: int| 0 <= i < inums@.len() ==> inums@[i] == sample_number(#[trigger] inputs@[i]@),
            onums@.len() == outputs@.len(),
            forall|i: int| 0 <= i < onums@.len() ==> onums@[i] == sample_number(#[trigger] outputs@[i]@),
            numbers_of(ips, in_nums@),
            numbers_of(ops, out_nums@),
            k <= in_nums@.len(),
            pair_views(out@) == sample_pairs(in_nums@.take(k as int), out_nums@, ips, ops),
        decreases in_nums@.len() - k,
    {
        proof {
            assert(in_nums@.take(k + 1).drop_last() =~= in_nums@.take(k as int));
            assert(in_nums@.take(k + 1).last() == in_nums@[k as int]);
        }
        let n = in_nums[k];
        if contains_number(out_nums, n) {
            let gi = paths_with(inputs, inums, n);
            let go = paths_with(outputs, onums, n);
            proof {
                assert(in_nums@.contains(n));
                assert(out_nums@.contains(n));
            }
            let a = gi[0].clone();
            let b = go[0].clone();
            let ghost pv = (a@, b@);
            let ghost before = out@;
            out.push((a, b));
            proof {
                assert(gi@[0]@ == with_number(ips, n)[0]);
                assert(go@[0]@ == with_number(ops, n)[0]);
                assert(pair_views(out@) =~= pair_views(before).push(pv));
            }
        }
        k += 1;
    }
    assert(in_nums@.take(k as int) =~= in_nums@);
    out
}

/// The sample cases of a task and the problems found with its sample files.
pub struct SampleFiles {
    /// The pairs of an input file and an output file with the same number.
    pub pairs: Vec<(String, String)>,
    /// The problems, in order: the numbers of input files held twice, the numbers of output
    /// files held twice, the input files without their output file and the output files without
    /// their input file.
    pub diagnostics: Vec<SampleDiagnostic>,
}

/// Pairs the sample input files with the sample output files by their number, taking the first
/// file of each number, and reports the numbers held twice and the files without the other one of
/// the pair. Files without a number are ignored. The numbers are taken in increasing order.
pub fn get_sample_files(inputs: &Vec<String>, outputs: &Vec<String>) -> (res: SampleFiles)
    ensures
        exists|in_nums: Seq<u32>, out_nums: Seq<u32>| {
            &&& numbers_of(views(inputs@), in_nums)
            &&& numbers_of(views(outputs@), out_nums)
            &&& pair_views(res.pairs@) == sample_pairs(in_nums, out_nums, views(inputs@), views(outputs@))
            &&& diagnostic_views(res.diagnostics@) == duplicate_diags("input"@, in_nums, views(inputs@))
                + duplicate_diags("output"@, out_nums, views(outputs@))
                + missing_output_diags(in_nums, out_nums, views(inputs@))
                + missing_input_diags(out_nums, in_nums, views(outputs@))
        },
{
    let inums = numbers_of_paths(inputs);
    let onums = numbers_of_paths(outputs);
    let in_nums = distinct_numbers(inputs, &inums);
    let out_nums = distinct_numbers(outputs, &onums);
    let mut diagnostics = duplicate_diagnostics("input", &in_nums, inputs, &inums);
    let d2 = duplicate_diagnostics("output", &out_nums, outputs, &onums);
    let d3 = missing_output_diagnostics(&in_nums, &out_nums, inputs, &inums);
    let d4 = missing_input_diagnostics(&out_nums, &in_nums, outputs, &onums);
    let ghost v1 = diagnostics@;
    let ghost v2 = d2@;
    let ghost v3 = d3@;
    let ghost v4 = d4@;
    let mut d2 = d2;
    let mut d3 = d3;
    let mut d4 = d4;
    diagnostics.append(&mut d2);
    diagnostics.append(&mut d3);
    diagnostics.append(&mut d4);
    proof {
        assert(diagnostic_views(diagnostics@) =~= diagnostic_views(v1) + diagnostic_views(v2)
            + diagnostic_views(v3) + diagnostic_views(v4));
    }
    let pairs = pair_samples(&in_nums, &out_nums, inputs, &inums, outputs, &onums);
    SampleFiles { pairs, diagnostics }
}

} // verus!
