//! Small helpers on strings and vectors shared by the modules of the crate.

use vstd::prelude::*;

verus! {

/// Appends `t` at the end of `s`.
pub fn push_str(s: &mut String, t: &str)
    ensures
        final(s)@ == old(s)@ + t@,
{
    s.append(t)
}

/// The decimal representation of a natural number, without leading zeros.
pub open spec fn decimal(n: nat) -> Seq<char>
    decreases n,
{
    if n < 10 {
        seq![digit_char(n)]
    } else {
        decimal(n / 10).push(digit_char(n % 10))
    }
}

/// The character of a decimal digit.
pub open spec fn digit_char(d: nat) -> char {
    if d == 0 { '0' }
    else if d == 1 { '1' }
    else if d == 2 { '2' }
    else if d == 3 { '3' }
    else if d == 4 { '4' }
    else if d == 5 { '5' }
    else if d == 6 { '6' }
    else if d == 7 { '7' }
    else if d == 8 { '8' }
    else { '9' }
}

/// The text of a decimal digit.
fn digit_text(d: u64) -> (res: &'static str)
    requires
        d < 10,
    ensures
        res@ == seq![digit_char(d as nat)],
{
    proof {
        reveal_strlit("0");
        reveal_strlit("1");
        reveal_strlit("2");
        reveal_strlit("3");
        reveal_strlit("4");
        reveal_strlit("5");
        reveal_strlit("6");
        reveal_strlit("7");
        reveal_strlit("8");
        reveal_strlit("9");
    }
    if d == 0 { "0" }
    else if d == 1 { "1" }
    else if d == 2 { "2" }
    else if d == 3 { "3" }
    else if d == 4 { "4" }
    else if d == 5 { "5" }
    else if d == 6 { "6" }
    else if d == 7 { "7" }
    else if d == 8 { "8" }
    else { "9" }
}

/// The decimal representation of `n`, as `u64::to_string` writes it.
pub fn u64_to_string(n: u64) -> (res: String)
    ensures
        res@ == decimal(n as nat),
    decreases n,
{
    if n < 10 {
        let mut s = String::new();
        push_str(&mut s, digit_text(n));
        proof { assert(s@ =~= seq![digit_char(n as nat)]); }
        s
    } else {
        let mut s = u64_to_string(n / 10);
        push_str(&mut s, digit_text(n % 10));
        proof { assert(s@ =~= decimal((n / 10) as nat).push(digit_char((n % 10) as nat))); }
        s
    }
}

/// An ASCII decimal digit.
pub open spec fn is_digit(c: char) -> bool {
    '0' <= c <= '9'
}

/// Every character of `t` is a decimal digit.
pub open spec fn all_digits(t: Seq<char>) -> bool {
    forall|i: int| 0 <= i < t.len() ==> is_digit(#[trigger] t[i])
}

/// The value of a decimal digit.
pub open spec fn digit_value(c: char) -> nat {
    (c as int - '0' as int) as nat
}

/// The value of a sequence of decimal digits, the most significant first.
pub open spec fn digits_value(s: Seq<char>) -> nat
    decreases s.len(),
{
    if s.len() == 0 {
        0
    } else {
        digits_value(s.drop_last()) * 10 + digit_value(s.last())
    }
}

/// The value of the text of an unsigned integer as `str::parse` reads it: an optional plus sign
/// followed by at least one decimal digit.
pub open spec fn unsigned_value(s: Seq<char>) -> Option<nat> {
    let body = if s.len() > 0 && s[0] == '+' { s.drop_first() } else { s };
    if body.len() > 0 && all_digits(body) {
        Some(digits_value(body))
    } else {
        None
    }
}

/// The value of the text of a signed integer as `str::parse` reads it: a minus sign followed by at
/// least one decimal digit, or the text of an unsigned integer.
pub open spec fn signed_value(s: Seq<char>) -> Option<int> {
    if s.len() > 0 && s[0] == '-' {
        let body = s.drop_first();
        if body.len() > 0 && all_digits(body) {
            Some(-(digits_value(body) as int))
        } else {
            None
        }
    } else {
        match unsigned_value(s) {
            Some(v) => Some(v as int),
            None => None,
        }
    }
}

/// The decimal representation of an integer, with a minus sign before a negative one.
pub open spec fn signed_decimal(i: int) -> Seq<char> {
    if i < 0 {
        seq!['-'] + decimal((-i) as nat)
    } else {
        decimal(i as nat)
    }
}

/// The decimal representation of `n`, with a minus sign before a negative one, as
/// `i32::to_string` writes it.
pub fn i32_to_string(n: i32) -> (res: String)
    ensures
        res@ == signed_decimal(n as int),
{
    if n < 0 {
        let m: u64 = (0i64 - (n as i64)) as u64;
        let digits = u64_to_string(m);
        let mut s = String::new();
        push_str(&mut s, "-");
        push_str(&mut s, digits.as_str());
        proof {
            reveal_strlit("-");
            assert(s@ =~= seq!['-'] + decimal((-(n as int)) as nat));
        }
        s
    } else {
        u64_to_string(n as u64)
    }
}

/// The value of a prefix of a sequence of digits is at most the value of the whole.
proof fn lemma_digits_value_prefix(s: Seq<char>, k: int)
    requires
        0 <= k <= s.len(),
    ensures
        digits_value(s.take(k)) <= digits_value(s),
    decreases s.len(),
{
    if k < s.len() {
        assert(s.drop_last().take(k) =~= s.take(k));
        lemma_digits_value_prefix(s.drop_last(), k);
    } else {
        assert(s.take(k) =~= s);
    }
}

/// The decimal representation of a natural number is a non-empty sequence of digits whose value
/// is that number.
pub proof fn lemma_decimal(n: nat)
    ensures
        decimal(n).len() > 0,
        all_digits(decimal(n)),
        digits_value(decimal(n)) == n,
    decreases n,
{
    let c = digit_char(n % 10);
    assert(digit_value(c) == n % 10);
    if n < 10 {
        assert(decimal(n).drop_last() =~= Seq::<char>::empty());
        assert(decimal(n).last() == c);
        assert(digits_value(decimal(n)) == digits_value(Seq::<char>::empty()) * 10 + digit_value(c));
    } else {
        lemma_decimal(n / 10);
        let d = decimal(n / 10);
        assert(decimal(n).drop_last() =~= d);
        assert(decimal(n).last() == c);
        assert((n / 10) * 10 + n % 10 == n);
        assert(digits_value(decimal(n)) == digits_value(d) * 10 + digit_value(c));
        assert forall|i: int| 0 <= i < decimal(n).len() implies is_digit(#[trigger] decimal(n)[i]) by {
            if i < d.len() {
                assert(decimal(n)[i] == d[i]);
            }
        }
    }
}

/// `str::parse` reads back the decimal representation of a natural number.
pub proof fn lemma_unsigned_value_decimal(n: nat)
    ensures
        unsigned_value(decimal(n)) == Some(n),
{
    lemma_decimal(n);
}

/// `str::parse` reads back the decimal representation of an integer.
pub proof fn lemma_signed_value_decimal(i: int)
    ensures
        signed_value(signed_decimal(i)) == Some(i),
{
    if i < 0 {
        lemma_decimal((-i) as nat);
        assert((seq!['-'] + decimal((-i) as nat)).drop_first() =~= decimal((-i) as nat));
    } else {
        lemma_decimal(i as nat);
    }
}

/// The value of the sequence of decimal digits `s`, when it is at most `max`.
pub(crate) fn digits_up_to(s: &Vec<char>, max: u64) -> (res: Option<u64>)
    requires
        all_digits(s@),
    ensures
        res matches Some(v) ==> v as nat == digits_value(s@) && v <= max,
        res is None ==> digits_value(s@) > max,
{
    let mut acc: u128 = 0;
    let mut i: usize = 0;
    while i < s.len()
        invariant
            all_digits(s@),
            i <= s@.len(),
            acc == digits_value(s@.take(i as int)),
            acc <= max,
        decreases s@.len() - i,
    {
        let c = s[i];
        assert(is_digit(s@[i as int]));
        let d = (c as u32 - '0' as u32) as u128;
        assert(s@.take(i + 1).drop_last() =~= s@.take(i as int));
        let next = acc * 10 + d;
        if next > max as u128 {
            proof {
                lemma_digits_value_prefix(s@, i + 1);
            }
            return None;
        }
        acc = next;
        i += 1;
    }
    assert(s@.take(i as int) =~= s@);
    Some(acc as u64)
}

/// The characters of `s` from position `from` on, when they are all decimal digits.
pub(crate) fn digits_from(s: &Vec<char>, from: usize) -> (res: Option<Vec<char>>)
    requires
        from <= s@.len(),
    ensures
        res is Some <==> all_digits(s@.skip(from as int)),
        res matches Some(d) ==> d@ == s@.skip(from as int),
{
    let mut out: Vec<char> = Vec::new();
    let mut i: usize = from;
    while i < s.len()
        invariant
            from <= i <= s@.len(),
            out@ == s@.subrange(from as int, i as int),
            all_digits(out@),
        decreases s@.len() - i,
    {
        let c = s[i];
        if !('0' <= c && c <= '9') {
            assert(s@.skip(from as int)[i - from] == c);
            return None;
        }
        out.push(c);
        i += 1;
    }
    assert(out@ =~= s@.skip(from as int));
    Some(out)
}

/// The value of the text of an unsigned integer (`str::parse` of an unsigned integer type whose
/// largest value is `max`): `None` when the text is not such a number or its value exceeds `max`.
pub fn parse_unsigned(s: &str, max: u64) -> (res: Option<u64>)
    ensures
        res is Some <==> (unsigned_value(s@) matches Some(v) && v <= max),
        res matches Some(v) ==> unsigned_value(s@) == Some(v as nat),
{
    let chars = crate::lexing::to_chars(s);
    let from: usize = if chars.len() > 0 && chars[0] == '+' { 1 } else { 0 };
    let ghost body = if s@.len() > 0 && s@[0] == '+' { s@.drop_first() } else { s@ };
    proof {
        if from == 1 {
            assert(body =~= s@.skip(1));
        } else {
            assert(body =~= s@.skip(0));
        }
    }
    if from >= chars.len() {
        return None;
    }
    match digits_from(&chars, from) {
        None => None,
        Some(d) => digits_up_to(&d, max),
    }
}

/// The value of the text of an `i32` (`str::parse::<i32>`): `None` when the text is not the text
/// of an integer or its value is out of the range of `i32`.
pub fn parse_i32(s: &str) -> (res: Option<i32>)
    ensures
        res is Some <==> (signed_value(s@) matches Some(v) && i32::MIN <= v <= i32::MAX),
        res matches Some(v) ==> signed_value(s@) == Some(v as int),
{
    let chars = crate::lexing::to_chars(s);
    if chars.len() > 0 && chars[0] == '-' {
        assert(s@.drop_first() =~= s@.skip(1));
        if chars.len() == 1 {
            return None;
        }
        match digits_from(&chars, 1) {
            None => None,
            Some(d) => match digits_up_to(&d, 2147483648) {
                None => None,
                Some(v) => Some((0 - (v as i64)) as i32),
            },
        }
    } else {
        match parse_unsigned(s, 2147483647) {
            None => None,
            Some(v) => Some(v as i32),
        }
    }
}

/// The value of the text of an `i64` (`str::parse::<i64>`): `None` when the text is not the text
/// of an integer or its value is out of the range of `i64`.
pub fn parse_i64(s: &str) -> (res: Option<i64>)
    ensures
        res is Some <==> (signed_value(s@) matches Some(v) && i64::MIN <= v <= i64::MAX),
        res matches Some(v) ==> signed_value(s@) == Some(v as int),
{
    let chars = crate::lexing::to_chars(s);
    if chars.len() > 0 && chars[0] == '-' {
        assert(s@.drop_first() =~= s@.skip(1));
        if chars.len() == 1 {
            return None;
        }
        match digits_from(&chars, 1) {
            None => None,
            Some(d) => match digits_up_to(&d, 9223372036854775808) {
                None => None,
                Some(v) => if v == 9223372036854775808 {
                    Some(i64::MIN)
                } else {
                    Some(0 - (v as i64))
                },
            },
        }
    } else {
        match parse_unsigned(s, 9223372036854775807) {
            None => None,
            Some(v) => Some(v as i64),
        }
    }
}

/// Whether `x` occurs in `v`.
pub fn vec_contains(v: &Vec<u128>, x: u128) -> (res: bool)
    ensures
        res == v@.contains(x),
{
    let mut i: usize = 0;
    while i < v.len()
        invariant
            i <= v@.len(),
            forall|j: int| 0 <= j < i ==> v@[j] != x,
        decreases v@.len() - i,
    {
        if v[i] == x {
            assert(v@[i as int] == x);
            return true;
        }
        i += 1;
    }
    false
}

/// `x` appears at two different positions of `s`.
pub open spec fn occurs_twice<A>(s: Seq<A>, x: A) -> bool {
    exists|i: int, j: int| 0 <= i < j < s.len() && s[i] == x && s[j] == x
}

/// The first element of `v` that appears again earlier in `v`, if any.
pub fn first_duplicate(v: &Vec<u128>) -> (res: Option<u128>)
    ensures
        res is None <==> v@.no_duplicates(),
        res matches Some(u) ==> occurs_twice(v@, u),
{
    let mut i: usize = 0;
    while i < v.len()
        invariant
            i <= v@.len(),
            v@.take(i as int).no_duplicates(),
        decreases v@.len() - i,
    {
        let mut j: usize = 0;
        while j < i
            invariant
                j <= i < v@.len(),
                forall|k: int| 0 <= k < j ==> v@[k] != v@[i as int],
            decreases i - j,
        {
            if v[j] == v[i] {
                assert(occurs_twice(v@, v@[i as int]));
                assert(!v@.no_duplicates());
                return Some(v[i]);
            }
            j += 1;
        }
        assert(v@.take(i + 1) =~= v@.take(i as int).push(v@[i as int]));
        i += 1;
    }
    assert(v@.take(v@.len() as int) =~= v@);
    None
}

/// Appending an element already present in `p` to a prefix `p` of `full` makes it appear twice
/// in `full`.
pub proof fn lemma_prefix_push_dup<A>(p: Seq<A>, x: A, full: Seq<A>)
    requires
        p.push(x).is_prefix_of(full),
        p.contains(x),
    ensures
        occurs_twice(full, x),
{
    let i = choose|i: int| 0 <= i < p.len() && p[i] == x;
    assert(full[i] == p.push(x)[i]);
    assert(full[p.len() as int] == p.push(x)[p.len() as int]);
}

/// Taking one more element of a sequence of sequences appends that element to the flattening.
pub proof fn lemma_flatten_take_succ<A>(s: Seq<Seq<A>>, i: int)
    requires
        0 <= i < s.len(),
    ensures
        s.take(i + 1).flatten() == s.take(i).flatten() + s[i],
{
    s.lemma_take_succ_push(i);
    s.take(i).lemma_flatten_push(s[i]);
}

/// The flattening of a prefix is a prefix of the flattening.
pub proof fn lemma_flatten_take_prefix<A>(s: Seq<Seq<A>>, i: int)
    requires
        0 <= i <= s.len(),
    ensures
        s.take(i).flatten().is_prefix_of(s.flatten()),
    decreases s.len() - i,
{
    if i == s.len() {
        assert(s.take(i) =~= s);
    } else {
        lemma_flatten_take_succ(s, i);
        lemma_flatten_take_prefix(s, i + 1);
        let a = s.take(i).flatten();
        let b = s.take(i + 1).flatten();
        let c = s.flatten();
        assert(a =~= b.subrange(0, a.len() as int));
        assert(a =~= c.subrange(0, a.len() as int));
    }
}

/// `a + b.take(k)` is a prefix of `a + b`.
pub proof fn lemma_append_take_prefix<A>(a: Seq<A>, b: Seq<A>, k: int)
    requires
        0 <= k <= b.len(),
    ensures
        (a + b.take(k)).is_prefix_of(a + b),
{
    assert((a + b.take(k)) =~= (a + b).subrange(0, (a + b.take(k)).len() as int));
}

/// Being a prefix is transitive.
pub proof fn lemma_prefix_trans<A>(a: Seq<A>, b: Seq<A>, c: Seq<A>)
    requires
        a.is_prefix_of(b),
        b.is_prefix_of(c),
    ensures
        a.is_prefix_of(c),
{
    assert(a =~= c.subrange(0, a.len() as int));
}

/// Appending a fresh element keeps a sequence free of duplicates.
pub proof fn lemma_push_no_dup<A>(s: Seq<A>, x: A)
    requires
        s.no_duplicates(),
        !s.contains(x),
    ensures
        s.push(x).no_duplicates(),
{
    assert forall|i: int, j: int| 0 <= i < s.push(x).len() && 0 <= j < s.push(x).len() && i != j
        implies s.push(x)[i] != s.push(x)[j] by {
        if i < s.len() && j < s.len() {
        } else if i < s.len() {
            assert(s.contains(s[i]));
        } else {
            assert(s.contains(s[j]));
        }
    }
}


/// Whether two strings have the same characters.
pub fn str_eq(a: &str, b: &str) -> (res: bool)
    ensures
        res == (a@ == b@),
{
    let n = a.unicode_len();
    if n != b.unicode_len() {
        return false;
    }
    let mut i: usize = 0;
    while i < n
        invariant
            n == a@.len() == b@.len(),
            i <= n,
            forall|j: int| 0 <= j < i ==> a@[j] == b@[j],
        decreases n - i,
    {
        if a.get_char(i) != b.get_char(i) {
            return false;
        }
        i += 1;
    }
    assert(a@ =~= b@);
    true
}

} // verus!
