//! Character-level building blocks shared by every module: moving between
//! `String` and `Vec<char>`, trimming, splitting, reading and writing numbers.
//!
//! The spec functions here say what the standard library's string helpers do
//! (`trim`, `split_once`, `parse::<u64>`, `{}` and `{:x}` on integers); the
//! exec functions compute the same thing on character vectors.

use vstd::prelude::*;

verus! {

// ---------------------------------------------------------------------------
// String <-> Vec<char>

/// `String::push`: claims the string gains `c` at its end and nothing else
/// changes, as the standard library documents.
#[verifier::external_body]
pub(crate) fn push_char(s: &mut String, c: char)
    ensures
        final(s)@ == old(s)@.push(c),
{
    s.push(c);
}

/// The characters of `s`, in order.
pub fn chars_of(s: &str) -> (out: Vec<char>)
    ensures
        out@ == s@,
{
    let mut out: Vec<char> = Vec::new();
    let n = s.unicode_len();
    let mut i: usize = 0;
    while i < n
        invariant
            n == s@.len(),
            i <= n,
            out@ == s@.subrange(0, i as int),
        decreases n - i,
    {
        out.push(s.get_char(i));
        i += 1;
    }
    assert(out@ == s@);
    out
}

/// Append the characters `v[lo..hi]` to `out`.
pub fn push_range(out: &mut String, v: &Vec<char>, lo: usize, hi: usize)
    requires
        lo <= hi <= v.len(),
    ensures
        final(out)@ == old(out)@ + v@.subrange(lo as int, hi as int),
{
    let mut i = lo;
    while i < hi
        invariant
            lo <= i <= hi <= v.len(),
            out@ == old(out)@ + v@.subrange(lo as int, i as int),
        decreases hi - i,
    {
        push_char(out, v[i]);
        i += 1;
        assert(v@.subrange(lo as int, i as int) == v@.subrange(lo as int, i - 1 as int).push(
            v@[i - 1],
        ));
    }
}

/// A string holding exactly the characters `v[lo..hi]`.
pub fn string_of_range(v: &Vec<char>, lo: usize, hi: usize) -> (out: String)
    requires
        lo <= hi <= v.len(),
    ensures
        out@ == v@.subrange(lo as int, hi as int),
{
    let mut out = String::new();
    push_range(&mut out, v, lo, hi);
    out
}

/// A string holding exactly the characters of `v`.
pub fn string_of(v: &Vec<char>) -> (out: String)
    ensures
        out@ == v@,
{
    let out = string_of_range(v, 0, v.len());
    assert(v@.subrange(0, v@.len() as int) == v@);
    out
}

/// Append a string slice to `out`.
pub fn push_str(out: &mut String, s: &str)
    ensures
        final(out)@ == old(out)@ + s@,
{
    out.append(s);
}

// ---------------------------------------------------------------------------
// Whitespace and trimming

/// `char::is_whitespace`: the Unicode `White_Space` property.
pub open spec fn is_ws(c: char) -> bool {
    let u = c as u32;
    ||| 0x09 <= u <= 0x0D
    ||| u == 0x20
    ||| u == 0x85
    ||| u == 0xA0
    ||| u == 0x1680
    ||| 0x2000 <= u <= 0x200A
    ||| u == 0x2028
    ||| u == 0x2029
    ||| u == 0x202F
    ||| u == 0x205F
    ||| u == 0x3000
}

pub fn is_whitespace(c: char) -> (r: bool)
    ensures
        r == is_ws(c),
{
    let u = c as u32;
    (0x09 <= u && u <= 0x0D) || u == 0x20 || u == 0x85 || u == 0xA0 || u == 0x1680 || (0x2000
        <= u && u <= 0x200A) || u == 0x2028 || u == 0x2029 || u == 0x202F || u == 0x205F || u
        == 0x3000
}

/// `str::trim_start`.
pub open spec fn trim_start(s: Seq<char>) -> Seq<char>
    decreases s.len(),
{
    if s.len() > 0 && is_ws(s[0]) {
        trim_start(s.drop_first())
    } else {
        s
    }
}

/// `str::trim_end`.
pub open spec fn trim_end(s: Seq<char>) -> Seq<char>
    decreases s.len(),
{
    if s.len() > 0 && is_ws(s.last()) {
        trim_end(s.drop_last())
    } else {
        s
    }
}

/// `str::trim`.
pub open spec fn trim(s: Seq<char>) -> Seq<char> {
    trim_end(trim_start(s))
}

/// The bounds of `trim(v[lo..hi])` within `v`.
pub fn trim_bounds(v: &Vec<char>, lo: usize, hi: usize) -> (r: (usize, usize))
    requires
        lo <= hi <= v.len(),
    ensures
        lo <= r.0 <= r.1 <= hi,
        v@.subrange(r.0 as int, r.1 as int) == trim(v@.subrange(lo as int, hi as int)),
{
    let mut a = lo;
    while a < hi && is_whitespace(v[a])
        invariant
            lo <= a <= hi <= v.len(),
            trim_start(v@.subrange(lo as int, hi as int)) == trim_start(
                v@.subrange(a as int, hi as int),
            ),
        decreases hi - a,
    {
        assert(v@.subrange(a as int, hi as int).drop_first() == v@.subrange(a + 1, hi as int));
        a += 1;
    }
    let mut b = hi;
    while b > a && is_whitespace(v[b - 1])
        invariant
            lo <= a <= b <= hi <= v.len(),
            trim(v@.subrange(lo as int, hi as int)) == trim_end(v@.subrange(a as int, b as int)),
        decreases b - a,
    {
        assert(v@.subrange(a as int, b as int).drop_last() == v@.subrange(a as int, b - 1));
        b -= 1;
    }
    (a, b)
}

// ---------------------------------------------------------------------------
// Searching

/// `s` begins with `p`.
pub open spec fn starts_with(s: Seq<char>, p: Seq<char>) -> bool {
    p.len() <= s.len() && s.subrange(0, p.len() as int) == p
}

/// `s` ends with `p`.
pub open spec fn ends_with(s: Seq<char>, p: Seq<char>) -> bool {
    p.len() <= s.len() && s.subrange(s.len() - p.len(), s.len() as int) == p
}

/// Index of the first `c` in `s`, as `str::find` counts it (in characters).
pub open spec fn find(s: Seq<char>, c: char) -> Option<int>
    decreases s.len(),
{
    if s.len() == 0 {
        None
    } else if s[0] == c {
        Some(0)
    } else {
        match find(s.drop_first(), c) {
            Some(i) => Some(i + 1),
            None => None,
        }
    }
}

/// Index of the last `c` in `s`, as `str::rfind` counts it (in characters).
pub open spec fn rfind(s: Seq<char>, c: char) -> Option<int>
    decreases s.len(),
{
    if s.len() == 0 {
        None
    } else if s.last() == c {
        Some(s.len() - 1)
    } else {
        rfind(s.drop_last(), c)
    }
}

pub proof fn lemma_find(s: Seq<char>, c: char)
    ensures
        match find(s, c) {
            Some(i) => 0 <= i < s.len() && s[i] == c && forall|j: int| 0 <= j < i ==> s[j] != c,
            None => forall|j: int| 0 <= j < s.len() ==> s[j] != c,
        },
    decreases s.len(),
{
    if s.len() > 0 && s[0] != c {
        lemma_find(s.drop_first(), c);
        match find(s.drop_first(), c) {
            Some(i) => {
                assert forall|j: int| 0 <= j < i + 1 implies s[j] != c by {
                    if j > 0 {
                        assert(s[j] == s.drop_first()[j - 1]);
                    }
                }
            },
            None => {
                assert forall|j: int| 0 <= j < s.len() implies s[j] != c by {
                    if j > 0 {
                        assert(s[j] == s.drop_first()[j - 1]);
                    }
                }
            },
        }
    }
}

pub proof fn lemma_rfind(s: Seq<char>, c: char)
    ensures
        match rfind(s, c) {
            Some(i) => 0 <= i < s.len() && s[i] == c && forall|j: int| i < j < s.len() ==> s[j]
                != c,
            None => forall|j: int| 0 <= j < s.len() ==> s[j] != c,
        },
    decreases s.len(),
{
    if s.len() > 0 && s.last() != c {
        lemma_rfind(s.drop_last(), c);
        assert forall|j: int| 0 <= j < s.len() - 1 implies s[j] == s.drop_last()[j] by {}
    }
}

/// The unique index characterising `find`.
pub proof fn lemma_find_is(s: Seq<char>, c: char, i: int)
    requires
        0 <= i < s.len(),
        s[i] == c,
        forall|j: int| 0 <= j < i ==> s[j] != c,
    ensures
        find(s, c) == Some(i),
    decreases s.len(),
{
    if i > 0 {
        assert(s[0] != c);
        lemma_find_is(s.drop_first(), c, i - 1);
    }
}

pub proof fn lemma_find_none(s: Seq<char>, c: char)
    requires
        forall|j: int| 0 <= j < s.len() ==> s[j] != c,
    ensures
        find(s, c) == None::<int>,
    decreases s.len(),
{
    if s.len() > 0 {
        lemma_find_none(s.drop_first(), c);
    }
}

pub proof fn lemma_rfind_is(s: Seq<char>, c: char, i: int)
    requires
        0 <= i < s.len(),
        s[i] == c,
        forall|j: int| i < j < s.len() ==> s[j] != c,
    ensures
        rfind(s, c) == Some(i),
    decreases s.len(),
{
    if i < s.len() - 1 {
        lemma_rfind_is(s.drop_last(), c, i);
    }
}

pub proof fn lemma_rfind_none(s: Seq<char>, c: char)
    requires
        forall|j: int| 0 <= j < s.len() ==> s[j] != c,
    ensures
        rfind(s, c) == None::<int>,
    decreases s.len(),
{
    if s.len() > 0 {
        lemma_rfind_none(s.drop_last(), c);
    }
}

/// First index of `c` in `v[lo..hi]`, relative to `lo`.
pub fn find_in(v: &Vec<char>, lo: usize, hi: usize, c: char) -> (r: Option<usize>)
    requires
        lo <= hi <= v.len(),
    ensures
        match r {
            Some(i) => find(v@.subrange(lo as int, hi as int), c) == Some(i as int),
            None => find(v@.subrange(lo as int, hi as int), c) == None::<int>,
        },
{
    let ghost s = v@.subrange(lo as int, hi as int);
    let mut i = lo;
    while i < hi
        invariant
            lo <= i <= hi <= v.len(),
            s == v@.subrange(lo as int, hi as int),
            forall|j: int| 0 <= j < i - lo ==> s[j] != c,
        decreases hi - i,
    {
        if v[i] == c {
            proof {
                lemma_find_is(s, c, i - lo);
            }
            return Some(i - lo);
        }
        i += 1;
    }
    proof {
        lemma_find_none(s, c);
    }
    None
}

/// Last index of `c` in `v[lo..hi]`, relative to `lo`.
pub fn rfind_in(v: &Vec<char>, lo: usize, hi: usize, c: char) -> (r: Option<usize>)
    requires
        lo <= hi <= v.len(),
    ensures
        match r {
            Some(i) => rfind(v@.subrange(lo as int, hi as int), c) == Some(i as int),
            None => rfind(v@.subrange(lo as int, hi as int), c) == None::<int>,
        },
{
    let ghost s = v@.subrange(lo as int, hi as int);
    let mut i = hi;
    while i > lo
        invariant
            lo <= i <= hi <= v.len(),
            s == v@.subrange(lo as int, hi as int),
            forall|j: int| i - lo <= j < s.len() ==> s[j] != c,
        decreases i - lo,
    {
        if v[i - 1] == c {
            proof {
                lemma_rfind_is(s, c, i - 1 - lo);
            }
            return Some(i - 1 - lo);
        }
        i -= 1;
    }
    proof {
        lemma_rfind_none(s, c);
    }
    None
}

/// Whether `v[lo..hi]` equals the literal `p`.
pub fn range_eq(v: &Vec<char>, lo: usize, hi: usize, p: &str) -> (r: bool)
    requires
        lo <= hi <= v.len(),
    ensures
        r == (v@.subrange(lo as int, hi as int) == p@),
{
    let pv = chars_of(p);
    if hi - lo != pv.len() {
        return false;
    }
    let mut i: usize = 0;
    while i < pv.len()
        invariant
            hi - lo == pv.len(),
            lo <= hi <= v.len(),
            pv@ == p@,
            i <= pv.len(),
            forall|j: int| 0 <= j < i ==> v@[lo + j] == pv@[j],
        decreases pv.len() - i,
    {
        if v[lo + i] != pv[i] {
            assert(v@.subrange(lo as int, hi as int)[i as int] != p@[i as int]);
            return false;
        }
        i += 1;
    }
    assert(v@.subrange(lo as int, hi as int) == p@);
    true
}

/// Whether `v[lo..hi]` begins with the literal `p`.
pub fn range_starts_with(v: &Vec<char>, lo: usize, hi: usize, p: &str) -> (r: bool)
    requires
        lo <= hi <= v.len(),
    ensures
        r == starts_with(v@.subrange(lo as int, hi as int), p@),
{
    let n = p.unicode_len();
    if n > hi - lo {
        return false;
    }
    let r = range_eq(v, lo, lo + n, p);
    assert(v@.subrange(lo as int, hi as int).subrange(0, n as int) == v@.subrange(
        lo as int,
        lo + n,
    ));
    r
}

/// Whether `v[lo..hi]` ends with the literal `p`.
pub fn range_ends_with(v: &Vec<char>, lo: usize, hi: usize, p: &str) -> (r: bool)
    requires
        lo <= hi <= v.len(),
    ensures
        r == ends_with(v@.subrange(lo as int, hi as int), p@),
{
    let n = p.unicode_len();
    if n > hi - lo {
        return false;
    }
    let r = range_eq(v, hi - n, hi, p);
    assert(v@.subrange(lo as int, hi as int).subrange(hi - lo - n, hi - lo) == v@.subrange(
        hi - n,
        hi as int,
    ));
    r
}


// ---------------------------------------------------------------------------
// Splitting

/// `str::split` on one character: the pieces between separators, empty ones
/// included, so a string with `n` separators has `n + 1` pieces.
pub open spec fn split(s: Seq<char>, c: char) -> Seq<Seq<char>>
    decreases s.len(),
{
    match find(s, c) {
        None => seq![s],
        Some(i) => {
            proof {
                lemma_find(s, c);
            }
            seq![s.subrange(0, i)] + split(s.subrange(i + 1, s.len() as int), c)
        },
    }
}

/// One step of `split` seen through a sub-range: the piece up to the first
/// separator found at `i`, and the split of what follows it.
pub proof fn lemma_split_step(v: Seq<char>, lo: int, hi: int, c: char, i: int)
    requires
        0 <= lo <= hi <= v.len(),
        find(v.subrange(lo, hi), c) == Some(i),
    ensures
        0 <= i < hi - lo,
        v[lo + i] == c,
        split(v.subrange(lo, hi), c) == seq![v.subrange(lo, lo + i)] + split(
            v.subrange(lo + i + 1, hi),
            c,
        ),
{
    lemma_find(v.subrange(lo, hi), c);
    assert(v.subrange(lo, hi).subrange(0, i) == v.subrange(lo, lo + i));
    assert(v.subrange(lo, hi).subrange(i + 1, hi - lo) == v.subrange(lo + i + 1, hi));
}

/// The last step of `split`: no separator left, so one piece.
pub proof fn lemma_split_last(v: Seq<char>, lo: int, hi: int, c: char)
    requires
        0 <= lo <= hi <= v.len(),
        find(v.subrange(lo, hi), c) == None::<int>,
    ensures
        split(v.subrange(lo, hi), c) == seq![v.subrange(lo, hi)],
{
}


/// Where the pieces of `split(v[lo..hi], c)` lie in `v`.
pub fn split_bounds(v: &Vec<char>, lo: usize, hi: usize, c: char) -> (r: Vec<(usize, usize)>)
    requires
        lo <= hi <= v.len(),
    ensures
        r.len() == split(v@.subrange(lo as int, hi as int), c).len(),
        r.len() >= 1,
        forall|k: int|
            0 <= k < r.len() ==> lo <= (#[trigger] r@[k]).0 <= r@[k].1 <= hi && v@.subrange(
                r@[k].0 as int,
                r@[k].1 as int,
            ) == split(v@.subrange(lo as int, hi as int), c)[k],
{
    let ghost whole = split(v@.subrange(lo as int, hi as int), c);
    let mut out: Vec<(usize, usize)> = Vec::new();
    let mut start: usize = lo;
    loop
        invariant
            lo <= start <= hi <= v.len(),
            whole == split(v@.subrange(lo as int, hi as int), c),
            whole.len() == out.len() + split(v@.subrange(start as int, hi as int), c).len(),
            forall|k: int|
                0 <= k < out.len() ==> lo <= (#[trigger] out@[k]).0 <= out@[k].1 <= hi
                    && v@.subrange(out@[k].0 as int, out@[k].1 as int) == whole[k],
            forall|k: int|
                0 <= k < split(v@.subrange(start as int, hi as int), c).len() ==> whole[out.len()
                    + k] == split(v@.subrange(start as int, hi as int), c)[k],
        decreases hi - start,
    {
        let found = find_in(v, start, hi, c);
        proof {
            lemma_find(v@.subrange(start as int, hi as int), c);
        }
        match found {
            Some(i) => {
                proof {
                    lemma_split_step(v@, start as int, hi as int, c, i as int);
                    let rest = split(v@.subrange(start + i + 1, hi as int), c);
                    let cur = split(v@.subrange(start as int, hi as int), c);
                    assert(cur == seq![v@.subrange(start as int, start + i)] + rest);
                    assert(whole[out.len() as int] == cur[0]);
                    assert forall|k: int| 0 <= k < rest.len() implies whole[out.len() + 1 + k]
                        == rest[k] by {
                        assert(cur[k + 1] == rest[k]);
                    }
                }
                out.push((start, start + i));
                start = start + i + 1;
            },
            None => {
                proof {
                    lemma_split_last(v@, start as int, hi as int, c);
                    let cur = split(v@.subrange(start as int, hi as int), c);
                    assert(cur[0] == v@.subrange(start as int, hi as int));
                    assert(whole[out.len() + 0] == cur[0]);
                }
                out.push((start, hi));
                return out;
            },
        }
    }
}

/// `str::split_once`: the text before and after the first separator.
pub open spec fn split_once(s: Seq<char>, c: char) -> Option<(Seq<char>, Seq<char>)> {
    match find(s, c) {
        None => None,
        Some(i) => Some((s.subrange(0, i), s.subrange(i + 1, s.len() as int))),
    }
}

// ---------------------------------------------------------------------------
// Decimal integers

pub open spec fn is_digit(c: char) -> bool {
    '0' <= c && c <= '9'
}

pub open spec fn digit_value(c: char) -> nat {
    (c as u32 - '0' as u32) as nat
}

pub open spec fn all_digits(s: Seq<char>) -> bool {
    forall|i: int| 0 <= i < s.len() ==> is_digit(#[trigger] s[i])
}

/// The number a run of decimal digits spells.
pub open spec fn digits_value(s: Seq<char>) -> nat
    decreases s.len(),
{
    if s.len() == 0 {
        0
    } else {
        digits_value(s.drop_last()) * 10 + digit_value(s.last())
    }
}

/// `str::parse::<u64>`: an optional `+`, then one or more ASCII digits whose
/// value fits in a `u64`.
pub open spec fn parse_u64(s: Seq<char>) -> Option<u64> {
    let d = if s.len() > 0 && s[0] == '+' {
        s.drop_first()
    } else {
        s
    };
    if d.len() > 0 && all_digits(d) && digits_value(d) <= u64::MAX {
        Some(digits_value(d) as u64)
    } else {
        None
    }
}

proof fn lemma_digits_value_monotone(s: Seq<char>, k: int)
    requires
        0 <= k <= s.len(),
        all_digits(s),
    ensures
        digits_value(s.subrange(0, k)) <= digits_value(s),
    decreases s.len() - k,
{
    if k < s.len() {
        lemma_digits_value_monotone(s, k + 1);
        assert(s.subrange(0, k + 1).drop_last() == s.subrange(0, k));
    } else {
        assert(s.subrange(0, k) == s);
    }
}

/// Parse `v[lo..hi]` as `str::parse::<u64>` does.
pub fn parse_u64_in(v: &Vec<char>, lo: usize, hi: usize) -> (r: Option<u64>)
    requires
        lo <= hi <= v.len(),
    ensures
        r == parse_u64(v@.subrange(lo as int, hi as int)),
{
    let ghost s = v@.subrange(lo as int, hi as int);
    let mut start = lo;
    if lo < hi && v[lo] == '+' {
        start = lo + 1;
    }
    let ghost d = v@.subrange(start as int, hi as int);
    assert(d == (if s.len() > 0 && s[0] == '+' { s.drop_first() } else { s }));
    if start == hi {
        return None;
    }
    let mut value: u64 = 0;
    let mut i = start;
    while i < hi
        invariant
            lo <= start <= i <= hi <= v.len(),
            d == v@.subrange(start as int, hi as int),
            s == v@.subrange(lo as int, hi as int),
            d == (if s.len() > 0 && s[0] == '+' { s.drop_first() } else { s }),
            all_digits(v@.subrange(start as int, i as int)),
            value == digits_value(v@.subrange(start as int, i as int)),
        decreases hi - i,
    {
        let c = v[i];
        if !('0' <= c && c <= '9') {
            assert(d[i - start] == c);
            return None;
        }
        let digit = (c as u32 - '0' as u32) as u64;
        assert(v@.subrange(start as int, i + 1).drop_last() == v@.subrange(start as int, i as int));
        match value.checked_mul(10) {
            Some(m) => match m.checked_add(digit) {
                Some(n) => {
                    value = n;
                },
                None => {
                    proof {
                        if all_digits(d) {
                            assert(d.subrange(0, i + 1 - start) == v@.subrange(
                                start as int,
                                i + 1,
                            ));
                            lemma_digits_value_monotone(d, i + 1 - start);
                        }
                    }
                    return None;
                },
            },
            None => {
                proof {
                    if all_digits(d) {
                        assert(d.subrange(0, i + 1 - start) == v@.subrange(start as int, i + 1));
                        lemma_digits_value_monotone(d, i + 1 - start);
                    }
                }
                return None;
            },
        }
        i += 1;
    }
    assert(v@.subrange(start as int, i as int) == d);
    Some(value)
}

/// The character for a digit below sixteen, lower-case as `{:x}` writes it.
pub open spec fn digit_char(d: nat) -> char {
    if d < 10 {
        (('0' as u32) + d) as char
    } else {
        (('a' as u32) + d - 10) as char
    }
}

/// `n` written in base `b` (ten or sixteen), most significant digit first,
/// with no leading zeros: `format!("{n}")` and `format!("{n:x}")`.
pub open spec fn in_base(n: nat, b: nat) -> Seq<char>
    recommends
        b == 10 || b == 16,
    decreases n,
{
    if n < b || b < 2 {
        seq![digit_char(n)]
    } else {
        proof {
            assert(n / b < n) by (nonlinear_arith)
                requires
                    n >= b,
                    b >= 2,
            ;
        }
        in_base(n / b, b).push(digit_char(n % b))
    }
}

/// `format!("{n}")`.
pub open spec fn dec(n: nat) -> Seq<char> {
    in_base(n, 10)
}

/// `format!("{n:x}")`.
pub open spec fn hex(n: nat) -> Seq<char> {
    in_base(n, 16)
}


/// The value a digit character stands for (`0-9`, then `a-f`).
pub open spec fn digit_of(c: char) -> nat {
    if '0' <= c && c <= '9' {
        (c as u32 - '0' as u32) as nat
    } else {
        (c as u32 - 'a' as u32 + 10) as nat
    }
}

/// Characters `in_base` can produce.
pub open spec fn is_base_digit(c: char) -> bool {
    ('0' <= c && c <= '9') || ('a' <= c && c <= 'f')
}

/// The number a run of digits in base `b` spells.
pub open spec fn base_value(s: Seq<char>, b: nat) -> nat
    decreases s.len(),
{
    if s.len() == 0 {
        0
    } else {
        base_value(s.drop_last(), b) * b + digit_of(s.last())
    }
}

proof fn lemma_digit_char(d: nat)
    requires
        d < 16,
    ensures
        digit_of(digit_char(d)) == d,
        is_base_digit(digit_char(d)),
{
    if d < 10 {
        let c = digit_char(d);
        assert(c as u32 == 48 + d);
    } else {
        let c = digit_char(d);
        assert(c as u32 == 97 + d - 10);
    }
}

/// Writing a number out and reading it back gives the number, and the text
/// is made of digits only.
pub proof fn lemma_in_base(n: nat, b: nat)
    requires
        b == 10 || b == 16,
    ensures
        base_value(in_base(n, b), b) == n,
        in_base(n, b).len() >= 1,
        forall|i: int| 0 <= i < in_base(n, b).len() ==> is_base_digit(#[trigger] in_base(n, b)[i]),
    decreases n,
{
    if n < b {
        lemma_digit_char(n);
        let s = in_base(n, b);
        assert(s.drop_last() == Seq::<char>::empty());
        assert(base_value(s.drop_last(), b) == 0);
        assert(base_value(s, b) == 0 * b + digit_of(s.last()));
    } else {
        assert(n / b < n) by (nonlinear_arith)
            requires
                n >= b,
                b >= 2,
        ;
        lemma_in_base(n / b, b);
        assert(n % b < b) by (nonlinear_arith)
            requires
                b >= 2,
        ;
        lemma_digit_char(n % b);
        let s = in_base(n, b);
        assert(s == in_base(n / b, b).push(digit_char(n % b)));
        assert(s.drop_last() == in_base(n / b, b));
        assert(s.last() == digit_char(n % b));
        let q = n / b;
        let r = n % b;
        assert(n == q * b + r) by (nonlinear_arith)
            requires
                b >= 2,
                q == n / b,
                r == n % b,
        ;
        assert(base_value(s, b) == base_value(s.drop_last(), b) * b + digit_of(s.last()));
        assert(base_value(s, b) == q * b + r);
        assert forall|i: int| 0 <= i < s.len() implies is_base_digit(#[trigger] s[i]) by {
            if i < s.len() - 1 {
                assert(s[i] == in_base(n / b, b)[i]);
            }
        }
    }
}

/// Different numbers are written differently.
pub proof fn lemma_in_base_injective(m: nat, n: nat, b: nat)
    requires
        b == 10 || b == 16,
        in_base(m, b) == in_base(n, b),
    ensures
        m == n,
{
    lemma_in_base(m, b);
    lemma_in_base(n, b);
}

fn digit_to_char(d: u128) -> (c: char)
    requires
        d < 16,
    ensures
        c == digit_char(d as nat),
{
    if d < 10 {
        let u: u8 = 48u8 + (d as u8);
        u as char
    } else {
        let u: u8 = 87u8 + (d as u8);
        u as char
    }
}

/// Append `n` in base `b` to `out`.
pub fn push_in_base(out: &mut String, n: u128, b: u128)
    requires
        b == 10 || b == 16,
    ensures
        final(out)@ == old(out)@ + in_base(n as nat, b as nat),
    decreases n,
{
    if n >= b {
        push_in_base(out, n / b, b);
    }
    let c = digit_to_char(n % b);
    push_char(out, c);
}

/// Append `n` in decimal.
pub fn push_dec(out: &mut String, n: u128)
    ensures
        final(out)@ == old(out)@ + dec(n as nat),
{
    push_in_base(out, n, 10);
}

/// Append `n` in lower-case hex.
pub fn push_hex(out: &mut String, n: u128)
    ensures
        final(out)@ == old(out)@ + hex(n as nat),
{
    push_in_base(out, n, 16);
}

} // verus!
